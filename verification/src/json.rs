//! JSON values as the library holds them: node metadata.
use vstd::prelude::*;
use crate::model::{first_index, lemma_first_index, lemma_first_index_at, lemma_first_index_absent};
use crate::text::str_eq;

verus! {

/// A JSON value. Numbers keep their textual form.
pub enum JsonValue {
    Null,
    Bool(bool),
    Number(String),
    Str(String),
    Array(Vec<JsonValue>),
    Object(Vec<(String, JsonValue)>),
}

/// A JSON value as plain data.
pub enum JsonView {
    Null,
    Bool(bool),
    Number(Seq<char>),
    Str(Seq<char>),
    Array(Seq<JsonView>),
    Object(Seq<(Seq<char>, JsonView)>),
}

impl JsonValue {
    /// The value as plain data.
    pub open spec fn jv(self) -> JsonView
        decreases self,
    {
        match self {
            JsonValue::Null => JsonView::Null,
            JsonValue::Bool(b) => JsonView::Bool(b),
            JsonValue::Number(s) => JsonView::Number(s@),
            JsonValue::Str(s) => JsonView::Str(s@),
            JsonValue::Array(items) => JsonView::Array(
                Seq::new(
                    items@.len(),
                    |i: int|
                        if 0 <= i < items@.len() {
                            items@[i].jv()
                        } else {
                            JsonView::Null
                        },
                ),
            ),
            JsonValue::Object(es) => JsonView::Object(
                Seq::new(
                    es@.len(),
                    |i: int|
                        if 0 <= i < es@.len() {
                            (es@[i].0@, es@[i].1.jv())
                        } else {
                            (Seq::empty(), JsonView::Null)
                        },
                ),
            ),
        }
    }
}

/// An object is viewed entry by entry.
pub proof fn lemma_object_jv(es: Vec<(String, JsonValue)>, target: Seq<(Seq<char>, JsonView)>)
    requires
        es@.len() == target.len(),
        forall|i: int| 0 <= i < target.len() ==> (#[trigger] es@[i]).0@ == target[i].0 && es@[i].1.jv() == target[i].1,
    ensures
        JsonValue::Object(es).jv() == JsonView::Object(target),
{
    let v = JsonValue::Object(es);
    if let JsonView::Object(got) = v.jv() {
        assert(got =~= target);
    }
}

/// An array is viewed item by item.
pub proof fn lemma_array_jv(items: Vec<JsonValue>, target: Seq<JsonView>)
    requires
        items@.len() == target.len(),
        forall|i: int| 0 <= i < target.len() ==> (#[trigger] items@[i]).jv() == target[i],
    ensures
        JsonValue::Array(items).jv() == JsonView::Array(target),
{
    let v = JsonValue::Array(items);
    if let JsonView::Array(got) = v.jv() {
        assert(got =~= target);
    }
}

/// The keys of an object's entries, in order.
pub open spec fn entry_keys(es: Seq<(String, JsonValue)>) -> Seq<Seq<char>> {
    es.map_values(|e: (String, JsonValue)| e.0@)
}

/// The entries without those whose key is `k`.
pub open spec fn without_key(es: Seq<(String, JsonValue)>, k: Seq<char>) -> Seq<(String, JsonValue)>
    decreases es.len(),
{
    if es.len() == 0 {
        es
    } else if es[0].0@ == k {
        without_key(es.drop_first(), k)
    } else {
        seq![es[0]] + without_key(es.drop_first(), k)
    }
}

pub proof fn lemma_without_key(es: Seq<(String, JsonValue)>, k: Seq<char>, k2: Seq<char>)
    ensures
        first_index(entry_keys(without_key(es, k)), k) == -1,
        k2 != k ==> {
            let i = first_index(entry_keys(es), k2);
            let i2 = first_index(entry_keys(without_key(es, k)), k2);
            (i >= 0) == (i2 >= 0) && (i >= 0 ==> without_key(es, k)[i2] == es[i])
        },
    decreases es.len(),
{
    if es.len() > 0 {
        let t = es.drop_first();
        lemma_without_key(t, k, k2);
        let r = without_key(t, k);
        assert(entry_keys(es).drop_first() =~= entry_keys(t));
        assert(entry_keys(es)[0] == es[0].0@);
        lemma_first_index(entry_keys(t), k2);
        lemma_first_index(entry_keys(r), k2);
        if es[0].0@ != k {
            let w = seq![es[0]] + r;
            assert(w == without_key(es, k));
            assert(entry_keys(w).drop_first() =~= entry_keys(r));
            assert(entry_keys(w)[0] == es[0].0@);
            if es[0].0@ != k2 {
                let ft = first_index(entry_keys(t), k2);
                let fr = first_index(entry_keys(r), k2);
                if fr >= 0 {
                    assert(w[fr + 1] == r[fr]);
                }
                if ft >= 0 {
                    assert(es[ft + 1] == t[ft]);
                }
            }
        } else {
            let ft = first_index(entry_keys(t), k2);
            if ft >= 0 {
                assert(es[ft + 1] == t[ft]);
            }
        }
    }
}

impl JsonValue {
    /// The value under `key` of an object (first entry with that key).
    pub open spec fn spec_get(self, key: Seq<char>) -> Option<JsonValue> {
        match self {
            JsonValue::Object(es) => {
                let i = first_index(entry_keys(es@), key);
                if i >= 0 {
                    Some(es@[i].1)
                } else {
                    None
                }
            },
            _ => None,
        }
    }

    /// The boolean under `key`, false when absent or not a boolean.
    pub open spec fn flag(self, key: Seq<char>) -> bool {
        match self.spec_get(key) {
            Some(JsonValue::Bool(b)) => b,
            _ => false,
        }
    }

    /// The string under `key`, if there is one.
    pub open spec fn str_at(self, key: Seq<char>) -> Option<Seq<char>> {
        match self.spec_get(key) {
            Some(JsonValue::Str(s)) => Some(s@),
            _ => None,
        }
    }

    /// The value under `key` of an object.
    #[verifier::loop_isolation(false)]
    pub fn get(&self, key: &str) -> (r: Option<&JsonValue>)
        ensures
            match r {
                Some(x) => self.spec_get(key@) == Some(*x),
                None => self.spec_get(key@) is None,
            },
    {
        match self {
            JsonValue::Object(es) => {
                let mut i: usize = 0;
                while i < es.len()
                    invariant
                        i <= es.len(),
                        forall|j: int| 0 <= j < i ==> es@[j].0@ != key@,
                    decreases es.len() - i,
                {
                    if str_eq(es[i].0.as_str(), key) {
                        proof {
                            lemma_first_index_at(entry_keys(es@), key@, i as int);
                        }
                        return Some(&es[i].1);
                    }
                    i = i + 1;
                }
                proof {
                    lemma_first_index_absent(entry_keys(es@), key@);
                }
                None
            },
            _ => None,
        }
    }

    pub fn as_bool(&self) -> (r: Option<bool>)
        ensures
            r == (match *self {
                JsonValue::Bool(b) => Some(b),
                _ => None,
            }),
    {
        match self {
            JsonValue::Bool(b) => Some(*b),
            _ => None,
        }
    }

    pub fn as_str(&self) -> (r: Option<&String>)
        ensures
            match *self {
                JsonValue::Str(s) => r == Some(&s),
                _ => r is None,
            },
    {
        match self {
            JsonValue::Str(s) => Some(s),
            _ => None,
        }
    }

    pub fn is_object(&self) -> (r: bool)
        ensures
            r == (*self is Object),
    {
        match self {
            JsonValue::Object(_) => true,
            _ => false,
        }
    }

    /// The boolean under `key`, false when absent or not a boolean.
    pub fn get_flag(&self, key: &str) -> (r: bool)
        ensures
            r == self.flag(key@),
    {
        match self.get(key) {
            Some(v) => match v.as_bool() {
                Some(b) => b,
                None => false,
            },
            None => false,
        }
    }

    /// The string under `key`, if there is one.
    pub fn get_str(&self, key: &str) -> (r: Option<&String>)
        ensures
            match r {
                Some(s) => self.str_at(key@) == Some(s@),
                None => self.str_at(key@) is None,
            },
    {
        match self.get(key) {
            Some(v) => v.as_str(),
            None => None,
        }
    }

    /// Set `key` to `value` in an object (the first entry with that key is
    /// replaced, or a new entry is added); other values are left as they
    /// are. Returns whether the value is an object.
    #[verifier::loop_isolation(false)]
    pub fn insert(&mut self, key: String, value: JsonValue) -> (r: bool)
        ensures
            r == (*old(self) is Object),
            match *old(self) {
                JsonValue::Object(es) => {
                    let i = first_index(entry_keys(es@), key@);
                    &&& *final(self) is Object
                    &&& i >= 0 ==> final(self)->Object_0@ == es@.update(i, (es@[i].0, value))
                    &&& i < 0 ==> final(self)->Object_0@ == es@.push((key, value))
                },
                _ => *final(self) == *old(self),
            },
            *old(self) is Object ==> final(self).spec_get(key@) == Some(value),
            forall|k: Seq<char>| k != key@ ==> #[trigger] final(self).spec_get(k) == old(self).spec_get(k),
    {
        let mut taken = JsonValue::Null;
        std::mem::swap(self, &mut taken);
        match taken {
            JsonValue::Object(mut es) => {
                let ghost old_es = es@;
                let mut i: usize = 0;
                while i < es.len()
                    invariant
                        i <= es.len(),
                        es@ == old_es,
                        forall|j: int| 0 <= j < i ==> es@[j].0@ != key@,
                    decreases es.len() - i,
                {
                    if es[i].0 == key {
                        proof {
                            lemma_first_index_at(entry_keys(es@), key@, i as int);
                        }
                        es[i].1 = value;
                        proof {
                            assert(es@ =~= old_es.update(i as int, (old_es[i as int].0, es@[i as int].1)));
                            assert(entry_keys(es@) =~= entry_keys(old_es));
                            assert forall|k: Seq<char>| k != key@ implies first_index(entry_keys(es@), k)
                                != i by {
                                lemma_first_index(entry_keys(es@), k);
                            }
                        }
                        *self = JsonValue::Object(es);
                        proof {
                            assert(old(self)->Object_0@ == old_es);
                            assert forall|k: Seq<char>| k != key@ implies #[trigger] self.spec_get(k)
                                == old(self).spec_get(k) by {
                                lemma_first_index(entry_keys(old_es), k);
                            }
                        }
                        return true;
                    }
                    i = i + 1;
                }
                proof {
                    lemma_first_index_absent(entry_keys(es@), key@);
                }
                es.push((key, value));
                proof {
                    let n = old_es.len() as int;
                    assert(entry_keys(es@).subrange(0, n) =~= entry_keys(old_es));
                    assert forall|j: int| 0 <= j < n implies entry_keys(es@)[j] != key@ by {}
                    lemma_first_index_at(entry_keys(es@), key@, n);
                    assert forall|k: Seq<char>| k != key@ implies first_index(entry_keys(es@), k)
                        == first_index(entry_keys(old_es), k) by {
                        lemma_first_index(entry_keys(old_es), k);
                        let f = first_index(entry_keys(old_es), k);
                        if f >= 0 {
                            assert forall|j: int| 0 <= j < f implies entry_keys(es@)[j] != k by {
                                assert(entry_keys(es@)[j] == entry_keys(old_es)[j]);
                            }
                            lemma_first_index_at(entry_keys(es@), k, f);
                        } else {
                            assert forall|j: int| 0 <= j < es@.len() implies entry_keys(es@)[j] != k by {
                                if j < n {
                                    assert(entry_keys(es@)[j] == entry_keys(old_es)[j]);
                                }
                            }
                            lemma_first_index_absent(entry_keys(es@), k);
                        }
                    }
                }
                *self = JsonValue::Object(es);
                proof {
                    assert(old(self)->Object_0@ == old_es);
                    assert forall|k: Seq<char>| k != key@ implies #[trigger] self.spec_get(k)
                        == old(self).spec_get(k) by {
                        lemma_first_index(entry_keys(old_es), k);
                    }
                }
                true
            },
            other => {
                *self = other;
                false
            },
        }
    }

    /// Remove every entry with key `key` from an object; other values are
    /// left as they are.
    pub fn remove(&mut self, key: &str)
        ensures
            match *old(self) {
                JsonValue::Object(es) => *final(self) is Object && final(self)->Object_0@
                    == without_key(es@, key@),
                _ => *final(self) == *old(self),
            },
            final(self).spec_get(key@) is None,
            forall|k: Seq<char>| k != key@ ==> #[trigger] final(self).spec_get(k) == old(self).spec_get(k),
    {
        let mut taken = JsonValue::Null;
        std::mem::swap(self, &mut taken);
        match taken {
            JsonValue::Object(mut es) => {
                let ghost old_es = es@;
                let mut i: usize = es.len();
                while i > 0
                    invariant
                        i <= old_es.len(),
                        es@ == old_es.subrange(0, i as int) + without_key(
                            old_es.subrange(i as int, old_es.len() as int),
                            key@,
                        ),
                    decreases i,
                {
                    let ghost tail = old_es.subrange(i as int, old_es.len() as int);
                    let ghost tail1 = old_es.subrange(i - 1, old_es.len() as int);
                    assert(tail1.drop_first() =~= tail);
                    assert(es@[i - 1] == old_es[i - 1]);
                    if str_eq(es[i - 1].0.as_str(), key) {
                        es.remove(i - 1);
                        assert(es@ =~= old_es.subrange(0, i - 1) + without_key(tail1, key@));
                    } else {
                        assert(es@ =~= old_es.subrange(0, i - 1) + without_key(tail1, key@));
                    }
                    i = i - 1;
                }
                proof {
                    assert(old_es.subrange(0, old_es.len() as int) =~= old_es);
                    assert(es@ =~= without_key(old_es, key@));
                    lemma_without_key(old_es, key@, key@);
                    assert forall|k: Seq<char>| k != key@ implies (first_index(entry_keys(es@), k)
                        >= 0) == (first_index(entry_keys(old_es), k) >= 0) && (first_index(
                        entry_keys(old_es),
                        k,
                    ) >= 0 ==> es@[first_index(entry_keys(es@), k)] == old_es[first_index(
                        entry_keys(old_es),
                        k,
                    )]) by {
                        lemma_without_key(old_es, key@, k);
                    }
                }
                *self = JsonValue::Object(es);
            },
            other => {
                *self = other;
            },
        }
    }
}

} // verus!

verus! {

impl JsonValue {
    /// A copy of the value.
    pub fn clone_value(&self) -> (r: JsonValue)
        ensures
            r.jv() == self.jv(),
        decreases self,
    {
        match self {
            JsonValue::Null => JsonValue::Null,
            JsonValue::Bool(b) => JsonValue::Bool(*b),
            JsonValue::Number(s) => JsonValue::Number(s.clone()),
            JsonValue::Str(s) => JsonValue::Str(s.clone()),
            JsonValue::Array(items) => {
                let mut out: Vec<JsonValue> = Vec::new();
                let mut k: usize = 0;
                while k < items.len()
                    invariant
                        k <= items@.len(),
                        out@.len() == k,
                        forall|i: int| 0 <= i < k ==> (#[trigger] out@[i]).jv() == items@[i].jv(),
                        *self == JsonValue::Array(*items),
                    decreases items@.len() - k,
                {
                    proof {
                        assert(decreases_to!(*self => self->Array_0));
                        assert(decreases_to!(*items => items@));
                        assert(decreases_to!(items@ => items@[k as int]));
                    }
                    out.push(items[k].clone_value());
                    k = k + 1;
                }
                proof {
                    if let JsonView::Array(t) = self.jv() {
                        lemma_array_jv(out, t);
                    }
                }
                JsonValue::Array(out)
            },
            JsonValue::Object(es) => {
                let mut out: Vec<(String, JsonValue)> = Vec::new();
                let mut k: usize = 0;
                while k < es.len()
                    invariant
                        k <= es@.len(),
                        out@.len() == k,
                        forall|i: int|
                            0 <= i < k ==> (#[trigger] out@[i]).0@ == es@[i].0@ && out@[i].1.jv() == es@[i].1.jv(),
                        *self == JsonValue::Object(*es),
                    decreases es@.len() - k,
                {
                    proof {
                        assert(decreases_to!(*self => self->Object_0));
                        assert(decreases_to!(*es => es@));
                        assert(decreases_to!(es@ => es@[k as int]));
                        assert(decreases_to!(es@[k as int] => es@[k as int].1));
                    }
                    out.push((es[k].0.clone(), es[k].1.clone_value()));
                    k = k + 1;
                }
                proof {
                    if let JsonView::Object(t) = self.jv() {
                        lemma_object_jv(out, t);
                    }
                }
                JsonValue::Object(out)
            },
        }
    }
}

} // verus!

verus! {

/// `new` is `old` with `item` added to the list under `key`: an object
/// without that key gains the list `[item]`, an object whose value there
/// is an array gets `item` appended; anything else stays as it is.
pub open spec fn listed(new: JsonValue, old: JsonValue, key: Seq<char>, item: Seq<char>) -> bool {
    &&& (new is Object) == (old is Object)
    &&& forall|k: Seq<char>| k != key ==> #[trigger] new.spec_get(k) == old.spec_get(k)
    &&& match old {
        JsonValue::Object(_) => match old.spec_get(key) {
            None => new.spec_get(key) matches Some(v) && v.jv() == JsonView::Array(seq![JsonView::Str(item)]),
            Some(JsonValue::Array(items)) => new.spec_get(key) matches Some(v) && v.jv() == JsonView::Array(
                JsonValue::Array(items).jv()->Array_0.push(JsonView::Str(item)),
            ),
            Some(_) => new == old,
        },
        _ => new == old,
    }
}

/// Add `item` to the list under `key` (see `listed`).
pub fn push_to_list(meta: &mut JsonValue, key: &str, item: &String)
    ensures
        listed(*final(meta), *old(meta), key@, item@),
{
    let fresh: Option<JsonValue> = match meta.get(key) {
        None => {
            if meta.is_object() {
                let mut items: Vec<JsonValue> = Vec::new();
                items.push(JsonValue::Str(item.clone()));
                proof {
                    lemma_array_jv(items, seq![JsonView::Str(item@)]);
                }
                Some(JsonValue::Array(items))
            } else {
                None
            }
        },
        Some(JsonValue::Array(items)) => {
            let mut out: Vec<JsonValue> = Vec::new();
            let ghost old_view = JsonValue::Array(*items).jv()->Array_0;
            let mut k: usize = 0;
            while k < items.len()
                invariant
                    k <= items@.len(),
                    old_view == JsonValue::Array(*items).jv()->Array_0,
                    out@.len() == k,
                    forall|i: int| 0 <= i < k ==> (#[trigger] out@[i]).jv() == items@[i].jv(),
                decreases items@.len() - k,
            {
                out.push(items[k].clone_value());
                k = k + 1;
            }
            out.push(JsonValue::Str(item.clone()));
            proof {
                assert(old_view.len() == items@.len());
                lemma_array_jv(out, old_view.push(JsonView::Str(item@)));
            }
            Some(JsonValue::Array(out))
        },
        Some(_) => None,
    };
    match fresh {
        Some(v) => {
            let _ = meta.insert(crate::text::owned(key), v);
        },
        None => {},
    }
}

} // verus!

verus! {

/// `new` is `old` with the string `val` set under `key`, when `old` is an
/// object; anything else stays as it is.
pub open spec fn keyed(new: JsonValue, old: JsonValue, key: Seq<char>, val: Seq<char>) -> bool {
    &&& (new is Object) == (old is Object)
    &&& forall|k: Seq<char>| k != key ==> #[trigger] new.spec_get(k) == old.spec_get(k)
    &&& old is Object ==> (new.spec_get(key) matches Some(v) && v.jv() == JsonView::Str(val))
    &&& !(old is Object) ==> new == old
}

/// Set the string `val` under `key` (see `keyed`).
pub fn set_str(meta: &mut JsonValue, key: &str, val: &str)
    ensures
        keyed(*final(meta), *old(meta), key@, val@),
{
    let _ = meta.insert(crate::text::owned(key), JsonValue::Str(crate::text::owned(val)));
}

} // verus!
