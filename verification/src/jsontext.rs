//! Reading JSON text, with serde_json.
use vstd::prelude::*;
use crate::json::{JsonValue, JsonView};

verus! {

#[verifier::external_type_specification]
#[verifier::external_body]
pub struct ExJsonDocument(serde_json::Value);

/// Converts serde_json's value into the library's, one for one: numbers
/// become their text as serde_json writes them, and an object's entries
/// come in the order serde_json's map yields them.
#[verifier::external_body]
fn from_serde(v: &serde_json::Value) -> JsonValue {
    match v {
        serde_json::Value::Null => JsonValue::Null,
        serde_json::Value::Bool(b) => JsonValue::Bool(*b),
        serde_json::Value::Number(n) => JsonValue::Number(n.to_string()),
        serde_json::Value::String(s) => JsonValue::Str(s.clone()),
        serde_json::Value::Array(items) => JsonValue::Array(items.iter().map(from_serde).collect()),
        serde_json::Value::Object(map) => JsonValue::Object(
            map.iter().map(|(k, item)| (k.clone(), from_serde(item))).collect(),
        ),
    }
}

/// What `serde_json::from_str::<serde_json::Value>` gives for `text`,
/// converted by `from_serde`: `None` when the text is not one JSON value.
pub uninterp spec fn json_parse(text: Seq<char>) -> Option<JsonView>;

/// Calls `serde_json::from_str::<serde_json::Value>` on `text`; the value
/// read, converted, is the one `json_parse` names, and `None` stands for
/// serde_json's error.
#[verifier::external_body]
pub(crate) fn parse_json(text: &str) -> (r: Option<JsonValue>)
    ensures
        match r {
            Some(v) => json_parse(text@) == Some(v.jv()),
            None => json_parse(text@) is None,
        },
{
    match serde_json::from_str::<serde_json::Value>(text) {
        Ok(v) => Some(from_serde(&v)),
        Err(_) => None,
    }
}

/// The metadata value given on the command line: the JSON value the text
/// reads as, or else the text itself as a string.
pub fn metadata_value(value: &str) -> (r: JsonValue)
    ensures
        match json_parse(value@) {
            Some(j) => r.jv() == j,
            None => r.jv() == JsonView::Str(value@),
        },
{
    match parse_json(value) {
        Some(v) => v,
        None => JsonValue::Str(crate::text::owned(value)),
    }
}

/// The metadata stored as JSON text: the value the text reads as, or an
/// empty object when it is not JSON.
pub fn stored_metadata(text: &str) -> (r: JsonValue)
    ensures
        match json_parse(text@) {
            Some(j) => r.jv() == j,
            None => r is Object && r->Object_0@.len() == 0,
        },
{
    match parse_json(text) {
        Some(v) => v,
        None => crate::types::empty_object(),
    }
}

/// The strings of `items`, when every item is a string.
pub open spec fn str_items(items: Seq<JsonView>) -> Option<Seq<Seq<char>>>
    decreases items.len(),
{
    if items.len() == 0 {
        Some(Seq::empty())
    } else {
        match (str_items(items.drop_last()), items.last()) {
            (Some(r), JsonView::Str(x)) => Some(r.push(x)),
            _ => None,
        }
    }
}

/// The list of strings that `text` reads as: a JSON array of strings;
/// empty when the text is anything else.
pub open spec fn strings_read(text: Seq<char>) -> Seq<Seq<char>> {
    match json_parse(text) {
        Some(JsonView::Array(items)) => match str_items(items) {
            Some(ss) => ss,
            None => Seq::empty(),
        },
        _ => Seq::empty(),
    }
}

/// A list of ids stored as JSON text (see `strings_read`).
pub fn stored_strings(text: &str) -> (r: Vec<String>)
    ensures
        crate::types::views(r@) == strings_read(text@),
{
    let mut out: Vec<String> = Vec::new();
    match parse_json(text) {
        Some(v) => {
            let ghost jv = v.jv();
            match &v {
                JsonValue::Array(items) => {
                    let ghost js = jv->Array_0;
                    assert(js.len() == items@.len());
                    assert(jv == JsonView::Array(js));
                    let mut k: usize = 0;
                    while k < items.len()
                        invariant
                            k <= items@.len(),
                            js.len() == items@.len(),
                            jv == JsonView::Array(js),
                            json_parse(text@) == Some(jv),
                            forall|i: int| 0 <= i < items@.len() ==> js[i] == (#[trigger] items@[i]).jv(),
                            str_items(js.take(k as int)) == Some(crate::types::views(out@)),
                        decreases items@.len() - k,
                    {
                        assert(js.take(k + 1).drop_last() =~= js.take(k as int));
                        assert(js.take(k + 1).last() == items@[k as int].jv());
                        match &items[k] {
                            JsonValue::Str(x) => {
                                let ghost before = crate::types::views(out@);
                                out.push(x.clone());
                                assert(crate::types::views(out@) =~= before.push(x@));
                            },
                            _ => {
                                proof {
                                    lemma_str_items_none(js, k as int);
                                }
                                let e: Vec<String> = Vec::new();
                                assert(crate::types::views(e@) =~= Seq::<Seq<char>>::empty());
                                return e;
                            },
                        }
                        k = k + 1;
                    }
                    assert(js.take(items@.len() as int) =~= js);
                },
                _ => {},
            }
        },
        None => {},
    }
    proof {
        assert(crate::types::views(out@) =~= strings_read(text@)) by {
            if out@.len() == 0 {
                assert(crate::types::views(out@) =~= Seq::<Seq<char>>::empty());
            }
        }
    }
    out
}

/// A non-string item makes the whole list unreadable.
proof fn lemma_str_items_none(js: Seq<JsonView>, k: int)
    requires
        0 <= k < js.len(),
        !(js[k] is Str),
    ensures
        str_items(js) is None,
    decreases js.len(),
{
    if k < js.len() - 1 {
        lemma_str_items_none(js.drop_last(), k);
    }
}

} // verus!
