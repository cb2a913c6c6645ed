//! Reading a network back from the JSON document that export writes.
use vstd::prelude::*;
use crate::jsontext::{json_parse, parse_json};
use crate::json::{JsonValue, JsonView};
use crate::text::owned;
use crate::types::{views, Justification, Nogood, Node};

verus! {

/// The string under `key`, or `default` when there is none.
pub open spec fn str_or(v: JsonValue, key: Seq<char>, default: Seq<char>) -> Seq<char> {
    match v.str_at(key) {
        Some(s) => s,
        None => default,
    }
}

/// The strings among the items, in order (other items are skipped).
pub open spec fn strings_in(items: Seq<JsonValue>) -> Seq<Seq<char>>
    decreases items.len(),
{
    if items.len() == 0 {
        Seq::empty()
    } else {
        let r = strings_in(items.drop_last());
        match items.last() {
            JsonValue::Str(s) => r.push(s@),
            _ => r,
        }
    }
}

/// The strings of the array under `key` (none when it is not an array).
pub open spec fn str_list(v: JsonValue, key: Seq<char>) -> Seq<Seq<char>> {
    match v.spec_get(key) {
        Some(JsonValue::Array(items)) => strings_in(items@),
        _ => Seq::empty(),
    }
}

/// The items of the array under `key` (none when it is not an array).
pub open spec fn items_at(v: JsonValue, key: Seq<char>) -> Seq<JsonValue> {
    match v.spec_get(key) {
        Some(JsonValue::Array(items)) => items@,
        _ => Seq::empty(),
    }
}

/// The entries of the object under `key` (none when it is not an object).
pub open spec fn entries_at(v: JsonValue, key: Seq<char>) -> Seq<(String, JsonValue)> {
    match v.spec_get(key) {
        Some(JsonValue::Object(es)) => es@,
        _ => Seq::empty(),
    }
}

/// `j` is the justification of node `id` that `jd` describes: type (SL by
/// default), antecedents, out-list and label, row id 0.
pub open spec fn just_from(j: Justification, id: Seq<char>, jd: JsonValue) -> bool {
    &&& j.rowid == 0
    &&& j.node_id@ == id
    &&& j.jtype@ == str_or(jd, "type"@, "SL"@)
    &&& views(j.antecedents@) == str_list(jd, "antecedents"@)
    &&& views(j.outlist@) == str_list(jd, "outlist"@)
    &&& j.label@ == str_or(jd, "label"@, Seq::empty())
}

/// `n` is the node `id` that `nd` describes: every text field from the
/// document (empty when absent; truth value IN when absent), the metadata
/// as given (an empty object when absent).
pub open spec fn node_from(n: Node, id: Seq<char>, nd: JsonValue) -> bool {
    &&& n.id@ == id
    &&& n.text@ == str_or(nd, "text"@, Seq::empty())
    &&& n.truth_value@ == str_or(nd, "truth_value"@, "IN"@)
    &&& n.source@ == str_or(nd, "source"@, Seq::empty())
    &&& n.source_url@ == str_or(nd, "source_url"@, Seq::empty())
    &&& n.source_hash@ == str_or(nd, "source_hash"@, Seq::empty())
    &&& n.date@ == str_or(nd, "date"@, Seq::empty())
    &&& n.metadata.jv() == match nd.spec_get("metadata"@) {
        Some(m) => m.jv(),
        None => JsonView::Object(Seq::empty()),
    }
    &&& n.created_at@ == str_or(nd, "created_at"@, Seq::empty())
    &&& n.updated_at@ == str_or(nd, "updated_at"@, Seq::empty())
    &&& n.reviewed_at@ == str_or(nd, "reviewed_at"@, Seq::empty())
    &&& n.verified_at@ == str_or(nd, "verified_at"@, Seq::empty())
    &&& n.retracted_at@ == str_or(nd, "retracted_at"@, Seq::empty())
}

/// `g` is the contradiction that `gd` describes.
pub open spec fn nogood_from(g: Nogood, gd: JsonValue) -> bool {
    &&& g.id@ == str_or(gd, "id"@, Seq::empty())
    &&& views(g.nodes@) == str_list(gd, "nodes"@)
    &&& g.discovered@ == str_or(gd, "discovered"@, Seq::empty())
    &&& g.resolution@ == str_or(gd, "resolution"@, Seq::empty())
}

/// The repository entries whose path is a string, in order.
pub open spec fn repo_pairs(es: Seq<(String, JsonValue)>) -> Seq<(Seq<char>, Seq<char>)>
    decreases es.len(),
{
    if es.len() == 0 {
        Seq::empty()
    } else {
        let r = repo_pairs(es.drop_last());
        match es.last().1 {
            JsonValue::Str(p) => r.push((es.last().0@, p@)),
            _ => r,
        }
    }
}

/// What a JSON document gives to import: each node with its
/// justifications, the contradictions, and the repositories.
pub struct ImportDoc {
    pub nodes: Vec<(Node, Vec<Justification>)>,
    pub nogoods: Vec<Nogood>,
    pub repos: Vec<(String, String)>,
}

fn str_field(v: &JsonValue, key: &str, default: &str) -> (r: String)
    ensures
        r@ == str_or(*v, key@, default@),
{
    match v.get_str(key) {
        Some(s) => s.clone(),
        None => owned(default),
    }
}

fn str_or_empty(v: &JsonValue, key: &str) -> (r: String)
    ensures
        r@ == str_or(*v, key@, Seq::empty()),
{
    match v.get_str(key) {
        Some(s) => s.clone(),
        None => String::new(),
    }
}

fn str_list_of(v: &JsonValue, key: &str) -> (r: Vec<String>)
    ensures
        views(r@) == str_list(*v, key@),
{
    let mut out: Vec<String> = Vec::new();
    match v.get(key) {
        Some(JsonValue::Array(items)) => {
            let mut k: usize = 0;
            while k < items.len()
                invariant
                    k <= items@.len(),
                    views(out@) == strings_in(items@.take(k as int)),
                decreases items@.len() - k,
            {
                assert(items@.take(k + 1).drop_last() =~= items@.take(k as int));
                assert(items@.take(k + 1).last() == items@[k as int]);
                match &items[k] {
                    JsonValue::Str(s) => {
                        let ghost before = views(out@);
                        out.push(s.clone());
                        assert(views(out@) =~= before.push(s@));
                    },
                    _ => {},
                }
                k = k + 1;
            }
            assert(items@.take(items@.len() as int) =~= items@);
        },
        _ => {
            assert(views(out@) =~= Seq::<Seq<char>>::empty());
        },
    }
    out
}

fn just_of(id: &String, jd: &JsonValue) -> (j: Justification)
    ensures
        just_from(j, id@, *jd),
{
    Justification {
        rowid: 0,
        node_id: id.clone(),
        jtype: str_field(jd, "type", "SL"),
        antecedents: str_list_of(jd, "antecedents"),
        outlist: str_list_of(jd, "outlist"),
        label: str_or_empty(jd, "label"),
    }
}

fn node_of(id: &String, nd: &JsonValue) -> (r: (Node, Vec<Justification>))
    ensures
        node_from(r.0, id@, *nd),
        r.1@.len() == items_at(*nd, "justifications"@).len(),
        forall|i: int| 0 <= i < r.1@.len() ==> just_from(#[trigger] r.1@[i], id@, items_at(*nd, "justifications"@)[i]),
{
    let metadata = match nd.get("metadata") {
        Some(m) => m.clone_value(),
        None => {
            let es: Vec<(String, JsonValue)> = Vec::new();
            proof {
                crate::json::lemma_object_jv(es, Seq::empty());
            }
            JsonValue::Object(es)
        },
    };
    let node = Node {
        id: id.clone(),
        text: str_or_empty(nd, "text"),
        truth_value: str_field(nd, "truth_value", "IN"),
        source: str_or_empty(nd, "source"),
        source_url: str_or_empty(nd, "source_url"),
        source_hash: str_or_empty(nd, "source_hash"),
        date: str_or_empty(nd, "date"),
        metadata,
        created_at: str_or_empty(nd, "created_at"),
        updated_at: str_or_empty(nd, "updated_at"),
        reviewed_at: str_or_empty(nd, "reviewed_at"),
        verified_at: str_or_empty(nd, "verified_at"),
        retracted_at: str_or_empty(nd, "retracted_at"),
    };
    let mut js: Vec<Justification> = Vec::new();
    match nd.get("justifications") {
        Some(JsonValue::Array(items)) => {
            let mut k: usize = 0;
            while k < items.len()
                invariant
                    k <= items@.len(),
                    items_at(*nd, "justifications"@) == items@,
                    js@.len() == k,
                    forall|i: int| 0 <= i < k ==> just_from(#[trigger] js@[i], id@, items@[i]),
                decreases items@.len() - k,
            {
                js.push(just_of(id, &items[k]));
                k = k + 1;
            }
        },
        _ => {},
    }
    (node, js)
}

/// `doc` is what import reads from the document `data` (see
/// `import_document`).
pub open spec fn imported(data: JsonValue, doc: ImportDoc) -> bool {
    &&& doc.nodes@.len() == entries_at(data, "nodes"@).len()
    &&& forall|i: int|
        0 <= i < doc.nodes@.len() ==> {
            let (id, nd) = entries_at(data, "nodes"@)[i];
            let (n, js) = #[trigger] doc.nodes@[i];
            &&& node_from(n, id@, nd)
            &&& js@.len() == items_at(nd, "justifications"@).len()
            &&& forall|m: int| 0 <= m < js@.len() ==> just_from(#[trigger] js@[m], id@, items_at(nd, "justifications"@)[m])
        }
    &&& doc.nogoods@.len() == items_at(data, "nogoods"@).len()
    &&& forall|i: int| 0 <= i < doc.nogoods@.len() ==> nogood_from(#[trigger] doc.nogoods@[i], items_at(data, "nogoods"@)[i])
    &&& doc.repos@.map_values(|p: (String, String)| (p.0@, p.1@)) == repo_pairs(entries_at(data, "repos"@))
}

/// The nodes (in the document's order), justifications, contradictions
/// and repositories that a JSON document describes; absent or ill-typed
/// parts give nothing.
pub fn import_document(data: &JsonValue) -> (doc: ImportDoc)
    ensures
        imported(*data, doc),
{
    let mut nodes: Vec<(Node, Vec<Justification>)> = Vec::new();
    match data.get("nodes") {
        Some(JsonValue::Object(es)) => {
            let mut k: usize = 0;
            while k < es.len()
                invariant
                    k <= es@.len(),
                    entries_at(*data, "nodes"@) == es@,
                    nodes@.len() == k,
                    forall|i: int|
                        0 <= i < k ==> {
                            let (id, nd) = es@[i];
                            let (n, js) = #[trigger] nodes@[i];
                            &&& node_from(n, id@, nd)
                            &&& js@.len() == items_at(nd, "justifications"@).len()
                            &&& forall|m: int|
                                0 <= m < js@.len() ==> just_from(#[trigger] js@[m], id@, items_at(nd, "justifications"@)[m])
                        },
                decreases es@.len() - k,
            {
                let r = node_of(&es[k].0, &es[k].1);
                nodes.push(r);
                k = k + 1;
            }
        },
        _ => {},
    }
    let mut nogoods: Vec<Nogood> = Vec::new();
    match data.get("nogoods") {
        Some(JsonValue::Array(items)) => {
            let mut k: usize = 0;
            while k < items.len()
                invariant
                    k <= items@.len(),
                    items_at(*data, "nogoods"@) == items@,
                    nogoods@.len() == k,
                    forall|i: int| 0 <= i < k ==> nogood_from(#[trigger] nogoods@[i], items@[i]),
                decreases items@.len() - k,
            {
                let gd = &items[k];
                nogoods.push(
                    Nogood {
                        id: str_or_empty(gd, "id"),
                        nodes: str_list_of(gd, "nodes"),
                        discovered: str_or_empty(gd, "discovered"),
                        resolution: str_or_empty(gd, "resolution"),
                    },
                );
                k = k + 1;
            }
        },
        _ => {},
    }
    let mut repos: Vec<(String, String)> = Vec::new();
    match data.get("repos") {
        Some(JsonValue::Object(es)) => {
            let mut k: usize = 0;
            while k < es.len()
                invariant
                    k <= es@.len(),
                    entries_at(*data, "repos"@) == es@,
                    repos@.map_values(|p: (String, String)| (p.0@, p.1@)) == repo_pairs(es@.take(k as int)),
                decreases es@.len() - k,
            {
                assert(es@.take(k + 1).drop_last() =~= es@.take(k as int));
                assert(es@.take(k + 1).last() == es@[k as int]);
                match &es[k].1 {
                    JsonValue::Str(p) => {
                        let ghost before = repos@.map_values(|p: (String, String)| (p.0@, p.1@));
                        repos.push((es[k].0.clone(), p.clone()));
                        assert(repos@.map_values(|p: (String, String)| (p.0@, p.1@)) =~= before.push(
                            (es@[k as int].0@, p@),
                        ));
                    },
                    _ => {},
                }
                k = k + 1;
            }
            assert(es@.take(es@.len() as int) =~= es@);
        },
        _ => {
            assert(repos@.map_values(|p: (String, String)| (p.0@, p.1@)) =~= Seq::<(Seq<char>, Seq<char>)>::empty());
        },
    }
    ImportDoc { nodes, nogoods, repos }
}

/// `doc` is what import reads from the JSON value that `text` reads as.
pub open spec fn read_from(text: Seq<char>, doc: ImportDoc) -> bool {
    exists|v: JsonValue| #[trigger] imported(v, doc) && json_parse(text) == Some(v.jv())
}

/// The network a JSON document's text describes (see `import_document`);
/// `None` when the text is not a JSON value.
pub fn import_json_text(text: &str) -> (r: Option<ImportDoc>)
    ensures
        (r is None) == (json_parse(text@) is None),
        r matches Some(doc) ==> read_from(text@, doc),
{
    match parse_json(text) {
        Some(v) => {
            let doc = import_document(&v);
            assert(read_from(text@, doc));
            Some(doc)
        },
        None => None,
    }
}

} // verus!
