//! What import reads back of what export writes.
use vstd::prelude::*;
use crate::export::{export_json, jstrs, just_json, node_json, nogood_json, public_meta, ExportMeta};
use crate::import::{entries_at, imported, items_at, just_from, node_from, nogood_from, repo_pairs, str_list, str_or, strings_in, ImportDoc};
use crate::json::{entry_keys, JsonValue, JsonView};
use crate::model::{first_index, lemma_first_index_at};
use crate::network::justs_for;
use crate::types::{views, Justification, Nogood, Node};

verus! {

/// A value viewed as an object is an object with those entries.
pub proof fn lemma_jv_object(v: JsonValue, t: Seq<(Seq<char>, JsonView)>)
    requires
        v.jv() == JsonView::Object(t),
    ensures
        v is Object,
        v->Object_0@.len() == t.len(),
        forall|i: int| 0 <= i < t.len() ==> (#[trigger] v->Object_0@[i]).0@ == t[i].0 && v->Object_0@[i].1.jv() == t[i].1,
{
    match v {
        JsonValue::Object(es) => {
            assert forall|i: int| 0 <= i < t.len() implies (#[trigger] es@[i]).0@ == t[i].0 && es@[i].1.jv() == t[i].1 by {
                if let JsonView::Object(got) = v.jv() {
                    assert(got[i] == t[i]);
                }
            }
        },
        _ => {},
    }
}

/// A value viewed as an array is an array with those items.
pub proof fn lemma_jv_array(v: JsonValue, t: Seq<JsonView>)
    requires
        v.jv() == JsonView::Array(t),
    ensures
        v is Array,
        v->Array_0@.len() == t.len(),
        forall|i: int| 0 <= i < t.len() ==> (#[trigger] v->Array_0@[i]).jv() == t[i],
{
    match v {
        JsonValue::Array(items) => {
            assert forall|i: int| 0 <= i < t.len() implies (#[trigger] items@[i]).jv() == t[i] by {
                if let JsonView::Array(got) = v.jv() {
                    assert(got[i] == t[i]);
                }
            }
        },
        _ => {},
    }
}

/// The value under the key of entry `i`, where no earlier entry has that
/// key, is the value of entry `i`.
pub proof fn lemma_get_entry(v: JsonValue, t: Seq<(Seq<char>, JsonView)>, i: int)
    requires
        v.jv() == JsonView::Object(t),
        0 <= i < t.len(),
        forall|j: int| 0 <= j < i ==> t[j].0 != t[i].0,
    ensures
        v.spec_get(t[i].0) matches Some(x) && x.jv() == t[i].1,
{
    lemma_jv_object(v, t);
    let es = v->Object_0@;
    let ks = entry_keys(es);
    assert forall|j: int| 0 <= j < i implies ks[j] != t[i].0 by {
        assert(ks[j] == es[j].0@);
    }
    assert(ks[i] == t[i].0);
    lemma_first_index_at(ks, t[i].0, i);
}

/// A string viewed as a string.
pub proof fn lemma_jv_str(v: JsonValue, s: Seq<char>)
    requires
        v.jv() == JsonView::Str(s),
    ensures
        v matches JsonValue::Str(x) && x@ == s,
{
}

/// The string under the key of entry `i` (see `lemma_get_entry`).
pub proof fn lemma_str_entry(v: JsonValue, t: Seq<(Seq<char>, JsonView)>, i: int, s: Seq<char>, d: Seq<char>)
    requires
        v.jv() == JsonView::Object(t),
        0 <= i < t.len(),
        forall|j: int| 0 <= j < i ==> t[j].0 != t[i].0,
        t[i].1 == JsonView::Str(s),
    ensures
        str_or(v, t[i].0, d) == s,
{
    lemma_get_entry(v, t, i);
    let x = v.spec_get(t[i].0)->0;
    lemma_jv_str(x, s);
}

/// The strings of items that are all strings.
pub proof fn lemma_strings_in(items: Seq<JsonValue>, s: Seq<String>)
    requires
        items.len() == s.len(),
        forall|i: int| 0 <= i < s.len() ==> (#[trigger] items[i]).jv() == JsonView::Str(s[i]@),
    ensures
        strings_in(items) == views(s),
    decreases s.len(),
{
    if s.len() > 0 {
        lemma_strings_in(items.drop_last(), s.drop_last());
        lemma_jv_str(items.last(), s.last()@);
        assert(views(s) =~= views(s.drop_last()).push(s.last()@));
    } else {
        assert(views(s) =~= Seq::<Seq<char>>::empty());
    }
}

/// The string list under the key of entry `i`.
pub proof fn lemma_list_entry(v: JsonValue, t: Seq<(Seq<char>, JsonView)>, i: int, s: Seq<String>)
    requires
        v.jv() == JsonView::Object(t),
        0 <= i < t.len(),
        forall|j: int| 0 <= j < i ==> t[j].0 != t[i].0,
        t[i].1 == jstrs(s),
    ensures
        str_list(v, t[i].0) == views(s),
{
    lemma_get_entry(v, t, i);
    let x = v.spec_get(t[i].0)->0;
    let ts = s.map_values(|e: String| JsonView::Str(e@));
    lemma_jv_array(x, ts);
    let items = x->Array_0@;
    assert forall|k: int| 0 <= k < s.len() implies (#[trigger] items[k]).jv() == JsonView::Str(s[k]@) by {
        assert(ts[k] == JsonView::Str(s[k]@));
    }
    lemma_strings_in(items, s);
}

/// Repository entries whose values are all strings.
pub proof fn lemma_repo_pairs(es: Seq<(String, JsonValue)>, rs: Seq<(String, String)>)
    requires
        es.len() == rs.len(),
        forall|i: int| 0 <= i < rs.len() ==> (#[trigger] es[i]).0@ == rs[i].0@ && es[i].1.jv() == JsonView::Str(rs[i].1@),
    ensures
        repo_pairs(es) == rs.map_values(|p: (String, String)| (p.0@, p.1@)),
    decreases rs.len(),
{
    if rs.len() > 0 {
        lemma_repo_pairs(es.drop_last(), rs.drop_last());
        lemma_jv_str(es.last().1, rs.last().1@);
        assert(rs.map_values(|p: (String, String)| (p.0@, p.1@)) =~= rs.drop_last().map_values(
            |p: (String, String)| (p.0@, p.1@),
        ).push((rs.last().0@, rs.last().1@)));
    } else {
        assert(rs.map_values(|p: (String, String)| (p.0@, p.1@)) =~= Seq::<(Seq<char>, Seq<char>)>::empty());
    }
}

/// The keys of an exported node, all different.
pub proof fn lemma_node_keys_differ(n0: Node, js0: Seq<Justification>)
    ensures
        node_json(n0, js0) matches JsonView::Object(t) && t.len() == 13 && forall|a: int, b: int|
            0 <= a < b < 13 ==> #[trigger] t[a].0 != #[trigger] t[b].0,
{
    reveal_strlit("text");
    reveal_strlit("truth_value");
    reveal_strlit("justifications");
    reveal_strlit("source");
    reveal_strlit("source_url");
    reveal_strlit("source_hash");
    reveal_strlit("date");
    reveal_strlit("metadata");
    reveal_strlit("created_at");
    reveal_strlit("updated_at");
    reveal_strlit("reviewed_at");
    reveal_strlit("verified_at");
    reveal_strlit("retracted_at");
    if let JsonView::Object(t) = node_json(n0, js0) {
        assert forall|a: int, b: int| 0 <= a < b < 13 implies #[trigger] t[a].0 != #[trigger] t[b].0 by {
            if t[a].0.len() == t[b].0.len() {
                assert(t[a].0[0] != t[b].0[0]);
            }
        }
    }
}

/// A justification read back from what export wrote of `j0`.
pub open spec fn restored_just(j: Justification, j0: Justification) -> bool {
    &&& j.rowid == 0
    &&& j.node_id@ == j0.node_id@
    &&& j.jtype@ == j0.jtype@
    &&& views(j.antecedents@) == views(j0.antecedents@)
    &&& views(j.outlist@) == views(j0.outlist@)
    &&& j.label@ == j0.label@
}

/// Every justification recorded for `id` names `id`.
pub proof fn lemma_justs_for_owner(s: Seq<Justification>, id: Seq<char>)
    ensures
        forall|k: int| 0 <= k < justs_for(s, id).len() ==> (#[trigger] justs_for(s, id)[k]).node_id@ == id,
    decreases s.len(),
{
    if s.len() > 0 {
        lemma_justs_for_owner(s.drop_last(), id);
        let r = justs_for(s.drop_last(), id);
        if s.last().node_id@ == id {
            assert forall|k: int| 0 <= k < justs_for(s, id).len() implies (#[trigger] justs_for(s, id)[k]).node_id@ == id by {
                if k < r.len() {
                    assert(justs_for(s, id)[k] == r[k]);
                }
            }
        }
    }
}

pub proof fn lemma_just_back(jd: JsonValue, j0: Justification, j: Justification, id: Seq<char>)
    requires
        jd.jv() == just_json(j0),
        just_from(j, id, jd),
        j0.node_id@ == id,
    ensures
        restored_just(j, j0),
{
    reveal_strlit("type");
    reveal_strlit("antecedents");
    reveal_strlit("outlist");
    reveal_strlit("label");
    if let JsonView::Object(t) = just_json(j0) {
        assert forall|a: int, b: int| 0 <= a < b < 4 implies #[trigger] t[a].0 != #[trigger] t[b].0 by {
            assert(t[a].0.len() != t[b].0.len());
        }
        lemma_str_entry(jd, t, 0, j0.jtype@, "SL"@);
        lemma_list_entry(jd, t, 1, j0.antecedents@);
        lemma_list_entry(jd, t, 2, j0.outlist@);
        lemma_str_entry(jd, t, 3, j0.label@, Seq::empty());
    }
}

/// A node read back from what export wrote of `n0`: every text field, and
/// the public part of its metadata.
pub open spec fn restored_node(n: Node, n0: Node) -> bool {
    &&& n.id@ == n0.id@
    &&& n.text@ == n0.text@
    &&& n.truth_value@ == n0.truth_value@
    &&& n.source@ == n0.source@
    &&& n.source_url@ == n0.source_url@
    &&& n.source_hash@ == n0.source_hash@
    &&& n.date@ == n0.date@
    &&& n.metadata.jv() == public_meta(n0.metadata)
    &&& n.created_at@ == n0.created_at@
    &&& n.updated_at@ == n0.updated_at@
    &&& n.reviewed_at@ == n0.reviewed_at@
    &&& n.verified_at@ == n0.verified_at@
    &&& n.retracted_at@ == n0.retracted_at@
}

pub proof fn lemma_node_back(nd: JsonValue, n0: Node, js0: Seq<Justification>, n: Node, id: Seq<char>)
    requires
        nd.jv() == node_json(n0, js0),
        node_from(n, id, nd),
        id == n0.id@,
    ensures
        restored_node(n, n0),
        items_at(nd, "justifications"@).len() == js0.len(),
        forall|m: int| 0 <= m < js0.len() ==> (#[trigger] items_at(nd, "justifications"@)[m]).jv() == just_json(js0[m]),
{
    lemma_node_keys_differ(n0, js0);
    if let JsonView::Object(t) = node_json(n0, js0) {
        lemma_str_entry(nd, t, 0, n0.text@, Seq::empty());
        lemma_str_entry(nd, t, 1, n0.truth_value@, "IN"@);
        lemma_str_entry(nd, t, 3, n0.source@, Seq::empty());
        lemma_str_entry(nd, t, 4, n0.source_url@, Seq::empty());
        lemma_str_entry(nd, t, 5, n0.source_hash@, Seq::empty());
        lemma_str_entry(nd, t, 6, n0.date@, Seq::empty());
        lemma_str_entry(nd, t, 8, n0.created_at@, Seq::empty());
        lemma_str_entry(nd, t, 9, n0.updated_at@, Seq::empty());
        lemma_str_entry(nd, t, 10, n0.reviewed_at@, Seq::empty());
        lemma_str_entry(nd, t, 11, n0.verified_at@, Seq::empty());
        lemma_str_entry(nd, t, 12, n0.retracted_at@, Seq::empty());
        lemma_get_entry(nd, t, 7);
        lemma_get_entry(nd, t, 2);
        let x = nd.spec_get("justifications"@)->0;
        let ts = js0.map_values(|j: Justification| just_json(j));
        lemma_jv_array(x, ts);
        assert forall|m: int| 0 <= m < js0.len() implies (#[trigger] items_at(nd, "justifications"@)[m]).jv() == just_json(
            js0[m],
        ) by {
            assert(ts[m] == just_json(js0[m]));
        }
    }
}

/// A contradiction read back from what export wrote of `g0`.
pub open spec fn restored_nogood(g: Nogood, g0: Nogood) -> bool {
    &&& g.id@ == g0.id@
    &&& views(g.nodes@) == views(g0.nodes@)
    &&& g.discovered@ == g0.discovered@
    &&& g.resolution@ == g0.resolution@
}

pub proof fn lemma_nogood_back(gd: JsonValue, g0: Nogood, g: Nogood)
    requires
        gd.jv() == nogood_json(g0),
        nogood_from(g, gd),
    ensures
        restored_nogood(g, g0),
{
    reveal_strlit("id");
    reveal_strlit("nodes");
    reveal_strlit("discovered");
    reveal_strlit("resolution");
    if let JsonView::Object(t) = nogood_json(g0) {
        assert forall|a: int, b: int| 0 <= a < b < 4 implies #[trigger] t[a].0 != #[trigger] t[b].0 by {
            if t[a].0.len() == t[b].0.len() {
                assert(t[a].0[0] != t[b].0[0]);
            }
        }
        lemma_str_entry(gd, t, 0, g0.id@, Seq::empty());
        lemma_list_entry(gd, t, 1, g0.nodes@);
        lemma_str_entry(gd, t, 2, g0.discovered@, Seq::empty());
        lemma_str_entry(gd, t, 3, g0.resolution@, Seq::empty());
    }
}

/// Importing what export wrote gives back every node in order, with the
/// text fields it had and the public part (keys not starting with `_`) of
/// its metadata; each node's justifications in order, with their type,
/// in-list, out-list and label; every contradiction; and every
/// repository.
pub proof fn law_json_round_trip(
    meta: ExportMeta,
    nodes: Seq<Node>,
    justs: Seq<Justification>,
    nogoods: Seq<Nogood>,
    repos: Seq<(String, String)>,
    data: JsonValue,
    doc: ImportDoc,
)
    requires
        data.jv() == export_json(meta, nodes, justs, nogoods, repos),
        imported(data, doc),
    ensures
        doc.nodes@.len() == nodes.len(),
        forall|i: int|
            0 <= i < nodes.len() ==> {
                let (n, js) = #[trigger] doc.nodes@[i];
                let js0 = justs_for(justs, nodes[i].id@);
                &&& restored_node(n, nodes[i])
                &&& js@.len() == js0.len()
                &&& forall|m: int| 0 <= m < js0.len() ==> restored_just(#[trigger] js@[m], js0[m])
            },
        doc.nogoods@.len() == nogoods.len(),
        forall|i: int| 0 <= i < nogoods.len() ==> restored_nogood(#[trigger] doc.nogoods@[i], nogoods[i]),
        doc.repos@.map_values(|p: (String, String)| (p.0@, p.1@)) == repos.map_values(|p: (String, String)| (p.0@, p.1@)),
{
    reveal_strlit("meta");
    reveal_strlit("nodes");
    reveal_strlit("nogoods");
    reveal_strlit("repos");
    if let JsonView::Object(t) = export_json(meta, nodes, justs, nogoods, repos) {
        assert forall|a: int, b: int| 0 <= a < b < 4 implies #[trigger] t[a].0 != #[trigger] t[b].0 by {
            if t[a].0.len() == t[b].0.len() {
                assert(t[a].0[0] != t[b].0[0]);
            }
        }
        // nodes
        lemma_get_entry(data, t, 1);
        let nv = data.spec_get("nodes"@)->0;
        let nt = nodes.map_values(|n: Node| (n.id@, node_json(n, justs_for(justs, n.id@))));
        lemma_jv_object(nv, nt);
        let es = entries_at(data, "nodes"@);
        assert(es == nv->Object_0@);
        assert forall|i: int| 0 <= i < nodes.len() implies {
            let (n, js) = #[trigger] doc.nodes@[i];
            let js0 = justs_for(justs, nodes[i].id@);
            &&& restored_node(n, nodes[i])
            &&& js@.len() == js0.len()
            &&& forall|m: int| 0 <= m < js0.len() ==> restored_just(#[trigger] js@[m], js0[m])
        } by {
            let (id, nd) = es[i];
            let (n, js) = doc.nodes@[i];
            let js0 = justs_for(justs, nodes[i].id@);
            assert(nt[i] == (nodes[i].id@, node_json(nodes[i], js0)));
            lemma_node_back(nd, nodes[i], js0, n, id@);
            lemma_justs_for_owner(justs, nodes[i].id@);
            assert forall|m: int| 0 <= m < js0.len() implies restored_just(#[trigger] js@[m], js0[m]) by {
                lemma_just_back(items_at(nd, "justifications"@)[m], js0[m], js@[m], id@);
            }
        }
        // nogoods
        lemma_get_entry(data, t, 2);
        let gv = data.spec_get("nogoods"@)->0;
        let gt = nogoods.map_values(|g: Nogood| nogood_json(g));
        lemma_jv_array(gv, gt);
        assert forall|i: int| 0 <= i < nogoods.len() implies restored_nogood(#[trigger] doc.nogoods@[i], nogoods[i]) by {
            assert(gt[i] == nogood_json(nogoods[i]));
            lemma_nogood_back(items_at(data, "nogoods"@)[i], nogoods[i], doc.nogoods@[i]);
        }
        // repos
        lemma_get_entry(data, t, 3);
        let rv = data.spec_get("repos"@)->0;
        let rt = repos.map_values(|r: (String, String)| (r.0@, JsonView::Str(r.1@)));
        lemma_jv_object(rv, rt);
        let res = entries_at(data, "repos"@);
        assert forall|i: int| 0 <= i < repos.len() implies (#[trigger] res[i]).0@ == repos[i].0@ && res[i].1.jv()
            == JsonView::Str(repos[i].1@) by {
            assert(rt[i] == (repos[i].0@, JsonView::Str(repos[i].1@)));
        }
        lemma_repo_pairs(res, repos);
    }
}

} // verus!
