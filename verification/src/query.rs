//! What the query commands show: a node with its justifications and
//! dependents, lookups, traces, culprits and summaries.
use vstd::prelude::*;
use crate::format::{can_truncate, format_node_detail, format_node_line, node_detail, node_line, truncate, truncatable, truncated};
use crate::network::Network;
use crate::text::{decimal, decimal_seq, int_string, int_text, join, join_seq, owned, str_eq};
use crate::types::{views, Justification, Node, TmsError};

verus! {

/// The nodes whose justifications name `id` in their in-list or out-list,
/// each once, in the order of the justifications `all`.
pub open spec fn shown_dependents(all: Seq<Justification>, id: Seq<char>) -> Seq<Seq<char>>
    decreases all.len(),
{
    if all.len() == 0 {
        Seq::empty()
    } else {
        let r = shown_dependents(all.drop_last(), id);
        let j = all.last();
        if (views(j.antecedents@).contains(id) || views(j.outlist@).contains(id)) && !r.contains(j.node_id@) {
            r.push(j.node_id@)
        } else {
            r
        }
    }
}

/// The row of justification `k` of a node.
pub open spec fn just_row(k: nat, j: Justification) -> Seq<char> {
    "    ["@ + decimal_seq(k) + "] "@ + j.jtype@ + ": "@ + join_seq(views(j.antecedents@), ", "@) + (if j.outlist@.len()
        > 0 {
        " (unless: "@ + join_seq(views(j.outlist@), ", "@) + ")"@
    } else {
        Seq::empty()
    }) + (if j.label@.len() > 0 {
        " ["@ + j.label@ + "]"@
    } else {
        Seq::empty()
    })
}

/// The rows of the justifications, from position `k` on, each ending a line.
pub open spec fn just_rows(js: Seq<Justification>) -> Seq<char>
    decreases js.len(),
{
    if js.len() == 0 {
        Seq::empty()
    } else {
        just_rows(js.drop_last()) + just_row((js.len() - 1) as nat, js.last()) + "\n"@
    }
}

/// The rows of the dependents that exist, each ending a line; nothing
/// when a text would be cut inside a character.
pub open spec fn dep_rows(net: Network, ds: Seq<Seq<char>>) -> Option<Seq<char>>
    decreases ds.len(),
{
    if ds.len() == 0 {
        Some(Seq::empty())
    } else {
        match dep_rows(net, ds.drop_last()) {
            None => None,
            Some(r) => match net.node(ds.last()) {
                None => Some(r),
                Some(n) => if truncatable(n.text@, 60) {
                    Some(r + "    "@ + ds.last() + " ["@ + n.truth_value@ + "]: "@ + truncated(n.text@, 60) + "\n"@)
                } else {
                    None
                },
            },
        }
    }
}

/// What `show` prints for node `n`: its details, its justifications and
/// its dependents; nothing when a text would be cut inside a character.
pub open spec fn show_spec(net: Network, n: Node, all: Seq<Justification>) -> Option<Seq<char>> {
    let js = net.justs_named(n.id@);
    let ds = shown_dependents(all, n.id@);
    let justs_part = if js.len() > 0 {
        "  Justifications:\n"@ + just_rows(js)
    } else {
        Seq::empty()
    };
    if ds.len() > 0 {
        match dep_rows(net, ds) {
            Some(rows) => Some(node_detail(n) + justs_part + "\n  Dependents:\n"@ + rows),
            None => None,
        }
    } else {
        Some(node_detail(n) + justs_part)
    }
}

fn just_row_text(k: usize, j: &Justification) -> (r: String)
    ensures
        r@ == just_row(k as nat, *j),
{
    let mut r = owned("    [");
    let d = decimal(k as u64);
    r.append(d.as_str());
    r.append("] ");
    r.append(j.jtype.as_str());
    r.append(": ");
    let a = join(&j.antecedents, ", ");
    r.append(a.as_str());
    let ghost r1 = r@;
    if j.outlist.len() > 0 {
        r.append(" (unless: ");
        let o = join(&j.outlist, ", ");
        r.append(o.as_str());
        r.append(")");
    } else {
        assert(r@ =~= r1 + Seq::<char>::empty());
    }
    let ghost r2 = r@;
    if !j.label.as_str().is_empty() {
        r.append(" [");
        r.append(j.label.as_str());
        r.append("]");
    } else {
        assert(r@ =~= r2 + Seq::<char>::empty());
    }
    r
}

/// The dependents shown for `id` (see `shown_dependents`).
pub fn shown_dependents_of(all: &Vec<Justification>, id: &str) -> (ds: Vec<String>)
    ensures
        views(ds@) == shown_dependents(all@, id@),
{
    let mut ds: Vec<String> = Vec::new();
    let mut k: usize = 0;
    assert(views(ds@) =~= shown_dependents(all@.take(0), id@));
    while k < all.len()
        invariant
            k <= all@.len(),
            views(ds@) == shown_dependents(all@.take(k as int), id@),
        decreases all@.len() - k,
    {
        let j = &all[k];
        assert(all@.take(k + 1).drop_last() =~= all@.take(k as int));
        assert(all@.take(k + 1).last() == *j);
        let mentioned = crate::text::contains_str(&j.antecedents, id) || crate::text::contains_str(&j.outlist, id);
        if mentioned && !crate::text::contains_str(&ds, j.node_id.as_str()) {
            let ghost before = views(ds@);
            ds.push(j.node_id.clone());
            assert(views(ds@) =~= before.push(j.node_id@));
        }
        k = k + 1;
    }
    assert(all@.take(all@.len() as int) =~= all@);
    ds
}

impl Network {
    /// The justification rows of `node_id` under their heading, or nothing
    /// when it has none.
    pub fn justs_text(&self, node_id: &str) -> (r: String)
        ensures
            r@ == (if self.justs_named(node_id@).len() > 0 {
                "  Justifications:\n"@ + just_rows(self.justs_named(node_id@))
            } else {
                Seq::empty()
            }),
    {
        proof {
            self.lemma_tms_keys();
        }
        match self.group_index(node_id) {
            Some(g) => {
                let ghost js = self.justifications@[g as int].justs@;
                if self.justifications[g].justs.len() > 0 {
                    let mut out = owned("  Justifications:\n");
                    let ghost head = out@;
                    let mut k: usize = 0;
                    assert(head + just_rows(js.take(0)) =~= head);
                    while k < self.justifications[g].justs.len()
                        invariant
                            g < self.justifications@.len(),
                            js == self.justifications@[g as int].justs@,
                            k <= js.len(),
                            out@ == head + just_rows(js.take(k as int)),
                        decreases js.len() - k,
                    {
                        let row = just_row_text(k, &self.justifications[g].justs[k]);
                        out.append(row.as_str());
                        out.append("\n");
                        assert(js.take(k + 1).drop_last() =~= js.take(k as int));
                        assert(js.take(k + 1).last() == js[k as int]);
                        assert(out@ =~= head + just_rows(js.take(k + 1)));
                        k = k + 1;
                    }
                    assert(js.take(js.len() as int) =~= js);
                    out
                } else {
                    String::new()
                }
            },
            None => String::new(),
        }
    }

    /// The rows of the dependents `ds` that exist (see `dep_rows`).
    pub fn dep_rows_text(&self, ds: &Vec<String>) -> (r: Option<String>)
        ensures
            match dep_rows(*self, views(ds@)) {
                Some(t) => r matches Some(x) && x@ == t,
                None => r is None,
            },
    {
        let mut out = String::new();
        let mut m: usize = 0;
        assert(dep_rows(*self, views(ds@).take(0)) == Some(out@)) by {
            assert(views(ds@).take(0) =~= Seq::<Seq<char>>::empty());
        }
        while m < ds.len()
            invariant
                m <= ds@.len(),
                dep_rows(*self, views(ds@).take(m as int)) == Some(out@),
            decreases ds@.len() - m,
        {
            let d = &ds[m];
            assert(views(ds@).take(m + 1).drop_last() =~= views(ds@).take(m as int));
            assert(views(ds@).take(m + 1).last() == d@);
            match self.node_index(d.as_str()) {
                Some(di) => {
                    proof {
                        self.lemma_tms_keys();
                        assert(self.node(d@) == Some(self.nodes@[di as int]));
                    }
                    let dn = &self.nodes[di];
                    if !can_truncate(dn.text.as_str(), 60) {
                        proof {
                            lemma_dep_rows_none(*self, views(ds@), m + 1);
                        }
                        return None;
                    }
                    out.append("    ");
                    out.append(d.as_str());
                    out.append(" [");
                    out.append(dn.truth_value.as_str());
                    out.append("]: ");
                    let t = truncate(dn.text.as_str(), 60);
                    out.append(t.as_str());
                    out.append("\n");
                },
                None => {},
            }
            m = m + 1;
        }
        assert(views(ds@).take(ds@.len() as int) =~= views(ds@));
        Some(out)
    }

    /// What `show` prints for `node_id` (see `show_spec`), given all
    /// justifications in their stored order; refused when the node does
    /// not exist or a text would be cut inside a character.
    pub fn show_text(&self, node_id: &str, all: &Vec<Justification>) -> (r: Result<String, TmsError>)
        ensures
            self.node(node_id@) is None ==> (r matches Err(TmsError::NodeNotFound(s)) && s@ == node_id@),
            self.node(node_id@) matches Some(n) ==> match show_spec(*self, n, all@) {
                Some(t) => r matches Ok(x) && x@ == t,
                None => r matches Err(TmsError::CutInsideChar),
            },
    {
        let i = match self.node_index(node_id) {
            Some(i) => i,
            None => {
                return Err(TmsError::NodeNotFound(owned(node_id)));
            },
        };
        proof {
            self.lemma_tms_keys();
            crate::model::lemma_first_index(crate::model::node_keys(self.tms()), node_id@);
        }
        let n = &self.nodes[i];
        let mut out = format_node_detail(n);
        let jt = self.justs_text(node_id);
        out.append(jt.as_str());
        let ds = shown_dependents_of(all, node_id);
        if ds.len() == 0 {
            return Ok(out);
        }
        match self.dep_rows_text(&ds) {
            Some(rows) => {
                out.append("\n  Dependents:\n");
                out.append(rows.as_str());
                Ok(out)
            },
            None => Err(TmsError::CutInsideChar),
        }
    }
}

/// Once the rows of a prefix of the dependents fail, so do all.
pub proof fn lemma_dep_rows_none(net: Network, ds: Seq<Seq<char>>, k: int)
    requires
        0 <= k <= ds.len(),
        dep_rows(net, ds.take(k)) is None,
    ensures
        dep_rows(net, ds) is None,
    decreases ds.len() - k,
{
    if k < ds.len() {
        assert(ds.take(k + 1).drop_last() =~= ds.take(k));
        lemma_dep_rows_none(net, ds, k + 1);
    } else {
        assert(ds.take(k) =~= ds);
    }
}

} // verus!

verus! {

/// The lines of a lookup: for each id, the line of its node when it exists
/// and is shown (OUT nodes only with `include_out`); nothing when a text
/// would be cut inside a character.
pub open spec fn lookup_spec(net: Network, ids: Seq<Seq<char>>, include_out: bool) -> Option<Seq<Seq<char>>>
    decreases ids.len(),
{
    if ids.len() == 0 {
        Some(Seq::empty())
    } else {
        match lookup_spec(net, ids.drop_last(), include_out) {
            None => None,
            Some(r) => match net.node(ids.last()) {
                None => Some(r),
                Some(n) => if !include_out && n.truth_value@ == "OUT"@ {
                    Some(r)
                } else if truncatable(n.text@, 80) {
                    Some(r.push(node_line(n)))
                } else {
                    None
                },
            },
        }
    }
}

pub proof fn lemma_lookup_none(net: Network, ids: Seq<Seq<char>>, include_out: bool, k: int)
    requires
        0 <= k <= ids.len(),
        lookup_spec(net, ids.take(k), include_out) is None,
    ensures
        lookup_spec(net, ids, include_out) is None,
    decreases ids.len() - k,
{
    if k < ids.len() {
        assert(ids.take(k + 1).drop_last() =~= ids.take(k));
        lemma_lookup_none(net, ids, include_out, k + 1);
    } else {
        assert(ids.take(k) =~= ids);
    }
}

impl Network {
    /// The lines of a lookup of `ids` (see `lookup_spec`); refused when a
    /// text would be cut inside a character.
    pub fn lookup_lines(&self, ids: &Vec<String>, include_out: bool) -> (r: Result<Vec<String>, TmsError>)
        ensures
            match lookup_spec(*self, views(ids@), include_out) {
                Some(ls) => r matches Ok(v) && views(v@) == ls,
                None => r matches Err(TmsError::CutInsideChar),
            },
    {
        let mut out: Vec<String> = Vec::new();
        let mut k: usize = 0;
        assert(views(ids@).take(0) =~= Seq::<Seq<char>>::empty());
        assert(views(out@) =~= Seq::<Seq<char>>::empty());
        while k < ids.len()
            invariant
                k <= ids@.len(),
                lookup_spec(*self, views(ids@).take(k as int), include_out) == Some(views(out@)),
            decreases ids@.len() - k,
        {
            let id = &ids[k];
            assert(views(ids@).take(k + 1).drop_last() =~= views(ids@).take(k as int));
            assert(views(ids@).take(k + 1).last() == id@);
            match self.node_index(id.as_str()) {
                Some(i) => {
                    proof {
                        self.lemma_tms_keys();
                        assert(self.node(id@) == Some(self.nodes@[i as int]));
                    }
                    let n = &self.nodes[i];
                    if include_out || !str_eq(n.truth_value.as_str(), "OUT") {
                        if !can_truncate(n.text.as_str(), 80) {
                            proof {
                                lemma_lookup_none(*self, views(ids@), include_out, k + 1);
                            }
                            return Err(TmsError::CutInsideChar);
                        }
                        let ghost before = views(out@);
                        out.push(format_node_line(n));
                        assert(views(out@) =~= before.push(node_line(*n)));
                    }
                },
                None => {},
            }
            k = k + 1;
        }
        assert(views(ids@).take(ids@.len() as int) =~= views(ids@));
        Ok(out)
    }

    /// `id truth` for each of `ids` (`?` for an id that names no node),
    /// joined by commas: how a cascade is summed up.
    pub fn cascade_summary(&self, ids: &Vec<String>) -> (r: String)
        ensures
            r@ == join_seq(views(ids@).map_values(|id: Seq<char>| cascade_item(*self, id)), ", "@),
    {
        let mut parts: Vec<String> = Vec::new();
        let mut k: usize = 0;
        while k < ids.len()
            invariant
                k <= ids@.len(),
                views(parts@) == views(ids@).take(k as int).map_values(|id: Seq<char>| cascade_item(*self, id)),
            decreases ids@.len() - k,
        {
            let id = &ids[k];
            let mut p = id.clone();
            p.append(" ");
            match self.node_index(id.as_str()) {
                Some(i) => {
                    proof {
                        self.lemma_tms_keys();
                        assert(self.node(id@) == Some(self.nodes@[i as int]));
                    }
                    p.append(self.nodes[i].truth_value.as_str());
                },
                None => {
                    p.append("?");
                },
            }
            assert(p@ == cascade_item(*self, id@));
            let ghost before = views(parts@);
            parts.push(p);
            proof {
                assert(views(ids@)[k as int] == id@);
                assert(views(parts@) =~= before.push(cascade_item(*self, id@)));
                assert(views(ids@).take(k + 1).map_values(|id: Seq<char>| cascade_item(*self, id)) =~= views(ids@).take(
                    k as int,
                ).map_values(|id: Seq<char>| cascade_item(*self, id)).push(cascade_item(*self, id@)));
            }
            k = k + 1;
        }
        assert(views(ids@).take(ids@.len() as int) =~= views(ids@));
        join(&parts, ", ")
    }

    /// `  id -> truth` for each of `ids` that names a node: how a full
    /// recomputation reports its changes.
    pub fn change_lines(&self, ids: &Vec<String>) -> (r: Vec<String>)
        ensures
            views(r@) == change_rows(*self, views(ids@)),
    {
        let mut out: Vec<String> = Vec::new();
        let mut k: usize = 0;
        assert(views(out@) =~= change_rows(*self, views(ids@).take(0)));
        while k < ids.len()
            invariant
                k <= ids@.len(),
                views(out@) == change_rows(*self, views(ids@).take(k as int)),
            decreases ids@.len() - k,
        {
            let id = &ids[k];
            assert(views(ids@).take(k + 1).drop_last() =~= views(ids@).take(k as int));
            assert(views(ids@).take(k + 1).last() == id@);
            match self.node_index(id.as_str()) {
                Some(i) => {
                    proof {
                        self.lemma_tms_keys();
                        assert(self.node(id@) == Some(self.nodes@[i as int]));
                    }
                    let mut l = owned("  ");
                    l.append(id.as_str());
                    l.append(" -> ");
                    l.append(self.nodes[i].truth_value.as_str());
                    let ghost before = views(out@);
                    out.push(l);
                    assert(views(out@) =~= before.push("  "@ + id@ + " -> "@ + self.nodes@[i as int].truth_value@));
                },
                None => {},
            }
            k = k + 1;
        }
        assert(views(ids@).take(ids@.len() as int) =~= views(ids@));
        out
    }
}

/// `id truth`, with `?` for an id that names no node.
pub open spec fn cascade_item(net: Network, id: Seq<char>) -> Seq<char> {
    id + " "@ + match net.node(id) {
        Some(n) => n.truth_value@,
        None => "?"@,
    }
}

/// `  id -> truth` for each id that names a node.
pub open spec fn change_rows(net: Network, ids: Seq<Seq<char>>) -> Seq<Seq<char>>
    decreases ids.len(),
{
    if ids.len() == 0 {
        Seq::empty()
    } else {
        let r = change_rows(net, ids.drop_last());
        match net.node(ids.last()) {
            Some(n) => r.push("  "@ + ids.last() + " -> "@ + n.truth_value@),
            None => r,
        }
    }
}

} // verus!

verus! {

/// `  id: text` for each premise that names a node, the text truncated to
/// 80 bytes; nothing when a text would be cut inside a character.
pub open spec fn premise_rows(net: Network, ps: Seq<Seq<char>>) -> Option<Seq<Seq<char>>>
    decreases ps.len(),
{
    if ps.len() == 0 {
        Some(Seq::empty())
    } else {
        match premise_rows(net, ps.drop_last()) {
            None => None,
            Some(r) => match net.node(ps.last()) {
                None => Some(r),
                Some(n) => if truncatable(n.text@, 80) {
                    Some(r.push("  "@ + ps.last() + ": "@ + truncated(n.text@, 80)))
                } else {
                    None
                },
            },
        }
    }
}

pub proof fn lemma_premise_rows_none(net: Network, ps: Seq<Seq<char>>, k: int)
    requires
        0 <= k <= ps.len(),
        premise_rows(net, ps.take(k)) is None,
    ensures
        premise_rows(net, ps) is None,
    decreases ps.len() - k,
{
    if k < ps.len() {
        assert(ps.take(k + 1).drop_last() =~= ps.take(k));
        lemma_premise_rows_none(net, ps, k + 1);
    } else {
        assert(ps.take(k) =~= ps);
    }
}

/// What `trace` prints for `id` given its supporting premises `ps`.
pub open spec fn trace_spec(net: Network, id: Seq<char>, ps: Seq<Seq<char>>) -> Option<Seq<Seq<char>>> {
    if ps.len() == 0 {
        Some(seq![id + " is a premise (no supporting premises to trace)."@])
    } else {
        match premise_rows(net, ps) {
            Some(r) => Some(seq!["Premises supporting "@ + id + ":"@] + r),
            None => None,
        }
    }
}

/// `  id (entrenchment: score): text` for each candidate that names a
/// node, the text truncated to 60 bytes; nothing when a text would be cut
/// inside a character.
pub open spec fn culprit_rows(net: Network, cs: Seq<(String, i64)>) -> Option<Seq<Seq<char>>>
    decreases cs.len(),
{
    if cs.len() == 0 {
        Some(Seq::empty())
    } else {
        match culprit_rows(net, cs.drop_last()) {
            None => None,
            Some(r) => match net.node(cs.last().0@) {
                None => Some(r),
                Some(n) => if truncatable(n.text@, 60) {
                    Some(
                        r.push(
                            "  "@ + cs.last().0@ + " (entrenchment: "@ + int_text(cs.last().1 as int) + "): "@ + truncated(
                                n.text@,
                                60,
                            ),
                        ),
                    )
                } else {
                    None
                },
            },
        }
    }
}

pub proof fn lemma_culprit_rows_none(net: Network, cs: Seq<(String, i64)>, k: int)
    requires
        0 <= k <= cs.len(),
        culprit_rows(net, cs.take(k)) is None,
    ensures
        culprit_rows(net, cs) is None,
    decreases cs.len() - k,
{
    if k < cs.len() {
        assert(cs.take(k + 1).drop_last() =~= cs.take(k));
        lemma_culprit_rows_none(net, cs, k + 1);
    } else {
        assert(cs.take(k) =~= cs);
    }
}

impl Network {
    fn premise_rows_of(&self, ps: &Vec<String>) -> (r: Option<Vec<String>>)
        ensures
            match premise_rows(*self, views(ps@)) {
                Some(ls) => r matches Some(v) && views(v@) == ls,
                None => r is None,
            },
    {
        let mut out: Vec<String> = Vec::new();
        let mut k: usize = 0;
        assert(views(ps@).take(0) =~= Seq::<Seq<char>>::empty());
        assert(views(out@) =~= Seq::<Seq<char>>::empty());
        while k < ps.len()
            invariant
                k <= ps@.len(),
                premise_rows(*self, views(ps@).take(k as int)) == Some(views(out@)),
            decreases ps@.len() - k,
        {
            let p = &ps[k];
            assert(views(ps@).take(k + 1).drop_last() =~= views(ps@).take(k as int));
            assert(views(ps@).take(k + 1).last() == p@);
            match self.node_index(p.as_str()) {
                Some(i) => {
                    proof {
                        self.lemma_tms_keys();
                        assert(self.node(p@) == Some(self.nodes@[i as int]));
                    }
                    let n = &self.nodes[i];
                    if !can_truncate(n.text.as_str(), 80) {
                        proof {
                            lemma_premise_rows_none(*self, views(ps@), k + 1);
                        }
                        return None;
                    }
                    let mut l = owned("  ");
                    l.append(p.as_str());
                    l.append(": ");
                    let t = truncate(n.text.as_str(), 80);
                    l.append(t.as_str());
                    let ghost before = views(out@);
                    out.push(l);
                    assert(views(out@) =~= before.push("  "@ + p@ + ": "@ + truncated(n.text@, 80)));
                },
                None => {},
            }
            k = k + 1;
        }
        assert(views(ps@).take(ps@.len() as int) =~= views(ps@));
        Some(out)
    }

    /// What `trace` prints for `node_id`: its supporting premises, each
    /// once, in the order a depth-first trace finds them, with their texts;
    /// refused when the node does not exist or a text would be cut inside
    /// a character.
    pub fn trace_lines(&self, node_id: &str) -> (r: Result<Vec<String>, TmsError>)
        ensures
            self.node(node_id@) is None ==> (r matches Err(TmsError::NodeNotFound(s)) && s@ == node_id@),
            self.node(node_id@) is Some ==> match trace_spec(
                *self,
                node_id@,
                crate::network::premise_order(self.tms(), node_id@),
            ) {
                Some(ls) => r matches Ok(v) && views(v@) == ls,
                None => r matches Err(TmsError::CutInsideChar),
            },
    {
        if self.node_index(node_id).is_none() {
            return Err(TmsError::NodeNotFound(owned(node_id)));
        }
        let ps = self.find_premises(node_id);
        let ghost pv = views(ps@);
        if ps.len() == 0 {
            let mut l = owned(node_id);
            l.append(" is a premise (no supporting premises to trace).");
            let mut out: Vec<String> = Vec::new();
            out.push(l);
            assert(views(out@) =~= seq![node_id@ + " is a premise (no supporting premises to trace)."@]);
            assert(trace_spec(*self, node_id@, pv) == Some(views(out@)));
            return Ok(out);
        }
        match self.premise_rows_of(&ps) {
            Some(rows) => {
                let mut h = owned("Premises supporting ");
                h.append(node_id);
                h.append(":");
                let mut out: Vec<String> = Vec::new();
                out.push(h);
                let ghost hv = views(out@);
                let mut rows = rows;
                out.append(&mut rows);
                assert(trace_spec(*self, node_id@, pv) == Some(views(out@))) by {
                    assert(views(out@) =~= seq!["Premises supporting "@ + node_id@ + ":"@] + premise_rows(*self, pv)->Some_0);
                }
                Ok(out)
            },
            None => {
                assert(trace_spec(*self, node_id@, pv) is None);
                Err(TmsError::CutInsideChar)
            },
        }
    }

    /// What `find-culprits` prints for the candidates (least entrenched
    /// first): each with its score and text, or that there are none;
    /// refused when a text would be cut inside a character.
    pub fn culprit_lines(&self, cands: &Vec<(String, i64)>) -> (r: Result<Vec<String>, TmsError>)
        ensures
            cands@.len() == 0 ==> (r matches Ok(v) && views(v@) == seq!["No culprit premises found."@]),
            cands@.len() > 0 ==> match culprit_rows(*self, cands@) {
                Some(ls) => r matches Ok(v) && views(v@) == seq!["Culprit premises (least entrenched first):"@] + ls,
                None => r matches Err(TmsError::CutInsideChar),
            },
    {
        let mut out: Vec<String> = Vec::new();
        if cands.len() == 0 {
            out.push(owned("No culprit premises found."));
            assert(views(out@) =~= seq!["No culprit premises found."@]);
            return Ok(out);
        }
        out.push(owned("Culprit premises (least entrenched first):"));
        let ghost head = views(out@);
        let mut k: usize = 0;
        assert(cands@.take(0) =~= Seq::<(String, i64)>::empty());
        assert(views(out@) =~= head + Seq::<Seq<char>>::empty());
        while k < cands.len()
            invariant
                k <= cands@.len(),
                head == seq!["Culprit premises (least entrenched first):"@],
                culprit_rows(*self, cands@.take(k as int)) matches Some(rs) && views(out@) == head + rs,
            decreases cands@.len() - k,
        {
            let (id, score) = (&cands[k].0, cands[k].1);
            let ghost prev = culprit_rows(*self, cands@.take(k as int))->Some_0;
            assert(cands@.take(k + 1).drop_last() =~= cands@.take(k as int));
            assert(cands@.take(k + 1).last() == cands@[k as int]);
            match self.node_index(id.as_str()) {
                Some(i) => {
                    proof {
                        self.lemma_tms_keys();
                        assert(self.node(id@) == Some(self.nodes@[i as int]));
                    }
                    let n = &self.nodes[i];
                    if !can_truncate(n.text.as_str(), 60) {
                        proof {
                            lemma_culprit_rows_none(*self, cands@, k + 1);
                        }
                        return Err(TmsError::CutInsideChar);
                    }
                    let mut l = owned("  ");
                    l.append(id.as_str());
                    l.append(" (entrenchment: ");
                    let sc = int_string(score);
                    l.append(sc.as_str());
                    l.append("): ");
                    let t = truncate(n.text.as_str(), 60);
                    l.append(t.as_str());
                    let ghost before = views(out@);
                    let ghost lv = l@;
                    out.push(l);
                    assert(views(out@) =~= before.push(lv));
                    assert(before == head + prev);
                    assert(views(out@) =~= head + prev.push(lv));
                },
                None => {},
            }
            k = k + 1;
        }
        assert(cands@.take(cands@.len() as int) =~= cands@);
        Ok(out)
    }
}

} // verus!

verus! {

/// The nodes that have justifications: their ids, each once, in order.
pub open spec fn owners(js: Seq<Justification>) -> Seq<Seq<char>> {
    crate::export::dedup(js.map_values(|j: Justification| j.node_id@))
}

/// How many of the nodes are IN.
pub open spec fn in_count(ns: Seq<Node>) -> nat
    decreases ns.len(),
{
    if ns.len() == 0 {
        0
    } else {
        in_count(ns.drop_last()) + if ns.last().truth_value@ == "IN"@ {
            1nat
        } else {
            0nat
        }
    }
}

pub proof fn lemma_in_count(ns: Seq<Node>)
    ensures
        in_count(ns) <= ns.len(),
    decreases ns.len(),
{
    if ns.len() > 0 {
        lemma_in_count(ns.drop_last());
    }
}

/// The summary `status` prints: node counts (IN and OUT), premises (nodes
/// without justifications), derived nodes, recorded contradictions, and the
/// time of the last update when there is one.
pub open spec fn status_spec(ns: Seq<Node>, js: Seq<Justification>, nogoods: nat, updated: Seq<char>) -> Seq<Seq<char>> {
    let total = ns.len();
    let ins = in_count(ns);
    let derived = owners(js).len();
    seq![
        "reasons.db"@,
        "  Nodes: "@ + decimal_seq(total) + " ("@ + decimal_seq(ins) + " IN, "@ + decimal_seq((total - ins) as nat)
            + " OUT)"@,
        "  Premises: "@ + decimal_seq((total - derived) as nat),
        "  Derived: "@ + decimal_seq(derived),
        "  Nogoods: "@ + decimal_seq(nogoods),
    ] + if updated.len() > 0 {
        seq!["  Last updated: "@ + updated]
    } else {
        Seq::empty()
    }
}

/// The summary `status` prints (see `status_spec`). Every node with
/// justifications is counted among the nodes.
pub fn status_lines(nodes: &Vec<Node>, justs: &Vec<Justification>, nogoods: usize, updated_at: &str) -> (r: Vec<String>)
    requires
        owners(justs@).len() <= nodes@.len(),
    ensures
        views(r@) == status_spec(nodes@, justs@, nogoods as nat, updated_at@),
{
    let mut ins: usize = 0;
    let mut k: usize = 0;
    while k < nodes.len()
        invariant
            k <= nodes@.len(),
            ins == in_count(nodes@.take(k as int)),
            ins <= k,
        decreases nodes@.len() - k,
    {
        assert(nodes@.take(k + 1).drop_last() =~= nodes@.take(k as int));
        assert(nodes@.take(k + 1).last() == nodes@[k as int]);
        if str_eq(nodes[k].truth_value.as_str(), "IN") {
            ins = ins + 1;
        }
        k = k + 1;
    }
    assert(nodes@.take(nodes@.len() as int) =~= nodes@);
    let mut seen: Vec<String> = Vec::new();
    let ghost ids = justs@.map_values(|j: Justification| j.node_id@);
    let mut m: usize = 0;
    assert(views(seen@) =~= crate::export::dedup(ids.take(0)));
    while m < justs.len()
        invariant
            m <= justs@.len(),
            ids == justs@.map_values(|j: Justification| j.node_id@),
            views(seen@) == crate::export::dedup(ids.take(m as int)),
        decreases justs@.len() - m,
    {
        assert(ids.take(m + 1).drop_last() =~= ids.take(m as int));
        assert(ids.take(m + 1).last() == justs@[m as int].node_id@);
        if !crate::text::contains_str(&seen, justs[m].node_id.as_str()) {
            let ghost before = views(seen@);
            seen.push(justs[m].node_id.clone());
            assert(views(seen@) =~= before.push(justs@[m as int].node_id@));
        }
        m = m + 1;
    }
    assert(ids.take(justs@.len() as int) =~= ids);
    let total = nodes.len();
    let derived = seen.len();
    let mut out: Vec<String> = Vec::new();
    out.push(owned("reasons.db"));
    let mut l = owned("  Nodes: ");
    l.append(decimal(total as u64).as_str());
    l.append(" (");
    l.append(decimal(ins as u64).as_str());
    l.append(" IN, ");
    l.append(decimal((total - ins) as u64).as_str());
    l.append(" OUT)");
    out.push(l);
    let mut l = owned("  Premises: ");
    l.append(decimal((total - derived) as u64).as_str());
    out.push(l);
    let mut l = owned("  Derived: ");
    l.append(decimal(derived as u64).as_str());
    out.push(l);
    let mut l = owned("  Nogoods: ");
    l.append(decimal(nogoods as u64).as_str());
    out.push(l);
    let ghost five = views(out@);
    if !updated_at.is_empty() {
        let mut l = owned("  Last updated: ");
        l.append(updated_at);
        out.push(l);
    }
    proof {
        let s = status_spec(nodes@, justs@, nogoods as nat, updated_at@);
        assert(views(out@) =~= s);
    }
    out
}

} // verus!

verus! {

/// An item is kept by `dedup` exactly when it occurs.
pub proof fn lemma_dedup_contains(s: Seq<Seq<char>>, x: Seq<char>)
    ensures
        crate::export::dedup(s).contains(x) <==> s.contains(x),
    decreases s.len(),
{
    if s.len() > 0 {
        let t = s.drop_last();
        lemma_dedup_contains(t, x);
        let r = crate::export::dedup(t);
        crate::model::lemma_push_contains(r, s.last(), x);
        crate::model::lemma_push_contains(t, s.last(), x);
        assert(s =~= t.push(s.last()));
    }
}

} // verus!
