//! Recorded contradictions and dependency-directed backtracking: when every
//! node of a contradiction is IN, the least entrenched premise behind them
//! is retracted.
use vstd::prelude::*;
use crate::clock::timestamp;
use crate::json::JsonValue;
use crate::model::{bfs_done, deps_cover, has_node, is_in, mark_node, node_idx, out_tv, propagation, TmsView};
use crate::network::{culprit_of, deps_bounded, max_dependents, pair_ids, same_but_truth, Network};
use crate::text::{int_string, int_text, owned, padded3, padded_decimal3};
use crate::types::{views, Nogood, TmsError};

verus! {

/// The id of the `n`-th recorded contradiction: `nogood-` and `n` padded
/// to three digits.
pub open spec fn nogood_name(n: nat) -> Seq<char> {
    "nogood-"@ + padded3(n)
}

/// A new contradiction among `nodes`, the next after `existing` recorded
/// ones, discovered now and not yet resolved.
pub fn new_nogood(existing: usize, nodes: Vec<String>) -> (g: Nogood)
    requires
        existing < usize::MAX,
    ensures
        g.id@ == nogood_name((existing + 1) as nat),
        g.nodes == nodes,
        g.resolution@.len() == 0,
        crate::clock::stamp(g.discovered@),
{
    let mut id = owned("nogood-");
    let n = padded_decimal3((existing + 1) as u64);
    id.append(n.as_str());
    Nogood { id, nodes, discovered: timestamp(), resolution: String::new() }
}

/// The resolution recorded when `culprit` (of entrenchment `score`) is
/// retracted.
pub open spec fn resolution_of(culprit: Seq<char>, score: int) -> Seq<char> {
    "Retracted "@ + culprit + " (entrenchment: "@ + int_text(score) + ")"@
}

pub fn resolution_text(culprit: &str, score: i64) -> (r: String)
    ensures
        r@ == resolution_of(culprit@, score as int),
{
    let mut r = owned("Retracted ");
    r.append(culprit);
    r.append(" (entrenchment: ");
    let s = int_string(score);
    r.append(s.as_str());
    r.append(")");
    r
}

/// The reason recorded on a premise retracted by backtracking.
pub open spec fn backtrack_reason() -> Seq<char> {
    "Retracted by dependency-directed backtracking"@
}

/// What recording a contradiction did.
pub enum Resolution {
    /// Not every node of the contradiction is IN: nothing was done.
    Inactive,
    /// Every node is IN but no premise supports them: nothing was done.
    NoCulprit,
    /// The premise `culprit`, of entrenchment `score`, was retracted; the
    /// retraction changed `cascaded`.
    Retracted { culprit: String, score: i64, cascaded: Vec<String> },
}

/// Every id names an IN node.
pub open spec fn all_in(v: TmsView, ids: Seq<Seq<char>>) -> bool {
    forall|k: int| 0 <= k < ids.len() ==> is_in(v, #[trigger] ids[k])
}

/// The first id that names no node, if any.
pub open spec fn first_missing(v: TmsView, ids: Seq<Seq<char>>) -> Option<Seq<char>>
    decreases ids.len(),
{
    if ids.len() == 0 {
        None
    } else if !has_node(v, ids[0]) {
        Some(ids[0])
    } else {
        first_missing(v, ids.drop_first())
    }
}

impl Network {
    /// No dependents list is too long for entrenchment scores.
    pub fn scores_fit(&self) -> (r: bool)
        ensures
            r == deps_bounded(self.tms()),
    {
        let mut d: usize = 0;
        while d < self.dependents.len()
            invariant
                d <= self.dependents@.len(),
                forall|e: int| 0 <= e < d ==> #[trigger] self.tms().deps[e].1.len() <= max_dependents(),
            decreases self.dependents@.len() - d,
        {
            if self.dependents[d].dependents.len() as u64 > 0x0100_0000_0000_0000u64 {
                assert(self.tms().deps[d as int].1.len() == self.dependents@[d as int].dependents@.len());
                return false;
            }
            assert(self.tms().deps[d as int].1.len() == self.dependents@[d as int].dependents@.len());
            d = d + 1;
        }
        true
    }

    /// The first of `ids` that names no node.
    pub fn find_missing(&self, ids: &Vec<String>) -> (r: Option<String>)
        ensures
            match r {
                Some(s) => first_missing(self.tms(), views(ids@)) == Some(s@),
                None => first_missing(self.tms(), views(ids@)) is None,
            },
    {
        let ghost vs = views(ids@);
        let mut k: usize = 0;
        assert(vs.skip(0) =~= vs);
        while k < ids.len()
            invariant
                k <= ids@.len(),
                vs == views(ids@),
                first_missing(self.tms(), vs) == first_missing(self.tms(), vs.skip(k as int)),
            decreases ids@.len() - k,
        {
            assert(vs.skip(k as int)[0] == ids@[k as int]@);
            assert(vs.skip(k as int).drop_first() =~= vs.skip(k + 1));
            if self.node_index(ids[k].as_str()).is_none() {
                return Some(ids[k].clone());
            }
            k = k + 1;
        }
        assert(vs.skip(k as int).len() == 0);
        None
    }

    /// Every one of `ids` names an IN node.
    pub fn all_in(&self, ids: &Vec<String>) -> (r: bool)
        ensures
            r == all_in(self.tms(), views(ids@)),
    {
        let mut k: usize = 0;
        while k < ids.len()
            invariant
                k <= ids@.len(),
                forall|m: int| 0 <= m < k ==> is_in(self.tms(), #[trigger] views(ids@)[m]),
            decreases ids@.len() - k,
        {
            if !self.node_is_in(ids[k].as_str()) {
                assert(views(ids@)[k as int] == ids@[k as int]@);
                return false;
            }
            k = k + 1;
        }
        true
    }

    /// Act on the contradiction among `node_ids`: refused when one of them
    /// names no node; when all are IN, the least entrenched premise
    /// supporting them is retracted (reason: dependency-directed
    /// backtracking) and the retraction propagated.
    pub fn resolve_nogood(&mut self, node_ids: &Vec<String>) -> (r: Result<Resolution, TmsError>)
        requires
            deps_bounded(old(self).tms()),
        ensures
            old(self).wf() ==> final(self).wf(),
            ({
                let v = old(self).tms();
                let ids = views(node_ids@);
                match first_missing(v, ids) {
                    Some(m) => r matches Err(TmsError::NodeNotFound(s)) && s@ == m && *final(self) == *old(self),
                    None => if !all_in(v, ids) {
                        r matches Ok(Resolution::Inactive) && *final(self) == *old(self)
                    } else if !(exists|p: Seq<char>| culprit_of(v, ids, p)) {
                        r matches Ok(Resolution::NoCulprit) && *final(self) == *old(self)
                    } else {
                        r matches Ok(Resolution::Retracted { culprit, score, cascaded }) && {
                            let mid = mark_node(
                                v,
                                culprit@,
                                out_tv(),
                                match old(self).node(culprit@) {
                                    Some(n) => n.metadata is Object,
                                    None => false,
                                },
                            );
                            let p = propagation(mid, culprit@);
                            &&& culprit_of(v, ids, culprit@)
                            &&& score == old(self).spec_entrenchment(culprit@)
                            &&& forall|q: Seq<char>| culprit_of(v, ids, q) ==> score <= old(self).spec_entrenchment(q)
                            &&& final(self).tms() == p.net
                            &&& views(cascaded@) == p.changed
                            &&& bfs_done(p) && deps_cover(v) ==> final(self).settled(culprit@, p.changed)
                            &&& final(self).justifications == old(self).justifications
                            &&& final(self).dependents == old(self).dependents
                            &&& ({
                                let i = node_idx(v, culprit@);
                                i >= 0 && old(self).nodes@[i].metadata is Object ==> final(self).nodes@[i].metadata.str_at(
                                    "retract_reason"@,
                                ) == Some(backtrack_reason())
                            })
                        }
                    },
                }
            }),
    {
        let ghost v = self.tms();
        let ghost ids = views(node_ids@);
        if let Some(m) = self.find_missing(node_ids) {
            return Err(TmsError::NodeNotFound(m));
        }
        if !self.all_in(node_ids) {
            return Ok(Resolution::Inactive);
        }
        let ids_slice = node_ids.as_slice();
        assert(views(ids_slice@) == ids);
        let cands = self.find_culprits(ids_slice);
        if cands.len() == 0 {
            proof {
                assert forall|p: Seq<char>| !culprit_of(v, ids, p) by {
                    if culprit_of(v, ids, p) {
                        assert(pair_ids(cands@).contains(p));
                    }
                }
            }
            return Ok(Resolution::NoCulprit);
        }
        let culprit = cands[0].0.clone();
        let score = cands[0].1;
        proof {
            assert(pair_ids(cands@)[0] == culprit@);
            assert(pair_ids(cands@).contains(culprit@));
            assert forall|q: Seq<char>| culprit_of(v, ids, q) implies score <= old(self).spec_entrenchment(q) by {
                assert(pair_ids(cands@).contains(q));
                let j = choose|j: int| 0 <= j < pair_ids(cands@).len() && pair_ids(cands@)[j] == q;
                assert(cands@[j].0@ == q);
                assert(cands@[0].1 <= cands@[j].1);
            }
        }
        let cascaded = self.retract(culprit.as_str(), Some("Retracted by dependency-directed backtracking"));
        Ok(Resolution::Retracted { culprit, score, cascaded })
    }
}

} // verus!

verus! {

/// What an existing node's entrenchment is made of, apart from its kind:
/// 100 for a premise, 50 for a source, 25 for a source hash, and 10 per
/// dependent.
pub open spec fn entrenchment_base(net: Network, id: Seq<char>, n: crate::types::Node) -> int {
    (if crate::model::justs_of(net.tms(), id).len() == 0 {
        100int
    } else {
        0
    }) + (if n.source@.len() > 0 {
        50int
    } else {
        0
    }) + (if n.source_hash@.len() > 0 {
        25int
    } else {
        0
    }) + 10 * crate::model::deps_of(net.tms(), id).len()
}

/// The kind of belief a node's metadata names adds to its entrenchment:
/// 90 for AXIOM and WARNING, 80 for OBSERVATION, 40 for DERIVED, 30 for
/// PREDICTED, 10 for NOTE, and 20 for any other kind or none.
pub proof fn law_entrenchment_by_kind(net: Network, id: Seq<char>)
    requires
        net.node(id) is Some,
    ensures
        ({
            let n = net.node(id)->0;
            let base = entrenchment_base(net, id, n);
            let k = n.metadata.str_at("beliefs_type"@);
            &&& k == Some("AXIOM"@) ==> net.spec_entrenchment(id) == base + 90
            &&& k == Some("WARNING"@) ==> net.spec_entrenchment(id) == base + 90
            &&& k == Some("OBSERVATION"@) ==> net.spec_entrenchment(id) == base + 80
            &&& k == Some("DERIVED"@) ==> net.spec_entrenchment(id) == base + 40
            &&& k == Some("PREDICTED"@) ==> net.spec_entrenchment(id) == base + 30
            &&& k == Some("NOTE"@) ==> net.spec_entrenchment(id) == base + 10
            &&& (k is None || (k != Some("AXIOM"@) && k != Some("WARNING"@) && k != Some("OBSERVATION"@) && k != Some(
                "DERIVED"@,
            ) && k != Some("PREDICTED"@) && k != Some("NOTE"@))) ==> net.spec_entrenchment(id) == base + 20
        }),
{
    reveal_strlit("AXIOM");
    reveal_strlit("WARNING");
    reveal_strlit("OBSERVATION");
    reveal_strlit("DERIVED");
    reveal_strlit("PREDICTED");
    reveal_strlit("NOTE");
    assert("DERIVED"@[0] != "WARNING"@[0]);
    assert("NOTE"@.len() != "AXIOM"@.len() && "NOTE"@.len() != "WARNING"@.len() && "NOTE"@.len() != "OBSERVATION"@.len()
        && "NOTE"@.len() != "DERIVED"@.len() && "NOTE"@.len() != "PREDICTED"@.len());
    assert("PREDICTED"@.len() != "AXIOM"@.len() && "PREDICTED"@.len() != "WARNING"@.len() && "PREDICTED"@.len()
        != "OBSERVATION"@.len() && "PREDICTED"@.len() != "DERIVED"@.len());
    assert("DERIVED"@.len() != "AXIOM"@.len() && "DERIVED"@.len() != "OBSERVATION"@.len());
    assert("OBSERVATION"@.len() != "AXIOM"@.len() && "OBSERVATION"@.len() != "WARNING"@.len());
}

/// An AXIOM is held more firmly than a NOTE: of two existing nodes that
/// agree in being premises, in having a source and a source hash, and in
/// their number of dependents, the one whose kind is AXIOM scores exactly
/// 80 more than the one whose kind is NOTE, so backtracking ranks it
/// after the NOTE.
pub proof fn law_axiom_outranks_note(net: Network, a: Seq<char>, b: Seq<char>)
    requires
        net.node(a) matches Some(na) && na.metadata.str_at("beliefs_type"@) == Some("AXIOM"@),
        net.node(b) matches Some(nb) && nb.metadata.str_at("beliefs_type"@) == Some("NOTE"@),
        (crate::model::justs_of(net.tms(), a).len() == 0) == (crate::model::justs_of(net.tms(), b).len() == 0),
        (net.node(a)->0.source@.len() > 0) == (net.node(b)->0.source@.len() > 0),
        (net.node(a)->0.source_hash@.len() > 0) == (net.node(b)->0.source_hash@.len() > 0),
        crate::model::deps_of(net.tms(), a).len() == crate::model::deps_of(net.tms(), b).len(),
    ensures
        net.spec_entrenchment(a) == net.spec_entrenchment(b) + 80,
{
    law_entrenchment_by_kind(net, a);
    law_entrenchment_by_kind(net, b);
}

} // verus!
