//! Revising beliefs: challenges, defenses and supersession, which set one
//! node against another through out-lists.
use vstd::prelude::*;
use crate::json::{keyed, listed, push_to_list, set_str, JsonValue};
use crate::model::{
    compute, deps_cover, deps_of, first_index, in_tv, just_keys, justs_of, lemma_first_index, lemma_first_index_absent,
    lemma_first_index_at, lemma_first_index_push, mark_node, node_idx, node_keys, out_tv, propagation, set_truth, bfs_done,
    unique_keys, JustView, NodeState, TmsView,
};
use crate::network::{group_view, names, same_but_truth, same_text_and_source, JustificationGroup, Network};
use crate::text::{cat, contains_str, owned};
use crate::types::{views, Justification, Node};

verus! {

/// `jn` is `jo` with `x` added to its out-list, unless `x` is there already.
pub open spec fn with_out(jn: Justification, jo: Justification, x: String) -> bool {
    &&& jn.rowid == jo.rowid
    &&& jn.node_id == jo.node_id
    &&& jn.jtype == jo.jtype
    &&& jn.antecedents == jo.antecedents
    &&& jn.label == jo.label
    &&& jn.outlist@ == if views(jo.outlist@).contains(x@) {
        jo.outlist@
    } else {
        jo.outlist@.push(x)
    }
}

/// `js` is the single justification `SL` of `id` with an empty in-list and
/// out-list `[x]`.
pub open spec fn only_blocker(js: Seq<Justification>, id: Seq<char>, x: String) -> bool {
    &&& js.len() == 1
    &&& js[0].rowid == 0
    &&& js[0].node_id@ == id
    &&& js[0].jtype@ == "SL"@
    &&& js[0].antecedents@.len() == 0
    &&& js[0].outlist@ == seq![x]
    &&& js[0].label@.len() == 0
}

/// The justifications `new` of `id` set `x` against it, given its former
/// justifications `old`: `SL([], [x])` when it had none, else each former
/// one with `x` added to its out-list.
pub open spec fn blocked_by(new: Seq<Justification>, old: Seq<Justification>, id: Seq<char>, x: String) -> bool {
    if old.len() == 0 {
        only_blocker(new, id, x)
    } else {
        &&& new.len() == old.len()
        &&& forall|k: int| 0 <= k < old.len() ==> with_out(#[trigger] new[k], old[k], x)
    }
}

/// The nodes with `n` put in: in place of the node of that id, or after
/// the others.
pub open spec fn upserted(ns: Seq<Node>, n: Node) -> Seq<Node> {
    let i = first_index(ns.map_values(|m: Node| m.id@), n.id@);
    if i >= 0 {
        ns.update(i, n)
    } else {
        ns.push(n)
    }
}

/// `fin` is `mid` after `id` takes its computed truth value and, when that
/// changes it, the change is propagated; `changed` is `id` and the nodes
/// the propagation changed, or nothing.
pub open spec fn refreshed(mid: TmsView, fin: TmsView, id: Seq<char>, changed: Seq<Seq<char>>) -> bool {
    let i = node_idx(mid, id);
    let t = compute(mid, id);
    if i >= 0 && mid.nodes[i].truth != t {
        let p = propagation(set_truth(mid, i, t), id);
        fin == p.net && changed == seq![id] + p.changed
    } else {
        fin == mid && changed.len() == 0
    }
}

impl Network {
    /// Put `node` in the network, replacing the node of the same id.
    pub fn upsert_node(&mut self, node: Node)
        ensures
            final(self).nodes@ == upserted(old(self).nodes@, node),
            final(self).justifications == old(self).justifications,
            final(self).dependents == old(self).dependents,
            old(self).wf() ==> final(self).wf(),
    {
        proof {
            self.lemma_tms_keys();
            assert(old(self).nodes@.map_values(|m: Node| m.id@) =~= node_keys(old(self).tms()));
        }
        match self.node_index(node.id.as_str()) {
            Some(i) => {
                let ghost nid = node.id@;
                proof {
                    lemma_first_index(node_keys(old(self).tms()), nid);
                }
                self.nodes.set(i, node);
                proof {
                    self.lemma_tms_keys();
                    old(self).lemma_tms_keys();
                    assert(node_keys(self.tms()) =~= node_keys(old(self).tms()));
                }
            },
            None => {
                let ghost nid = node.id@;
                self.nodes.push(node);
                proof {
                    self.lemma_tms_keys();
                    old(self).lemma_tms_keys();
                    assert(node_keys(self.tms()) =~= node_keys(old(self).tms()).push(nid));
                    lemma_first_index(node_keys(old(self).tms()), nid);
                    if old(self).wf() {
                        let ks = node_keys(self.tms());
                        assert forall|a: int, b: int| 0 <= a < ks.len() && 0 <= b < ks.len() && a != b implies ks[a] != ks[b] by {
                            if a < ks.len() - 1 && b < ks.len() - 1 {
                                assert(ks[a] == node_keys(old(self).tms())[a]);
                                assert(ks[b] == node_keys(old(self).tms())[b]);
                            } else if a == ks.len() - 1 {
                                assert(ks[b] == node_keys(old(self).tms())[b]);
                            } else {
                                assert(ks[a] == node_keys(old(self).tms())[a]);
                            }
                        }
                    }
                }
            },
        }
        proof {
            assert(self.tms().justs == old(self).tms().justs);
            assert(self.tms().deps == old(self).tms().deps);
        }
    }
}

} // verus!

verus! {

impl Network {
    /// Append `j` to the justifications recorded for `node_id`, leaving the
    /// dependents index and truth values alone.
    #[verifier::spinoff_prover]
    pub fn push_justification(&mut self, node_id: &str, j: Justification)
        ensures
            final(self).justs_named(node_id@) == old(self).justs_named(node_id@).push(j),
            forall|k: Seq<char>| k != node_id@ ==> #[trigger] final(self).justs_named(k) == old(self).justs_named(k),
            final(self).nodes == old(self).nodes,
            final(self).dependents == old(self).dependents,
            unique_keys(just_keys(old(self).tms())) ==> unique_keys(just_keys(final(self).tms())),
            old(self).keys_match() && j.node_id@ == node_id@ ==> final(self).keys_match(),
    {
        proof {
            self.lemma_tms_keys();
        }
        let ghost before = *self;
        let ghost jj = j;
        match self.group_index(node_id) {
            Some(g) => {
                proof {
                    lemma_first_index(just_keys(self.tms()), node_id@);
                }
                self.justifications[g].justs.push(j);
                proof {
                    self.lemma_tms_keys();
                    before.lemma_tms_keys();
                    assert(just_keys(self.tms()) =~= just_keys(before.tms()));
                    assert forall|k: Seq<char>| k != node_id@ implies #[trigger] self.justs_named(k) == before.justs_named(
                        k,
                    ) by {
                        lemma_first_index(just_keys(before.tms()), k);
                    }
                    if before.keys_match() && jj.node_id@ == node_id@ {
                        assert forall|gi: int, ji: int|
                            0 <= gi < self.justifications@.len() && 0 <= ji < self.justifications@[gi].justs@.len()
                            implies #[trigger] self.justifications@[gi].justs@[ji].node_id@
                            == self.justifications@[gi].node_id@ by {
                            if gi == g && ji == before.justifications@[gi].justs@.len() {
                                assert(self.justifications@[gi].justs@[ji] == jj);
                            } else if gi == g {
                                assert(self.justifications@[gi].justs@[ji] == before.justifications@[gi].justs@[ji]);
                                assert(before.justifications@[gi].justs@[ji].node_id@ == before.justifications@[gi].node_id@);
                            } else {
                                assert(self.justifications@[gi] == before.justifications@[gi]);
                                assert(before.justifications@[gi].justs@[ji].node_id@ == before.justifications@[gi].node_id@);
                            }
                        }
                    }
                }
            },
            None => {
                let mut list: Vec<Justification> = Vec::new();
                list.push(j);
                self.justifications.push(JustificationGroup { node_id: owned(node_id), justs: list });
                proof {
                    self.lemma_tms_keys();
                    before.lemma_tms_keys();
                    let n = before.justifications@.len() as int;
                    assert(just_keys(self.tms()) =~= just_keys(before.tms()).push(node_id@));
                    lemma_first_index_push(just_keys(before.tms()), node_id@, node_id@);
                    lemma_first_index(just_keys(before.tms()), node_id@);
                    assert(self.justifications@[n].justs@ =~= seq![jj]);
                    assert(before.justs_named(node_id@) =~= Seq::<Justification>::empty());
                    assert(self.justs_named(node_id@) =~= before.justs_named(node_id@).push(jj));
                    assert forall|k: Seq<char>| k != node_id@ implies #[trigger] self.justs_named(k) == before.justs_named(
                        k,
                    ) by {
                        lemma_first_index_push(just_keys(before.tms()), node_id@, k);
                        lemma_first_index(just_keys(before.tms()), k);
                    }
                    if unique_keys(just_keys(before.tms())) {
                        let ks = just_keys(self.tms());
                        assert forall|a: int, b: int| 0 <= a < ks.len() && 0 <= b < ks.len() && a != b implies ks[a]
                            != ks[b] by {
                            if a < n && b < n {
                                assert(ks[a] == just_keys(before.tms())[a]);
                                assert(ks[b] == just_keys(before.tms())[b]);
                            } else if a == n {
                                assert(ks[b] == just_keys(before.tms())[b]);
                            } else {
                                assert(ks[a] == just_keys(before.tms())[a]);
                            }
                        }
                    }
                    if before.keys_match() && jj.node_id@ == node_id@ {
                        assert forall|gi: int, ji: int|
                            0 <= gi < self.justifications@.len() && 0 <= ji < self.justifications@[gi].justs@.len()
                            implies #[trigger] self.justifications@[gi].justs@[ji].node_id@
                            == self.justifications@[gi].node_id@ by {
                            if gi < n {
                                assert(self.justifications@[gi] == before.justifications@[gi]);
                                assert(before.justifications@[gi].justs@[ji].node_id@ == before.justifications@[gi].node_id@);
                            }
                        }
                    }
                }
            },
        }
    }

    /// Add `x` to the out-list of every justification of `node_id` that
    /// does not name it there yet.
    pub fn add_to_outlists(&mut self, node_id: &str, x: &String)
        ensures
            final(self).justs_named(node_id@).len() == old(self).justs_named(node_id@).len(),
            forall|k: int|
                0 <= k < old(self).justs_named(node_id@).len() ==> with_out(
                    #[trigger] final(self).justs_named(node_id@)[k],
                    old(self).justs_named(node_id@)[k],
                    *x,
                ),
            forall|k: Seq<char>| k != node_id@ ==> #[trigger] final(self).justs_named(k) == old(self).justs_named(k),
            final(self).nodes == old(self).nodes,
            final(self).dependents == old(self).dependents,
            just_keys(final(self).tms()) == just_keys(old(self).tms()),
            old(self).keys_match() ==> final(self).keys_match(),
    {
        proof {
            self.lemma_tms_keys();
        }
        let ghost before = *self;
        match self.group_index(node_id) {
            Some(g) => {
                let n = self.justifications[g].justs.len();
                let mut k: usize = 0;
                while k < n
                    invariant
                        k <= n,
                        g < before.justifications@.len(),
                        n == before.justifications@[g as int].justs@.len(),
                        self.nodes == before.nodes,
                        self.dependents == before.dependents,
                        self.justifications@.len() == before.justifications@.len(),
                        forall|gi: int| 0 <= gi < self.justifications@.len() && gi != g ==> #[trigger] self.justifications@[gi]
                            == before.justifications@[gi],
                        self.justifications@[g as int].node_id == before.justifications@[g as int].node_id,
                        self.justifications@[g as int].justs@.len() == n,
                        forall|m: int| 0 <= m < k ==> with_out(
                            #[trigger] self.justifications@[g as int].justs@[m],
                            before.justifications@[g as int].justs@[m],
                            *x,
                        ),
                        forall|m: int| k <= m < n ==> #[trigger] self.justifications@[g as int].justs@[m]
                            == before.justifications@[g as int].justs@[m],
                    decreases n - k,
                {
                    let present = contains_str(&self.justifications[g].justs[k].outlist, x.as_str());
                    if !present {
                        self.justifications[g].justs[k].outlist.push(x.clone());
                    }
                    k = k + 1;
                }
                proof {
                    self.lemma_tms_keys();
                    before.lemma_tms_keys();
                    assert(just_keys(self.tms()) =~= just_keys(before.tms()));
                    lemma_first_index(just_keys(before.tms()), node_id@);
                    assert forall|kk: Seq<char>| kk != node_id@ implies #[trigger] self.justs_named(kk) == before.justs_named(
                        kk,
                    ) by {
                        lemma_first_index(just_keys(before.tms()), kk);
                        let f = first_index(just_keys(before.tms()), kk);
                        if f >= 0 {
                            assert(just_keys(before.tms())[f] == kk);
                            assert(f != g);
                        }
                    }
                    if before.keys_match() {
                        assert forall|gi: int, ji: int|
                            0 <= gi < self.justifications@.len() && 0 <= ji < self.justifications@[gi].justs@.len()
                            implies #[trigger] self.justifications@[gi].justs@[ji].node_id@
                            == self.justifications@[gi].node_id@ by {
                            if gi == g {
                                assert(before.justifications@[gi].justs@[ji].node_id@ == before.justifications@[gi].node_id@);
                            } else {
                                assert(self.justifications@[gi] == before.justifications@[gi]);
                            }
                        }
                    }
                }
            },
            None => {},
        }
    }
}

} // verus!

verus! {

/// The id of a challenge: the one given, else `challenge-` and the target.
pub open spec fn challenge_name(target: Seq<char>, given: Option<&str>) -> Seq<char> {
    match given {
        Some(c) => c@,
        None => "challenge-"@ + target,
    }
}

/// `m` is an object holding one entry: `challenge_target`, the string
/// `target`.
pub open spec fn targets_only(m: JsonValue, target: Seq<char>) -> bool {
    exists|m0: JsonValue|
        #[trigger] keyed(m, m0, "challenge_target"@, target) && m0 is Object && m0->Object_0@.len() == 0
}

/// `c` is the node a challenge `cid` of `target` with text `reason` is
/// made as: a new IN premise whose metadata records `challenge_target`.
pub open spec fn made_challenge(c: Node, cid: String, reason: Seq<char>, target: Seq<char>) -> bool {
    &&& c.id == cid
    &&& c.text@ == reason
    &&& c.truth_value@ == "IN"@
    &&& c.source@.len() == 0
    &&& c.source_url@.len() == 0
    &&& c.source_hash@.len() == 0
    &&& c.date@.len() == 0
    &&& targets_only(c.metadata, target)
    &&& crate::clock::stamp(c.created_at@)
    &&& c.updated_at == c.created_at
    &&& c.reviewed_at@.len() == 0
    &&& c.verified_at@.len() == 0
    &&& c.retracted_at@.len() == 0
}

/// `fin` is `old_net` after challenge `cid` (text `reason`) is made and set
/// against `target`, its id added to the target's `challenges` list.
pub open spec fn challenged(
    old_net: Network,
    fin: Network,
    target: Seq<char>,
    cid: String,
    reason: Seq<char>,
    changed: Seq<Seq<char>>,
) -> bool {
    exists|c: Node|
        made_challenge(c, cid, reason, target) && set_against(
            old_net,
            fin,
            upserted(old_net.nodes@, c),
            target,
            cid,
            "challenges"@,
            changed,
        )
}

/// The truth maintenance view of a list of nodes.
pub open spec fn states(ns: Seq<Node>) -> Seq<NodeState> {
    ns.map_values(|n: Node| n.state())
}

/// After setting `x` against `target`: the nodes are `up` but for truth
/// values and the metadata list `key` of `target`, which gained `x`; the
/// justifications of `target` are `blocked_by`; and the truth values are
/// those `target` and propagation from it give.
pub open spec fn set_against(
    old_net: Network,
    fin: Network,
    up: Seq<Node>,
    target: Seq<char>,
    x: String,
    key: Seq<char>,
    changed: Seq<Seq<char>>,
) -> bool {
    let ti = node_idx(fin.tms(), target);
    &&& fin.nodes@.len() == up.len()
    &&& 0 <= ti < up.len()
    &&& up[ti].id@ == target
    &&& forall|k: int| 0 <= k < up.len() && k != ti ==> same_but_truth(#[trigger] fin.nodes@[k], up[k])
    &&& same_text_and_source(fin.nodes@[ti], up[ti])
    &&& fin.nodes@[ti].retracted_at == up[ti].retracted_at
    &&& listed(fin.nodes@[ti].metadata, up[ti].metadata, key, x@)
    &&& blocked_by(fin.justs_named(target), old_net.justs_named(target), target, x)
    &&& forall|k: Seq<char>| k != target ==> #[trigger] fin.justs_named(k) == old_net.justs_named(k)
    &&& forall|a: Seq<char>, y: Seq<char>|
        #[trigger] deps_of(fin.tms(), a).contains(y) <==> names(fin.justifications@, a, y)
    &&& exists|mid: TmsView| {
        &&& mid.nodes == states(up)
        &&& mid.justs == fin.tms().justs
        &&& mid.deps == fin.tms().deps
        &&& refreshed(mid, fin.tms(), target, changed)
    }
}

} // verus!

verus! {

impl Network {
    /// Set `x` against `target`: each justification of `target` gains `x`
    /// in its out-list, or `SL([], [x])` is recorded when it has none; the
    /// dependents index is rebuilt and `target` refreshed (see `refresh`).
    /// Returns the changed nodes.
    pub fn block(&mut self, target: &str, x: &String) -> (changed: Vec<String>)
        ensures
            blocked_by(final(self).justs_named(target@), old(self).justs_named(target@), target@, *x),
            forall|k: Seq<char>| k != target@ ==> #[trigger] final(self).justs_named(k) == old(self).justs_named(k),
            forall|a: Seq<char>, y: Seq<char>|
                #[trigger] deps_of(final(self).tms(), a).contains(y) <==> names(final(self).justifications@, a, y),
            final(self).deps_wf(),
            unique_keys(just_keys(old(self).tms())) ==> unique_keys(just_keys(final(self).tms())),
            old(self).keys_match() ==> final(self).keys_match() && deps_cover(final(self).tms()),
            final(self).nodes@.len() == old(self).nodes@.len(),
            forall|k: int| 0 <= k < old(self).nodes@.len() ==> same_but_truth(#[trigger] final(self).nodes@[k], old(self).nodes@[k]),
            exists|mid: TmsView| {
                &&& mid.nodes == old(self).tms().nodes
                &&& mid.justs == final(self).tms().justs
                &&& mid.deps == final(self).tms().deps
                &&& refreshed(mid, final(self).tms(), target@, views(changed@))
            },
    {
        let has = match self.group_index(target) {
            Some(g) => self.justifications[g].justs.len() > 0,
            None => false,
        };
        proof {
            self.lemma_tms_keys();
        }
        if has {
            self.add_to_outlists(target, x);
        } else {
            let mut outs: Vec<String> = Vec::new();
            outs.push(x.clone());
            let j = Justification::new_sl(owned(target), Vec::new(), outs, String::new());
            assert(old(self).justs_named(target@).len() == 0);
            self.push_justification(target, j);
            assert(self.justs_named(target@) =~= seq![j]);
        }
        let ghost edited = *self;
        self.rebuild_dependents();
        proof {
            self.lemma_tms_keys();
            edited.lemma_tms_keys();
            assert forall|k: Seq<char>| #[trigger] self.justs_named(k) == edited.justs_named(k) by {}
            assert(just_keys(self.tms()) =~= just_keys(edited.tms()));
        }
        let ghost mid = self.tms();
        let ghost rebuilt = *self;
        let changed = self.refresh(target);
        proof {
            assert forall|k: Seq<char>| #[trigger] self.justs_named(k) == rebuilt.justs_named(k) by {}
            assert forall|a: Seq<char>| #[trigger] deps_of(self.tms(), a) == deps_of(mid, a) by {}
            assert(self.tms().justs == mid.justs);
            assert(self.tms().deps == mid.deps);
            assert(just_keys(self.tms()) =~= just_keys(mid));
            assert(mid.nodes =~= old(self).tms().nodes);
            assert(refreshed(mid, self.tms(), target@, views(changed@)));
        }
        changed
    }

    /// Challenge `target_id`: a new IN premise (id `challenge_id`, else
    /// `challenge-` and the target id; text `reason`; metadata
    /// `challenge_target` the target id) is put in the network
    /// and set against the target (see `block`), and the target's metadata
    /// list `challenges` gains its id. Returns the challenge id and the
    /// changed nodes; refused when the target does not exist.
    #[verifier::spinoff_prover]
    pub fn challenge(&mut self, target_id: &str, reason: &str, challenge_id: Option<&str>) -> (r: Result<
        (String, Vec<String>),
        crate::types::TmsError,
    >)
        ensures
            old(self).node(target_id@) is None ==> (r matches Err(crate::types::TmsError::NodeNotFound(t)) && t@
                == target_id@ && *final(self) == *old(self)),
            old(self).node(target_id@) is Some ==> (r matches Ok(out) && {
                let (cid, changed) = out;
                &&& cid@ == challenge_name(target_id@, challenge_id)
                &&& challenged(*old(self), *final(self), target_id@, cid, reason@, views(changed@))
            }),
            old(self).wf() ==> final(self).wf(),
            old(self).keys_match() ==> final(self).keys_match(),
            old(self).keys_match() && r is Ok ==> deps_cover(final(self).tms()),
    {
        if self.node_index(target_id).is_none() {
            return Err(crate::types::TmsError::NodeNotFound(owned(target_id)));
        }
        let cid = match challenge_id {
            Some(c) => owned(c),
            None => cat("challenge-", target_id),
        };
        let mut c = Node::new(cid.clone(), owned(reason));
        set_str(&mut c.metadata, "challenge_target", target_id);
        let ghost cn = c;
        self.upsert_node(c);
        let ghost up_net = *self;
        proof {
            old(self).lemma_tms_keys();
            self.lemma_tms_keys();
            lemma_first_index(node_keys(old(self).tms()), target_id@);
            lemma_first_index(node_keys(old(self).tms()), cn.id@);
            assert(old(self).nodes@.map_values(|m: Node| m.id@) =~= node_keys(old(self).tms()));
            let ti = node_idx(old(self).tms(), target_id@);
            assert(node_keys(old(self).tms())[ti] == target_id@);
            assert(self.nodes@[ti].id@ == target_id@);
            assert(node_keys(self.tms())[ti] == target_id@);
            lemma_first_index(node_keys(self.tms()), target_id@);
            assert forall|k: Seq<char>| #[trigger] self.justs_named(k) == old(self).justs_named(k) by {}
        }
        let changed = self.block(target_id, &cid);
        let ghost blocked = *self;
        let ti = match self.node_index(target_id) {
            Some(i) => i,
            None => {
                proof {
                    self.lemma_tms_keys();
                    up_net.lemma_tms_keys();
                    assert(node_keys(self.tms()) =~= node_keys(up_net.tms()));
                }
                return Err(crate::types::TmsError::NodeNotFound(owned(target_id)));
            },
        };
        push_to_list(&mut self.nodes[ti].metadata, "challenges", &cid);
        proof {
            reveal_strlit("_retracted");
            reveal_strlit("challenges");
            assert(self.nodes@[ti as int].metadata.flag("_retracted"@) == blocked.nodes@[ti as int].metadata.flag(
                "_retracted"@,
            ));
            assert(self.tms().nodes =~= blocked.tms().nodes);
            assert(self.tms() == blocked.tms());
            self.lemma_tms_keys();
            blocked.lemma_tms_keys();
            up_net.lemma_tms_keys();
            assert(node_keys(self.tms()) =~= node_keys(up_net.tms()));
            assert forall|k: Seq<char>| #[trigger] self.justs_named(k) == blocked.justs_named(k) by {}
            let mid = choose|mid: TmsView| {
                &&& mid.nodes == up_net.tms().nodes
                &&& mid.justs == blocked.tms().justs
                &&& mid.deps == blocked.tms().deps
                &&& refreshed(mid, blocked.tms(), target_id@, views(changed@))
            };
            assert(states(up_net.nodes@) =~= up_net.tms().nodes);
            assert(upserted(old(self).nodes@, cn) == up_net.nodes@);
            assert(made_challenge(cn, cid, reason@, target_id@));
            assert(set_against(*old(self), *self, upserted(old(self).nodes@, cn), target_id@, cid, "challenges"@, views(changed@)));
            assert(challenged(*old(self), *self, target_id@, cid, reason@, views(changed@)));
            if old(self).wf() {
                assert(unique_keys(node_keys(up_net.tms())));
                assert(unique_keys(just_keys(up_net.tms())));
                assert(up_net.deps_wf());
                assert(blocked.deps_wf());
                assert(self.deps_wf()) by {
                    assert(self.tms().deps == blocked.tms().deps);
                    assert(self.dependents == blocked.dependents);
                }
            }
        }
        Ok((cid, changed))
    }
}

} // verus!

verus! {

/// The id of a defense: the one given, else `defense-` and the challenge.
pub open spec fn defense_name(challenge: Seq<char>, given: Option<&str>) -> Seq<char> {
    match given {
        Some(d) => d@,
        None => "defense-"@ + challenge,
    }
}

/// The metadata of a node after `superseded_by` is set to `by`, when
/// `is_old`.
pub open spec fn old_step(m: JsonValue, orig: JsonValue, is_old: bool, by: Seq<char>) -> bool {
    if is_old {
        keyed(m, orig, "superseded_by"@, by)
    } else {
        m == orig
    }
}

/// The metadata of a node after `of` is added to its `supersedes` list,
/// when `is_new`.
pub open spec fn new_step(fin: JsonValue, m: JsonValue, is_new: bool, of: Seq<char>) -> bool {
    if is_new {
        listed(fin, m, "supersedes"@, of)
    } else {
        fin == m
    }
}

/// The metadata of a node whose metadata may have been revised by a
/// supersession: first `old_step`, then `new_step`.
pub open spec fn supersede_meta(
    fin: JsonValue,
    orig: JsonValue,
    is_old: bool,
    is_new: bool,
    of: Seq<char>,
    by: Seq<char>,
) -> bool {
    exists|m: JsonValue| #[trigger] old_step(m, orig, is_old, by) && new_step(fin, m, is_new, of)
}

/// `fin` is `old_net` after `new_id` supersedes `old_id`: `new_id` is set
/// against `old_id` (see `block`), `old_id` records `superseded_by` and
/// `new_id` adds `old_id` to its `supersedes` list.
pub open spec fn superseded(
    old_net: Network,
    fin: Network,
    old_id: Seq<char>,
    new_id: Seq<char>,
    changed: Seq<Seq<char>>,
) -> bool {
    let oi = node_idx(old_net.tms(), old_id);
    let ni = node_idx(old_net.tms(), new_id);
    &&& fin.nodes@.len() == old_net.nodes@.len()
    &&& forall|k: int|
        0 <= k < old_net.nodes@.len() ==> {
            &&& same_text_and_source(#[trigger] fin.nodes@[k], old_net.nodes@[k])
            &&& fin.nodes@[k].retracted_at == old_net.nodes@[k].retracted_at
            &&& supersede_meta(fin.nodes@[k].metadata, old_net.nodes@[k].metadata, k == oi, k == ni, old_id, new_id)
        }
    &&& exists|x: String| x@ == new_id && blocked_by(fin.justs_named(old_id), old_net.justs_named(old_id), old_id, x)
    &&& forall|k: Seq<char>| k != old_id ==> #[trigger] fin.justs_named(k) == old_net.justs_named(k)
    &&& forall|a: Seq<char>, y: Seq<char>|
        #[trigger] deps_of(fin.tms(), a).contains(y) <==> names(fin.justifications@, a, y)
    &&& exists|mid: TmsView| {
        &&& mid.nodes == old_net.tms().nodes
        &&& mid.justs == fin.tms().justs
        &&& mid.deps == fin.tms().deps
        &&& refreshed(mid, fin.tms(), old_id, changed)
    }
}

/// `fin` is `old_net` after defense `did` (text `reason`) of `target`
/// against `challenge`: the challenge is challenged by `did` (see
/// `challenged`), and the defense's metadata then records
/// `defense_target` and `defends`.
pub open spec fn defended(
    old_net: Network,
    fin: Network,
    target: Seq<char>,
    challenge: Seq<char>,
    did: String,
    reason: Seq<char>,
    changed: Seq<Seq<char>>,
) -> bool {
    let di = node_idx(fin.tms(), did@);
    exists|mid: Network| {
        &&& challenged(old_net, mid, challenge, did, reason, changed)
        &&& 0 <= di < mid.nodes@.len()
        &&& fin.justifications == mid.justifications
        &&& fin.dependents == mid.dependents
        &&& fin.nodes@ == mid.nodes@.update(di, Node { metadata: fin.nodes@[di].metadata, ..mid.nodes@[di] })
        &&& exists|m: JsonValue|
            keyed(m, mid.nodes@[di].metadata, "defense_target"@, target) && keyed(
                fin.nodes@[di].metadata,
                m,
                "defends"@,
                challenge,
            )
    }
}

impl Network {
    /// Defend against challenge `challenge_id` of `target_id`: the
    /// challenge is itself challenged by a new premise (id `defense_id`,
    /// else `defense-` and the challenge id; text `reason`), whose metadata
    /// then records `defense_target` and `defends`. Returns the defense id
    /// and the changed nodes; refused when the challenge does not exist.
    pub fn defend(&mut self, target_id: &str, challenge_id: &str, reason: &str, defense_id: Option<&str>) -> (r: Result<
        (String, Vec<String>),
        crate::types::TmsError,
    >)
        ensures
            old(self).node(challenge_id@) is None ==> (r matches Err(crate::types::TmsError::NodeNotFound(t)) && t@
                == challenge_id@ && *final(self) == *old(self)),
            old(self).node(challenge_id@) is Some ==> (r matches Ok(out) && {
                let (did, changed) = out;
                &&& did@ == defense_name(challenge_id@, defense_id)
                &&& defended(*old(self), *final(self), target_id@, challenge_id@, did, reason@, views(changed@))
            }),
            old(self).wf() ==> final(self).wf(),
            old(self).keys_match() ==> final(self).keys_match(),
            old(self).keys_match() && r is Ok ==> deps_cover(final(self).tms()),
    {
        let did = match defense_id {
            Some(d) => owned(d),
            None => cat("defense-", challenge_id),
        };
        let r = self.challenge(challenge_id, reason, Some(did.as_str()));
        match r {
            Err(e) => Err(e),
            Ok((did2, changed)) => {
                let ghost mid = *self;
                let di = match self.node_index(did2.as_str()) {
                    Some(i) => i,
                    None => {
                        proof {
                            let c = choose|c: Node|
                                made_challenge(c, did2, reason@, challenge_id@) && set_against(
                                    *old(self),
                                    mid,
                                    upserted(old(self).nodes@, c),
                                    challenge_id@,
                                    did2,
                                    "challenges"@,
                                    views(changed@),
                                );
                            let up = upserted(old(self).nodes@, c);
                            old(self).lemma_tms_keys();
                            mid.lemma_tms_keys();
                            assert(old(self).nodes@.map_values(|m: Node| m.id@) =~= node_keys(old(self).tms()));
                            lemma_first_index(node_keys(old(self).tms()), c.id@);
                            let ci = first_index(old(self).nodes@.map_values(|m: Node| m.id@), c.id@);
                            let k = if ci >= 0 { ci } else { old(self).nodes@.len() as int };
                            assert(up[k] == c);
                            assert(mid.nodes@[k].id == up[k].id);
                            assert(node_keys(mid.tms())[k] == did2@);
                            lemma_first_index(node_keys(mid.tms()), did2@);
                        }
                        return Err(crate::types::TmsError::NodeNotFound(did2));
                    },
                };
                set_str(&mut self.nodes[di].metadata, "defense_target", target_id);
                let ghost m1 = self.nodes@[di as int].metadata;
                set_str(&mut self.nodes[di].metadata, "defends", challenge_id);
                proof {
                    reveal_strlit("_retracted");
                    reveal_strlit("defense_target");
                    reveal_strlit("defends");
                    self.lemma_tms_keys();
                    mid.lemma_tms_keys();
                    assert(node_keys(self.tms()) =~= node_keys(mid.tms()));
                    assert(self.nodes@ =~= mid.nodes@.update(
                        di as int,
                        Node { metadata: self.nodes@[di as int].metadata, ..mid.nodes@[di as int] },
                    ));
                    assert("_retracted"@.len() != "defends"@.len());
                    assert("_retracted"@.len() != "defense_target"@.len());
                    assert(self.nodes@[di as int].metadata.spec_get("_retracted"@) == m1.spec_get("_retracted"@));
                    assert(m1.spec_get("_retracted"@) == mid.nodes@[di as int].metadata.spec_get("_retracted"@));
                    assert(self.nodes@[di as int].metadata.flag("_retracted"@) == mid.nodes@[di as int].metadata.flag(
                        "_retracted"@,
                    ));
                    assert(keyed(m1, mid.nodes@[di as int].metadata, "defense_target"@, target_id@));
                    assert(self.tms().nodes =~= mid.tms().nodes);
                    assert(self.tms() == mid.tms());
                    if old(self).wf() {
                        assert(self.deps_wf());
                    }
                    let fin = *self;
                    assert(defended(*old(self), fin, target_id@, challenge_id@, did2, reason@, views(changed@)));
                }
                Ok((did2, changed))
            },
        }
    }

    /// Supersede `old_id` by `new_id`: `new_id` is set against `old_id`
    /// (see `block`), `old_id` records `superseded_by` and `new_id` adds
    /// `old_id` to its `supersedes` list. Returns the changed nodes;
    /// refused when either node does not exist.
    #[verifier::spinoff_prover]
    pub fn supersede(&mut self, old_id: &str, new_id: &str) -> (r: Result<Vec<String>, crate::types::TmsError>)
        ensures
            old(self).node(old_id@) is None ==> (r matches Err(crate::types::TmsError::NodeNotFound(t)) && t@ == old_id@
                && *final(self) == *old(self)),
            old(self).node(old_id@) is Some && old(self).node(new_id@) is None ==> (r matches Err(
                crate::types::TmsError::NodeNotFound(t),
            ) && t@ == new_id@ && *final(self) == *old(self)),
            old(self).node(old_id@) is Some && old(self).node(new_id@) is Some ==> (r matches Ok(changed)
                && superseded(*old(self), *final(self), old_id@, new_id@, views(changed@))),
            old(self).wf() ==> final(self).wf(),
            old(self).keys_match() ==> final(self).keys_match(),
            old(self).keys_match() && r is Ok ==> deps_cover(final(self).tms()),
    {
        let oi = match self.node_index(old_id) {
            Some(i) => i,
            None => {
                return Err(crate::types::TmsError::NodeNotFound(owned(old_id)));
            },
        };
        let ni = match self.node_index(new_id) {
            Some(i) => i,
            None => {
                return Err(crate::types::TmsError::NodeNotFound(owned(new_id)));
            },
        };
        let x = owned(new_id);
        let changed = self.block(old_id, &x);
        let ghost blocked = *self;
        proof {
            self.lemma_tms_keys();
            old(self).lemma_tms_keys();
        }
        set_str(&mut self.nodes[oi].metadata, "superseded_by", new_id);
        let ghost after_old = *self;
        proof {
            assert(after_old.nodes@ =~= blocked.nodes@.update(
                oi as int,
                Node { metadata: after_old.nodes@[oi as int].metadata, ..blocked.nodes@[oi as int] },
            ));
        }
        push_to_list(&mut self.nodes[ni].metadata, "supersedes", &owned(old_id));
        proof {
            assert(self.nodes@ =~= after_old.nodes@.update(
                ni as int,
                Node { metadata: self.nodes@[ni as int].metadata, ..after_old.nodes@[ni as int] },
            ));
        }
        proof {
            reveal_strlit("_retracted");
            reveal_strlit("superseded_by");
            reveal_strlit("supersedes");
            self.lemma_tms_keys();
            blocked.lemma_tms_keys();
            assert forall|k: int| 0 <= k < old(self).nodes@.len() implies {
                &&& same_text_and_source(#[trigger] self.nodes@[k], old(self).nodes@[k])
                &&& self.nodes@[k].retracted_at == old(self).nodes@[k].retracted_at
                &&& supersede_meta(
                    self.nodes@[k].metadata,
                    old(self).nodes@[k].metadata,
                    k == oi,
                    k == ni,
                    old_id@,
                    new_id@,
                )
            } by {
                assert(same_but_truth(blocked.nodes@[k], old(self).nodes@[k]));
                let m = after_old.nodes@[k].metadata;
                assert(old_step(m, old(self).nodes@[k].metadata, k == oi, new_id@));
                assert(new_step(self.nodes@[k].metadata, m, k == ni, old_id@));
            }
            assert("_retracted"@.len() != "superseded_by"@.len());
            assert("_retracted"@ != "supersedes"@) by {
                assert("_retracted"@[0] != "supersedes"@[0]);
            }
            assert forall|k: int| 0 <= k < old(self).nodes@.len() implies #[trigger] self.nodes@[k].state()
                == blocked.nodes@[k].state() by {
                let m = after_old.nodes@[k].metadata;
                assert(self.nodes@[k].metadata.spec_get("_retracted"@) == m.spec_get("_retracted"@));
                assert(m.spec_get("_retracted"@) == blocked.nodes@[k].metadata.spec_get("_retracted"@));
                assert(self.nodes@[k].metadata.flag("_retracted"@) == blocked.nodes@[k].metadata.flag("_retracted"@));
            }
            assert(self.tms().nodes =~= blocked.tms().nodes);
            assert(self.tms() == blocked.tms());
            assert forall|k: Seq<char>| #[trigger] self.justs_named(k) == blocked.justs_named(k) by {}
            assert(node_keys(self.tms()) =~= node_keys(old(self).tms()));
            if old(self).wf() {
                assert(self.deps_wf());
            }
            assert(x@ == new_id@ && blocked_by(self.justs_named(old_id@), old(self).justs_named(old_id@), old_id@, x));
            let mid = choose|mid: TmsView| {
                &&& mid.nodes == old(self).tms().nodes
                &&& mid.justs == blocked.tms().justs
                &&& mid.deps == blocked.tms().deps
                &&& refreshed(mid, blocked.tms(), old_id@, views(changed@))
            };
            assert(mid.justs == self.tms().justs && mid.deps == self.tms().deps && refreshed(
                mid,
                self.tms(),
                old_id@,
                views(changed@),
            ));
            assert(superseded(*old(self), *self, old_id@, new_id@, views(changed@)));
        }
        Ok(changed)
    }
}

} // verus!

verus! {

/// `n` stands in `upserted(ns, n)` at the first position of its id.
pub proof fn lemma_upserted_at(ns: Seq<Node>, n: Node)
    ensures
        ({
            let u = upserted(ns, n);
            let f = first_index(u.map_values(|m: Node| m.id@), n.id@);
            0 <= f < u.len() && u[f] == n
        }),
{
    let ks = ns.map_values(|m: Node| m.id@);
    let u = upserted(ns, n);
    let uk = u.map_values(|m: Node| m.id@);
    lemma_first_index(ks, n.id@);
    let i = first_index(ks, n.id@);
    if i >= 0 {
        assert(uk =~= ks.update(i, n.id@));
        assert forall|j: int| 0 <= j < i implies uk[j] != n.id@ by {
            assert(uk[j] == ks[j]);
        }
        lemma_first_index_at(uk, n.id@, i);
    } else {
        assert(uk =~= ks.push(n.id@));
        lemma_first_index_push(ks, n.id@, n.id@);
    }
}

/// The justifications truth maintenance reads for `id` are those recorded
/// for it.
pub proof fn lemma_justs_seen(net: Network, id: Seq<char>)
    ensures
        justs_of(net.tms(), id) == net.justs_named(id).map_values(|j: Justification| j.jview()),
{
    net.lemma_tms_keys();
    let g = first_index(just_keys(net.tms()), id);
    lemma_first_index(just_keys(net.tms()), id);
    if g < 0 {
        assert(net.justs_named(id).map_values(|j: Justification| j.jview()) =~= Seq::<JustView>::empty());
    }
}

/// A challenge turns its target OUT and stands IN itself: after
/// challenge `cid` is set against `target`, every justification of the
/// target needs `cid` OUT while `cid` is an IN premise. This holds
/// whenever the challenge id is not the target's own and names no node
/// with justifications of its own.
pub proof fn law_challenge_outs_target(
    old_net: Network,
    fin: Network,
    target: Seq<char>,
    cid: String,
    reason: Seq<char>,
    changed: Seq<Seq<char>>,
)
    requires
        challenged(old_net, fin, target, cid, reason, changed),
        cid@ != target,
        old_net.justs_named(cid@).len() == 0,
    ensures
        fin.node(target) matches Some(n) && n.truth_value@ == "OUT"@,
        fin.node(cid@) matches Some(n) && n.truth_value@ == "IN"@,
{
    let c = choose|c: Node|
        made_challenge(c, cid, reason, target) && set_against(
            old_net,
            fin,
            upserted(old_net.nodes@, c),
            target,
            cid,
            "challenges"@,
            changed,
        );
    let up = upserted(old_net.nodes@, c);
    let mid = choose|mid: TmsView| {
        &&& mid.nodes == states(up)
        &&& mid.justs == fin.tms().justs
        &&& mid.deps == fin.tms().deps
        &&& refreshed(mid, fin.tms(), target, changed)
    };
    let ft = fin.tms();
    fin.lemma_tms_keys();
    let upk = up.map_values(|m: Node| m.id@);
    assert(node_keys(mid) =~= upk);
    let ti = node_idx(ft, target);
    assert forall|k: int| 0 <= k < up.len() implies #[trigger] node_keys(ft)[k] == upk[k] by {
        if k != ti {
            assert(same_but_truth(fin.nodes@[k], up[k]));
        }
    }
    assert(node_keys(ft) =~= upk);
    lemma_upserted_at(old_net.nodes@, c);
    let ci = node_idx(mid, cid@);
    assert(0 <= ci < up.len() && up[ci] == c);
    assert(mid.nodes[ci].truth == c.truth_value@);
    assert(node_idx(mid, target) == ti);
    assert(just_keys(mid) == just_keys(ft));
    assert forall|x: Seq<char>| #[trigger] justs_of(mid, x) == justs_of(ft, x) by {}
    lemma_justs_seen(fin, cid@);
    lemma_justs_seen(fin, target);
    assert(fin.justs_named(cid@) == old_net.justs_named(cid@));
    let nj = fin.justs_named(target);
    let oj = old_net.justs_named(target);
    assert(blocked_by(nj, oj, target, cid));
    assert forall|k: int| 0 <= k < justs_of(mid, target).len() implies (#[trigger] justs_of(
        mid,
        target,
    )[k]).outs.contains(cid@) by {
        assert(justs_of(mid, target)[k] == nj[k].jview());
        if oj.len() == 0 {
            assert(views(nj[k].outlist@) =~= seq![cid@]);
            assert(seq![cid@][0] == cid@);
        } else {
            assert(with_out(nj[k], oj[k], cid));
            if !views(oj[k].outlist@).contains(cid@) {
                assert(views(nj[k].outlist@) =~= views(oj[k].outlist@).push(cid@));
                assert(views(nj[k].outlist@)[views(oj[k].outlist@).len() as int] == cid@);
            }
        }
    }
    assert(crate::laws::blocks(mid, cid@, target));
    crate::laws::lemma_held_compute(mid, cid@, target);
    lemma_first_index(node_keys(mid), cid@);
    lemma_first_index(node_keys(mid), target);
    if mid.nodes[ti].truth != compute(mid, target) {
        let s0 = set_truth(mid, ti, compute(mid, target));
        crate::laws::lemma_set_held(mid, cid@, target, ti, compute(mid, target));
        assert(crate::laws::held_out(s0, cid@, target));
        crate::laws::lemma_bfs_held(crate::model::bfs_init(s0, target), cid@, target, crate::model::step_cap());
        assert(ft == propagation(s0, target).net);
    } else {
        assert(ft == mid);
    }
    assert(crate::laws::held_out(ft, cid@, target));
    assert(ft.nodes[ti].truth == fin.nodes@[ti].truth_value@);
    assert(node_idx(ft, cid@) == ci);
    assert(ft.nodes[ci].truth == fin.nodes@[ci].truth_value@);
}

} // verus!

verus! {

/// A defense turns the challenge OUT and stands IN itself, whenever the
/// defense id is not the challenge's own and names no node with
/// justifications of its own.
pub proof fn law_defense_outs_challenge(
    old_net: Network,
    fin: Network,
    target: Seq<char>,
    challenge: Seq<char>,
    did: String,
    reason: Seq<char>,
    changed: Seq<Seq<char>>,
)
    requires
        defended(old_net, fin, target, challenge, did, reason, changed),
        did@ != challenge,
        old_net.justs_named(did@).len() == 0,
    ensures
        fin.node(challenge) matches Some(n) && n.truth_value@ == "OUT"@,
        fin.node(did@) matches Some(n) && n.truth_value@ == "IN"@,
{
    let di = node_idx(fin.tms(), did@);
    let mid = choose|mid: Network| {
        &&& challenged(old_net, mid, challenge, did, reason, changed)
        &&& 0 <= di < mid.nodes@.len()
        &&& fin.justifications == mid.justifications
        &&& fin.dependents == mid.dependents
        &&& fin.nodes@ == mid.nodes@.update(di, Node { metadata: fin.nodes@[di].metadata, ..mid.nodes@[di] })
        &&& exists|m: JsonValue|
            keyed(m, mid.nodes@[di].metadata, "defense_target"@, target) && keyed(
                fin.nodes@[di].metadata,
                m,
                "defends"@,
                challenge,
            )
    };
    law_challenge_outs_target(old_net, mid, challenge, did, reason, changed);
    fin.lemma_tms_keys();
    mid.lemma_tms_keys();
    assert(node_keys(fin.tms()) =~= node_keys(mid.tms()));
    let ci = node_idx(mid.tms(), challenge);
    lemma_first_index(node_keys(mid.tms()), challenge);
    lemma_first_index(node_keys(mid.tms()), did@);
    if ci != di {
        assert(fin.nodes@[ci] == mid.nodes@[ci]);
    }
}

} // verus!

verus! {

/// Supersession turns the old belief OUT: after `new_id` supersedes
/// `old_id`, where `new_id` was an IN premise other than `old_id`, the
/// old belief is OUT and the new one still IN.
pub proof fn law_supersede_outs_old(
    old_net: Network,
    fin: Network,
    old_id: Seq<char>,
    new_id: Seq<char>,
    changed: Seq<Seq<char>>,
)
    requires
        superseded(old_net, fin, old_id, new_id, changed),
        old_id != new_id,
        old_net.node(old_id) is Some,
        old_net.node(new_id) matches Some(n) && n.truth_value@ == "IN"@,
        old_net.justs_named(new_id).len() == 0,
    ensures
        fin.node(old_id) matches Some(n) && n.truth_value@ == "OUT"@,
        fin.node(new_id) matches Some(n) && n.truth_value@ == "IN"@,
{
    let mid = choose|mid: TmsView| {
        &&& mid.nodes == old_net.tms().nodes
        &&& mid.justs == fin.tms().justs
        &&& mid.deps == fin.tms().deps
        &&& refreshed(mid, fin.tms(), old_id, changed)
    };
    let x = choose|x: String| x@ == new_id && blocked_by(fin.justs_named(old_id), old_net.justs_named(old_id), old_id, x);
    let ft = fin.tms();
    fin.lemma_tms_keys();
    old_net.lemma_tms_keys();
    assert forall|k: int| 0 <= k < fin.nodes@.len() implies #[trigger] node_keys(ft)[k] == node_keys(mid)[k] by {
        assert(same_text_and_source(fin.nodes@[k], old_net.nodes@[k]));
    }
    assert(node_keys(ft) =~= node_keys(mid));
    assert(just_keys(mid) == just_keys(ft));
    assert forall|y: Seq<char>| #[trigger] justs_of(mid, y) == justs_of(ft, y) by {}
    lemma_justs_seen(fin, new_id);
    lemma_justs_seen(fin, old_id);
    let nj = fin.justs_named(old_id);
    let oj = old_net.justs_named(old_id);
    assert forall|k: int| 0 <= k < justs_of(mid, old_id).len() implies (#[trigger] justs_of(
        mid,
        old_id,
    )[k]).outs.contains(new_id) by {
        assert(justs_of(mid, old_id)[k] == nj[k].jview());
        if oj.len() == 0 {
            assert(views(nj[k].outlist@) =~= seq![new_id]);
            assert(seq![new_id][0] == new_id);
        } else {
            assert(with_out(nj[k], oj[k], x));
            if !views(oj[k].outlist@).contains(new_id) {
                assert(views(nj[k].outlist@) =~= views(oj[k].outlist@).push(new_id));
                assert(views(nj[k].outlist@)[views(oj[k].outlist@).len() as int] == new_id);
            }
        }
    }
    let ti = node_idx(mid, old_id);
    let ni = node_idx(mid, new_id);
    lemma_first_index(node_keys(mid), new_id);
    lemma_first_index(node_keys(mid), old_id);
    assert(mid.nodes[ni].truth == old_net.nodes@[ni].truth_value@);
    assert(crate::laws::blocks(mid, new_id, old_id));
    crate::laws::lemma_held_compute(mid, new_id, old_id);
    if mid.nodes[ti].truth != compute(mid, old_id) {
        let s0 = set_truth(mid, ti, compute(mid, old_id));
        crate::laws::lemma_set_held(mid, new_id, old_id, ti, compute(mid, old_id));
        assert(crate::laws::held_out(s0, new_id, old_id));
        crate::laws::lemma_bfs_held(crate::model::bfs_init(s0, old_id), new_id, old_id, crate::model::step_cap());
        assert(ft == propagation(s0, old_id).net);
    } else {
        assert(ft == mid);
    }
    assert(crate::laws::held_out(ft, new_id, old_id));
    assert(ft.nodes[ti].truth == fin.nodes@[ti].truth_value@);
    assert(ft.nodes[ni].truth == fin.nodes@[ni].truth_value@);
}

} // verus!

verus! {

/// The justifications are one that needs nothing IN and only `c` OUT:
/// what a challenge `c` leaves on a premise.
pub open spec fn held_only_by(js: Seq<Justification>, c: Seq<char>) -> bool {
    &&& js.len() == 1
    &&& js[0].antecedents@.len() == 0
    &&& views(js[0].outlist@) == seq![c]
}

/// A defense restores a challenged premise: when the challenge was IN and
/// the target, not retracted, was held OUT by that challenge alone, the
/// target is IN after the defense.
pub proof fn law_defense_restores_target(
    old_net: Network,
    fin: Network,
    target: Seq<char>,
    challenge: Seq<char>,
    did: String,
    reason: Seq<char>,
    changed: Seq<Seq<char>>,
)
    requires
        defended(old_net, fin, target, challenge, did, reason, changed),
        did@ != challenge,
        did@ != target,
        target != challenge,
        old_net.keys_match(),
        old_net.justs_named(did@).len() == 0,
        old_net.node(challenge) matches Some(n) && n.truth_value@ == "IN"@,
        old_net.node(target) matches Some(n) && !n.metadata.flag("_retracted"@),
        held_only_by(old_net.justs_named(target), challenge),
    ensures
        fin.node(target) matches Some(n) && n.truth_value@ == "IN"@,
{
    let di = node_idx(fin.tms(), did@);
    let mid = choose|mid: Network| {
        &&& challenged(old_net, mid, challenge, did, reason, changed)
        &&& 0 <= di < mid.nodes@.len()
        &&& fin.justifications == mid.justifications
        &&& fin.dependents == mid.dependents
        &&& fin.nodes@ == mid.nodes@.update(di, Node { metadata: fin.nodes@[di].metadata, ..mid.nodes@[di] })
        &&& exists|m: JsonValue|
            keyed(m, mid.nodes@[di].metadata, "defense_target"@, target) && keyed(
                fin.nodes@[di].metadata,
                m,
                "defends"@,
                challenge,
            )
    };
    let c = choose|c: Node|
        made_challenge(c, did, reason, challenge) && set_against(
            old_net,
            mid,
            upserted(old_net.nodes@, c),
            challenge,
            did,
            "challenges"@,
            changed,
        );
    let up = upserted(old_net.nodes@, c);
    let m = choose|m: TmsView| {
        &&& m.nodes == states(up)
        &&& m.justs == mid.tms().justs
        &&& m.deps == mid.tms().deps
        &&& refreshed(m, mid.tms(), challenge, changed)
    };
    let mt = mid.tms();
    mid.lemma_tms_keys();
    fin.lemma_tms_keys();
    old_net.lemma_tms_keys();
    // keys: fin, mid, m and up agree
    let upk = up.map_values(|x: Node| x.id@);
    assert(node_keys(m) =~= upk);
    let chi = node_idx(mt, challenge);
    assert forall|k: int| 0 <= k < up.len() implies #[trigger] node_keys(mt)[k] == upk[k] by {
        if k != chi {
            assert(same_but_truth(mid.nodes@[k], up[k]));
        }
    }
    assert(node_keys(mt) =~= upk);
    assert(node_keys(fin.tms()) =~= node_keys(mt));
    // where the defense, the challenge and the target stand
    lemma_upserted_at(old_net.nodes@, c);
    let ci = node_idx(m, did@);
    assert(0 <= ci < up.len() && up[ci] == c);
    let ok = old_net.nodes@.map_values(|x: Node| x.id@);
    assert(ok =~= node_keys(old_net.tms()));
    lemma_first_index(ok, did@);
    lemma_first_index(ok, challenge);
    lemma_first_index(ok, target);
    lemma_first_index(upk, challenge);
    lemma_first_index(upk, target);
    lemma_first_index(upk, did@);
    let oc = node_idx(old_net.tms(), challenge);
    let ot = node_idx(old_net.tms(), target);
    let od = first_index(ok, did@);
    assert(node_idx(m, challenge) == chi);
    let ti = node_idx(m, target);
    if od >= 0 {
        assert(up == old_net.nodes@.update(od, c));
        assert(upk =~= ok.update(od, did@));
        assert(upk[oc] == challenge);
        assert forall|j: int| 0 <= j < oc implies upk[j] != challenge by {
            if j != od {
                assert(upk[j] == ok[j]);
            }
        }
        lemma_first_index_at(upk, challenge, oc);
        assert(upk[ot] == target);
        assert forall|j: int| 0 <= j < ot implies upk[j] != target by {
            if j != od {
                assert(upk[j] == ok[j]);
            }
        }
        lemma_first_index_at(upk, target, ot);
    } else {
        assert(up == old_net.nodes@.push(c));
        assert(upk =~= ok.push(did@));
        lemma_first_index_push(ok, did@, challenge);
        lemma_first_index_push(ok, did@, target);
    }
    assert(chi == oc && ti == ot);
    assert(up[chi] == old_net.nodes@[oc]);
    assert(up[ti] == old_net.nodes@[ot]);
    assert(m.nodes[chi].truth == "IN"@);
    // justifications as truth maintenance reads them
    assert(just_keys(m) == just_keys(mt));
    assert forall|x: Seq<char>| #[trigger] justs_of(m, x) == justs_of(mt, x) by {}
    lemma_justs_seen(mid, did@);
    lemma_justs_seen(mid, challenge);
    lemma_justs_seen(mid, target);
    assert(mid.justs_named(did@) == old_net.justs_named(did@));
    assert(mid.justs_named(target) == old_net.justs_named(target));
    let nj = mid.justs_named(challenge);
    let oj = old_net.justs_named(challenge);
    assert forall|k: int| 0 <= k < justs_of(m, challenge).len() implies (#[trigger] justs_of(
        m,
        challenge,
    )[k]).outs.contains(did@) by {
        assert(justs_of(m, challenge)[k] == nj[k].jview());
        if oj.len() == 0 {
            assert(views(nj[k].outlist@) =~= seq![did@]);
            assert(seq![did@][0] == did@);
        } else {
            assert(with_out(nj[k], oj[k], did));
            if !views(oj[k].outlist@).contains(did@) {
                assert(views(nj[k].outlist@) =~= views(oj[k].outlist@).push(did@));
                assert(views(nj[k].outlist@)[views(oj[k].outlist@).len() as int] == did@);
            }
        }
    }
    assert(m.nodes[ci].truth == c.truth_value@);
    assert(crate::laws::blocks(m, did@, challenge));
    crate::laws::lemma_held_compute(m, did@, challenge);
    // the target is held by the challenge alone, and depends on it
    let tj = old_net.justs_named(target);
    assert(justs_of(m, target) =~= seq![JustView { ants: Seq::empty(), outs: seq![challenge] }]) by {
        assert(justs_of(m, target)[0] == tj[0].jview());
        assert(views(tj[0].antecedents@) =~= Seq::<Seq<char>>::empty());
    }
    assert(!m.nodes[ti].retracted);
    assert(crate::laws::freed(m, challenge, target));
    let tg = first_index(just_keys(old_net.tms()), target);
    lemma_first_index(just_keys(old_net.tms()), target);
    assert(old_net.justifications@[tg].justs@[0].node_id@ == target);
    assert(tj[0].jview().outs[0] == challenge);
    assert(crate::model::mentions(tj[0].jview(), challenge));
    let mg = first_index(just_keys(mt), target);
    lemma_first_index(just_keys(mt), target);
    assert(mid.justifications@[mg].justs@[0] == tj[0]);
    assert(names(mid.justifications@, challenge, target));
    assert(deps_of(mt, challenge).contains(target));
    // the challenge falls, and propagation restores the target
    let v1 = set_truth(m, chi, compute(m, challenge));
    assert(m.nodes[chi].truth != compute(m, challenge)) by {
        reveal_strlit("IN");
        reveal_strlit("OUT");
        assert("IN"@.len() != "OUT"@.len());
    }
    crate::laws::lemma_set_held(m, did@, challenge, chi, compute(m, challenge));
    crate::laws::lemma_set_freed(m, challenge, target, chi, compute(m, challenge));
    assert(crate::laws::held_out(v1, did@, challenge));
    assert(deps_of(v1, challenge) == deps_of(m, challenge));
    assert(mt == propagation(v1, challenge).net);
    crate::laws::lemma_bfs_restore(v1, challenge, target, did@, crate::model::step_cap());
    assert(node_idx(v1, target) == ti) by {
        assert(node_keys(v1) =~= node_keys(m));
    }
    assert(mt.nodes[ti].truth == "IN"@);
    assert(ti != di);
    assert(fin.nodes@[ti] == mid.nodes@[ti]);
    assert(fin.tms().nodes[ti].truth == mt.nodes[ti].truth);
}

} // verus!

verus! {

/// Supersession is undone by retracting the new belief: when `new_id`
/// superseded `old_id`, an unretracted premise, retracting `new_id` brings
/// `old_id` back IN. The new belief is a premise, or has metadata that can
/// record the retraction (an object), so that it stays OUT.
pub proof fn law_retraction_restores_superseded(
    old_net: Network,
    fin: Network,
    after: Network,
    old_id: Seq<char>,
    new_id: Seq<char>,
    changed: Seq<Seq<char>>,
)
    requires
        superseded(old_net, fin, old_id, new_id, changed),
        Network::retraction(fin, after, new_id),
        old_id != new_id,
        old_net.node(old_id) matches Some(n) && !n.metadata.flag("_retracted"@),
        old_net.node(new_id) is Some,
        old_net.justs_named(old_id).len() == 0,
        old_net.justs_named(new_id).len() == 0 || (old_net.node(new_id) matches Some(n) && n.metadata is Object),
    ensures
        after.node(old_id) matches Some(n) && n.truth_value@ == "IN"@,
{
    let ft = fin.tms();
    let ot = old_net.tms();
    fin.lemma_tms_keys();
    old_net.lemma_tms_keys();
    after.lemma_tms_keys();
    assert forall|k: int| 0 <= k < fin.nodes@.len() implies #[trigger] node_keys(ft)[k] == node_keys(ot)[k] by {
        assert(same_text_and_source(fin.nodes@[k], old_net.nodes@[k]));
    }
    assert(node_keys(ft) =~= node_keys(ot));
    lemma_first_index(node_keys(ot), old_id);
    lemma_first_index(node_keys(ot), new_id);
    let ti = node_idx(ft, old_id);
    let ni = node_idx(ft, new_id);
    assert(ti >= 0 && ni >= 0 && ti != ni);
    // the old belief keeps its unretracted metadata
    reveal_strlit("_retracted");
    reveal_strlit("superseded_by");
    assert("_retracted"@.len() != "superseded_by"@.len());
    assert(node_idx(ot, old_id) == ti && node_idx(ot, new_id) == ni);
    assert(supersede_meta(fin.nodes@[ti].metadata, old_net.nodes@[ti].metadata, true, false, old_id, new_id));
    let m = choose|m: JsonValue|
        #[trigger] old_step(m, old_net.nodes@[ti].metadata, true, new_id) && new_step(
            fin.nodes@[ti].metadata,
            m,
            false,
            old_id,
        );
    assert(fin.nodes@[ti].metadata.spec_get("_retracted"@) == old_net.nodes@[ti].metadata.spec_get("_retracted"@));
    assert(!ft.nodes[ti].retracted);
    // its one justification needs only the new belief OUT
    let x = choose|x: String| x@ == new_id && blocked_by(fin.justs_named(old_id), old_net.justs_named(old_id), old_id, x);
    let nj = fin.justs_named(old_id);
    assert(only_blocker(nj, old_id, x));
    lemma_justs_seen(fin, old_id);
    lemma_justs_seen(fin, new_id);
    assert(justs_of(ft, old_id) =~= seq![JustView { ants: Seq::empty(), outs: seq![new_id] }]) by {
        assert(justs_of(ft, old_id)[0] == nj[0].jview());
        assert(views(nj[0].antecedents@) =~= Seq::<Seq<char>>::empty());
        assert(views(nj[0].outlist@) =~= seq![new_id]);
    }
    assert(fin.justs_named(new_id) == old_net.justs_named(new_id));
    // the new belief is a premise, or its metadata stays an object
    if justs_of(ft, new_id).len() != 0 {
        assert(old_net.nodes@[ni].metadata is Object);
        assert(supersede_meta(fin.nodes@[ni].metadata, old_net.nodes@[ni].metadata, false, true, old_id, new_id));
        let m2 = choose|m2: JsonValue|
            #[trigger] old_step(m2, old_net.nodes@[ni].metadata, false, new_id) && new_step(
                fin.nodes@[ni].metadata,
                m2,
                true,
                old_id,
            );
        assert(fin.nodes@[ni].metadata is Object);
        assert(fin.node(new_id) == Some(fin.nodes@[ni]));
    }
    // and it is a dependent of the new belief
    let g = first_index(just_keys(ft), old_id);
    lemma_first_index(just_keys(ft), old_id);
    assert(g >= 0);
    assert(fin.justifications@[g].justs@[0].node_id@ == old_id);
    assert(nj[0].jview().outs[0] == new_id);
    assert(crate::model::mentions(fin.justifications@[g].justs@[0].jview(), new_id));
    assert(names(fin.justifications@, new_id, old_id));
    assert(deps_of(ft, new_id).contains(old_id));
    // retraction sets the new belief OUT, and propagation frees the old one
    let rf = match fin.node(new_id) {
        Some(n) => n.metadata is Object,
        None => false,
    };
    let mid = mark_node(ft, new_id, out_tv(), rf);
    assert(after.tms() == propagation(mid, new_id).net);
    assert(node_keys(mid) =~= node_keys(ft));
    assert(just_keys(mid) == just_keys(ft));
    assert(justs_of(mid, old_id) == justs_of(ft, old_id));
    assert(justs_of(mid, new_id) == justs_of(ft, new_id));
    assert(deps_of(mid, new_id) == deps_of(ft, new_id));
    assert(node_idx(mid, new_id) == ni);
    assert(node_idx(mid, old_id) == ti);
    assert(mid.nodes[ti] == ft.nodes[ti]);
    assert(mid.nodes[ni].retracted == rf);
    assert(crate::laws::held_down(mid, new_id));
    assert(crate::laws::freed(mid, new_id, old_id));
    crate::laws::lemma_bfs_release(mid, new_id, old_id, crate::model::step_cap());
    let at = after.tms();
    assert(node_keys(at) == node_keys(propagation(mid, new_id).net));
    assert(node_idx(at, old_id) == ti);
    lemma_first_index(node_keys(at), old_id);
    assert(ti < after.nodes@.len());
    assert(at.nodes[ti].truth == in_tv());
    assert(after.nodes@[ti].truth_value@ == at.nodes[ti].truth);
    reveal_strlit("IN");
}

} // verus!
