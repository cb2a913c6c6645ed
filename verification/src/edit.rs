//! Adding beliefs and justifications, and taking justifications away.
use vstd::prelude::*;
use crate::model::{deps_of, just_keys, mentions, node_idx, node_keys, propagation, TmsView};
use crate::network::{same_but_truth, Network};
use crate::tags::justification_added;
use crate::text::{comma_list, owned, split_commas};
use crate::types::{newly_made, views, Justification, Node, TmsError};

verus! {

/// The items of an optional comma-separated list (none when absent).
pub open spec fn opt_list(s: Option<&str>) -> Seq<Seq<char>> {
    match s {
        Some(x) => comma_list(x@),
        None => Seq::empty(),
    }
}

/// An optional string, empty when absent.
pub open spec fn opt_text(s: Option<&str>) -> Seq<char> {
    match s {
        Some(x) => x@,
        None => Seq::empty(),
    }
}

/// `j` is the SL justification of `node_id` with antecedents from the list
/// `sl`, out-list from `unless` and the given label.
pub open spec fn sl_from(j: Justification, node_id: Seq<char>, sl: Seq<char>, unless: Option<&str>, label: Option<&str>) -> bool {
    &&& j.rowid == 0
    &&& j.node_id@ == node_id
    &&& j.jtype@ == "SL"@
    &&& views(j.antecedents@) == comma_list(sl)
    &&& views(j.outlist@) == opt_list(unless)
    &&& j.label@ == opt_text(label)
}

/// The SL justification for `node_id` that the comma-separated lists `sl`
/// (antecedents) and `unless` (out-list) describe.
pub fn sl_justification(node_id: &str, sl: &str, unless: Option<&str>, label: Option<&str>) -> (j: Justification)
    ensures
        sl_from(j, node_id@, sl@, unless, label),
{
    let ants = split_commas(sl);
    let outs = match unless {
        Some(u) => split_commas(u),
        None => {
            let v: Vec<String> = Vec::new();
            assert(views(v@) =~= Seq::<Seq<char>>::empty());
            v
        },
    };
    let lab = match label {
        Some(l) => owned(l),
        None => String::new(),
    };
    Justification::new_sl(owned(node_id), ants, outs, lab)
}

/// `n` is a new belief `id` with `text` and the given sources.
pub open spec fn made_belief(n: Node, id: Seq<char>, text: Seq<char>, source: Option<&str>, source_url: Option<&str>) -> bool {
    &&& n.id@ == id
    &&& n.text@ == text
    &&& n.truth_value@ == "IN"@
    &&& n.source@ == opt_text(source)
    &&& n.source_url@ == opt_text(source_url)
    &&& newly_made(n)
}

impl Network {
    /// Add belief `node_id` with `text` and sources: a premise, or, when
    /// `sl` lists antecedents, a node justified by them (and by `unless`
    /// being OUT). A premise's value is propagated to the nodes that
    /// already depend on its id. Returns the nodes whose truth value the
    /// addition changed; refused when the id is taken.
    pub fn add_belief(
        &mut self,
        node_id: &str,
        text: &str,
        sl: Option<&str>,
        unless: Option<&str>,
        source: Option<&str>,
        source_url: Option<&str>,
        label: Option<&str>,
    ) -> (r: Result<Vec<String>, TmsError>)
        ensures
            old(self).wf() ==> final(self).wf(),
            old(self).node(node_id@) is Some ==> (r matches Err(TmsError::NodeExists(s)) && s@ == node_id@
                && *final(self) == *old(self)),
            old(self).node(node_id@) is None ==> (r matches Ok(changed) && exists|n: Node|
                #![trigger made_belief(n, node_id@, text@, source, source_url)]
                made_belief(n, node_id@, text@, source, source_url) && match sl {
                    None => exists|pushed: Network|
                        #![trigger pushed.nodes]
                        {
                            &&& pushed.nodes@ == old(self).nodes@.push(n)
                            &&& pushed.justifications == old(self).justifications
                            &&& pushed.dependents == old(self).dependents
                            &&& final(self).tms() == propagation(pushed.tms(), node_id@).net
                            &&& views(changed@) == propagation(pushed.tms(), node_id@).changed
                            &&& Network::truth_only_change(pushed, *final(self), views(changed@))
                        },
                    Some(deps) => exists|pushed: Network, j: Justification|
                        #![trigger sl_from(j, node_id@, deps@, unless, label), pushed.nodes]
                        {
                            &&& pushed.nodes@ == old(self).nodes@.push(n)
                            &&& pushed.justifications == old(self).justifications
                            &&& pushed.dependents == old(self).dependents
                            &&& sl_from(j, node_id@, deps@, unless, label)
                            &&& justification_added(pushed, *final(self), node_id@, j, views(changed@))
                        },
                }),
    {
        if self.node_index(node_id).is_some() {
            return Err(TmsError::NodeExists(owned(node_id)));
        }
        let mut node = Node::new(owned(node_id), owned(text));
        match source {
            Some(s) => {
                node.source = owned(s);
            },
            None => {},
        }
        match source_url {
            Some(u) => {
                node.source_url = owned(u);
            },
            None => {},
        }
        let ghost n = node;
        proof {
            assert(n.source@ =~= opt_text(source));
            assert(n.source_url@ =~= opt_text(source_url));
        }
        let ghost before = *old(self);
        self.nodes.push(node);
        proof {
            if before.wf() {
                self.lemma_tms_keys();
                before.lemma_tms_keys();
                let ks = node_keys(self.tms());
                let k0 = node_keys(before.tms());
                let n0 = before.nodes@.len() as int;
                crate::model::lemma_first_index(k0, node_id@);
                assert forall|a: int, b: int| 0 <= a < ks.len() && 0 <= b < ks.len() && a != b implies ks[a] != ks[b] by {
                    if a < n0 && b < n0 {
                        assert(ks[a] == k0[a]);
                        assert(ks[b] == k0[b]);
                    } else if a == n0 {
                        assert(ks[b] == k0[b]);
                    } else {
                        assert(ks[a] == k0[a]);
                    }
                }
                assert(just_keys(self.tms()) == just_keys(before.tms()));
            }
        }
        assert(made_belief(n, node_id@, text@, source, source_url));
        match sl {
            None => {
                let ghost pushed = *self;
                let changed = self.propagate(node_id);
                assert(pushed.nodes@ == old(self).nodes@.push(n));
                Ok(changed)
            },
            Some(deps) => {
                let j = sl_justification(node_id, deps, unless, label);
                let ghost jj = j;
                let ghost pushed = *self;
                let changed = self.add_justification(node_id, j);
                assert(sl_from(jj, node_id@, deps@, unless, label));
                assert(justification_added(pushed, *self, node_id@, jj, views(changed@)));
                Ok(changed)
            },
        }
    }
}

} // verus!

verus! {

/// `fin` is `old_net` after justification `index` of `node_id` is removed,
/// the dependents index rebuilt and `node_id` refreshed.
pub open spec fn justification_removed(
    old_net: Network,
    fin: Network,
    node_id: Seq<char>,
    index: int,
    changed: Seq<Seq<char>>,
) -> bool {
    &&& fin.justs_named(node_id) == old_net.justs_named(node_id).remove(index)
    &&& forall|k: Seq<char>| k != node_id ==> #[trigger] fin.justs_named(k) == old_net.justs_named(k)
    &&& forall|a: Seq<char>, x: Seq<char>|
        #[trigger] deps_of(fin.tms(), a).contains(x) <==> crate::network::names(
            fin.justifications@,
            a,
            x,
        )
    &&& fin.nodes@.len() == old_net.nodes@.len()
    &&& forall|k: int|
        0 <= k < old_net.nodes@.len() ==> same_but_truth(#[trigger] fin.nodes@[k], old_net.nodes@[k])
    &&& exists|mid: TmsView| {
        &&& mid.nodes == old_net.tms().nodes
        &&& mid.justs == fin.tms().justs
        &&& mid.deps == fin.tms().deps
        &&& crate::revise::refreshed(mid, fin.tms(), node_id, changed)
    }
}

impl Network {
    /// Add an SL justification (antecedents `sl`, out-list `unless`) to the
    /// existing node `node_id` (see `add_justification`). Returns the
    /// changed nodes; refused when the node does not exist.
    pub fn justify(&mut self, node_id: &str, sl: &str, unless: Option<&str>, label: Option<&str>) -> (r: Result<
        Vec<String>,
        TmsError,
    >)
        ensures
            old(self).wf() ==> final(self).wf(),
            old(self).node(node_id@) is None ==> (r matches Err(TmsError::NodeNotFound(s)) && s@ == node_id@
                && *final(self) == *old(self)),
            old(self).node(node_id@) is Some ==> (r matches Ok(changed) && exists|j: Justification|
                #![trigger sl_from(j, node_id@, sl@, unless, label)]
                sl_from(j, node_id@, sl@, unless, label) && justification_added(
                    *old(self),
                    *final(self),
                    node_id@,
                    j,
                    views(changed@),
                )),
    {
        if self.node_index(node_id).is_none() {
            return Err(TmsError::NodeNotFound(owned(node_id)));
        }
        let j = sl_justification(node_id, sl, unless, label);
        let ghost jj = j;
        let changed = self.add_justification(node_id, j);
        assert(sl_from(jj, node_id@, sl@, unless, label));
        Ok(changed)
    }

    /// Remove justification `index` of `node_id` (see
    /// `remove_justification`). Returns the changed nodes; refused when the
    /// node has no justification at that index.
    pub fn unjustify(&mut self, node_id: &str, index: usize) -> (r: Result<Vec<String>, TmsError>)
        ensures
            old(self).wf() ==> final(self).wf(),
            index >= old(self).justs_named(node_id@).len() ==> (r matches Err(TmsError::IndexOutOfRange(s, i, n)) && s@
                == node_id@ && i == index && n == old(self).justs_named(node_id@).len() && *final(self) == *old(self)),
            index < old(self).justs_named(node_id@).len() ==> (r matches Ok(changed) && justification_removed(
                *old(self),
                *final(self),
                node_id@,
                index as int,
                views(changed@),
            )),
    {
        let n = match self.group_index(node_id) {
            Some(g) => self.justifications[g].justs.len(),
            None => 0,
        };
        proof {
            self.lemma_tms_keys();
        }
        if index >= n {
            return Err(TmsError::IndexOutOfRange(owned(node_id), index, n));
        }
        let changed = self.remove_justification(node_id, index);
        assert(justification_removed(*old(self), *self, node_id@, index as int, views(changed@)));
        Ok(changed)
    }
}

} // verus!
