//! Access tags: a node that gains a justification inherits the
//! `access_tags` of the justification's antecedents.
use vstd::prelude::*;
use crate::json::{listed, push_to_list, JsonValue};
use crate::model::node_idx;
use crate::network::{justification_attached, lemma_wf_kept, Network};
use crate::text::{contains_str, copy_strings};
use crate::types::{views, Justification, Node};

verus! {

/// The strings among `items`, in order.
pub open spec fn str_values(items: Seq<JsonValue>) -> Seq<Seq<char>>
    decreases items.len(),
{
    if items.len() == 0 {
        Seq::empty()
    } else {
        let r = str_values(items.drop_last());
        match items.last() {
            JsonValue::Str(s) => r.push(s@),
            _ => r,
        }
    }
}

/// The access tags in metadata `m`: the strings of its `access_tags`
/// array (none when there is no such array).
pub open spec fn tags_in(m: JsonValue) -> Seq<Seq<char>> {
    match m.spec_get("access_tags"@) {
        Some(JsonValue::Array(items)) => str_values(items@),
        _ => Seq::empty(),
    }
}

/// The access tags of the nodes `ants` (those that exist), in order.
pub open spec fn gathered(net: Network, ants: Seq<Seq<char>>) -> Seq<Seq<char>>
    decreases ants.len(),
{
    if ants.len() == 0 {
        Seq::empty()
    } else {
        let r = gathered(net, ants.drop_last());
        match net.node(ants.last()) {
            Some(n) => r + tags_in(n.metadata),
            None => r,
        }
    }
}

/// The tags of `gs` that are not in `have`, each once, in order.
pub open spec fn fresh_tags(have: Seq<Seq<char>>, gs: Seq<Seq<char>>) -> Seq<Seq<char>>
    decreases gs.len(),
{
    if gs.len() == 0 {
        Seq::empty()
    } else {
        let r = fresh_tags(have, gs.drop_last());
        if (have + r).contains(gs.last()) {
            r
        } else {
            r.push(gs.last())
        }
    }
}

/// `ms` are the metadata values from `old` on as the tags `ts` are added,
/// one after the other, to the `access_tags` list (see `listed`).
pub open spec fn tag_steps(ms: Seq<JsonValue>, old: JsonValue, ts: Seq<Seq<char>>) -> bool {
    &&& ms.len() == ts.len() + 1
    &&& ms[0] == old
    &&& forall|k: int| 0 <= k < ts.len() ==> listed(#[trigger] ms[k + 1], ms[k], "access_tags"@, ts[k])
}

/// `new` is `old` with the tags `ts` added, one after the other, to its
/// `access_tags` list.
pub open spec fn tags_pushed(new: JsonValue, old: JsonValue, ts: Seq<Seq<char>>) -> bool {
    exists|ms: Seq<JsonValue>| #[trigger] tag_steps(ms, old, ts) && ms.last() == new
}

/// `fin` is `mid` after node `id` inherits the access tags of the nodes
/// `ants`: the tags it lacks are added to its `access_tags`, and nothing
/// else changes.
pub open spec fn tags_inherited(mid: Network, fin: Network, id: Seq<char>, ants: Seq<Seq<char>>) -> bool {
    let i = node_idx(mid.tms(), id);
    &&& fin.justifications == mid.justifications
    &&& fin.dependents == mid.dependents
    &&& fin.nodes@.len() == mid.nodes@.len()
    &&& forall|k: int| 0 <= k < mid.nodes@.len() && k != i ==> #[trigger] fin.nodes@[k] == mid.nodes@[k]
    &&& i >= 0 ==> {
        let n = mid.nodes@[i];
        &&& fin.nodes@[i] == (Node { metadata: fin.nodes@[i].metadata, ..n })
        &&& tags_pushed(fin.nodes@[i].metadata, n.metadata, fresh_tags(tags_in(n.metadata), gathered(mid, ants)))
    }
}

/// `fin` is `old_net` after justification `j` is added to `node_id`: it
/// is recorded and the node refreshed (see `justification_attached`), and
/// the node inherits the access tags of the antecedents.
pub open spec fn justification_added(
    old_net: Network,
    fin: Network,
    node_id: Seq<char>,
    j: Justification,
    changed: Seq<Seq<char>>,
) -> bool {
    exists|mid: Network|
        #[trigger] justification_attached(old_net, mid, node_id, j, changed) && tags_inherited(
            mid,
            fin,
            node_id,
            views(j.antecedents@),
        )
}

/// The access tags in metadata `m`.
pub fn tags_of(m: &JsonValue) -> (r: Vec<String>)
    ensures
        views(r@) == tags_in(*m),
{
    let mut out: Vec<String> = Vec::new();
    match m.get("access_tags") {
        Some(JsonValue::Array(items)) => {
            let mut k: usize = 0;
            while k < items.len()
                invariant
                    k <= items@.len(),
                    views(out@) == str_values(items@.take(k as int)),
                decreases items@.len() - k,
            {
                assert(items@.take(k + 1).drop_last() =~= items@.take(k as int));
                assert(items@.take(k + 1).last() == items@[k as int]);
                match &items[k] {
                    JsonValue::Str(s) => {
                        let ghost before = views(out@);
                        out.push(s.clone());
                        assert(views(out@) =~= before.push(s@));
                    },
                    _ => {},
                }
                k = k + 1;
            }
            assert(items@.take(items@.len() as int) =~= items@);
        },
        _ => {},
    }
    proof {
        reveal_strlit("access_tags");
    }
    out
}

impl Network {
    /// The access tags of the nodes `ants` (see `gathered`).
    fn tags_of_nodes(&self, ants: &Vec<String>) -> (r: Vec<String>)
        ensures
            views(r@) == gathered(*self, views(ants@)),
    {
        let mut out: Vec<String> = Vec::new();
        let mut k: usize = 0;
        while k < ants.len()
            invariant
                k <= ants@.len(),
                views(out@) == gathered(*self, views(ants@).take(k as int)),
            decreases ants@.len() - k,
        {
            assert(views(ants@).take(k + 1).drop_last() =~= views(ants@).take(k as int));
            assert(views(ants@).take(k + 1).last() == ants@[k as int]@);
            match self.node_index(ants[k].as_str()) {
                Some(i) => {
                    let ts = tags_of(&self.nodes[i].metadata);
                    let ghost before = views(out@);
                    let mut ts = ts;
                    let ghost tv = views(ts@);
                    out.append(&mut ts);
                    assert(views(out@) =~= before + tv);
                },
                None => {},
            }
            k = k + 1;
        }
        assert(views(ants@).take(ants@.len() as int) =~= views(ants@));
        out
    }

    /// Node `node_id` inherits the access tags of the nodes `ants` (see
    /// `tags_inherited`).
    fn inherit_tags(&mut self, node_id: &str, ants: &Vec<String>)
        ensures
            tags_inherited(*old(self), *final(self), node_id@, views(ants@)),
    {
        let gs = self.tags_of_nodes(ants);
        match self.node_index(node_id) {
            Some(i) => {
                let have = tags_of(&self.nodes[i].metadata);
                let ghost hv = views(have@);
                let mut seen = copy_strings(&have);
                let mut fresh: Vec<String> = Vec::new();
                let mut k: usize = 0;
                while k < gs.len()
                    invariant
                        k <= gs@.len(),
                        views(fresh@) == fresh_tags(hv, views(gs@).take(k as int)),
                        views(seen@) == hv + views(fresh@),
                    decreases gs@.len() - k,
                {
                    assert(views(gs@).take(k + 1).drop_last() =~= views(gs@).take(k as int));
                    assert(views(gs@).take(k + 1).last() == gs@[k as int]@);
                    if !contains_str(&seen, gs[k].as_str()) {
                        let ghost f0 = views(fresh@);
                        let ghost s0 = views(seen@);
                        fresh.push(gs[k].clone());
                        seen.push(gs[k].clone());
                        assert(views(fresh@) =~= f0.push(gs@[k as int]@));
                        assert(views(seen@) =~= s0.push(gs@[k as int]@));
                        assert(hv + f0.push(gs@[k as int]@) =~= (hv + f0).push(gs@[k as int]@));
                    }
                    k = k + 1;
                }
                assert(views(gs@).take(gs@.len() as int) =~= views(gs@));
                let ghost m0 = self.nodes@[i as int].metadata;
                let ghost n0 = self.nodes@[i as int];
                let ghost nodes0 = self.nodes@;
                let ghost mut ms: Seq<JsonValue> = seq![m0];
                let mut t: usize = 0;
                while t < fresh.len()
                    invariant
                        t <= fresh@.len(),
                        i < self.nodes@.len(),
                        self.nodes@.len() == nodes0.len(),
                        self.justifications == old(self).justifications,
                        self.dependents == old(self).dependents,
                        nodes0 == old(self).nodes@,
                        n0 == nodes0[i as int],
                        m0 == n0.metadata,
                        forall|q: int| 0 <= q < nodes0.len() && q != i ==> #[trigger] self.nodes@[q] == nodes0[q],
                        self.nodes@[i as int] == (Node { metadata: self.nodes@[i as int].metadata, ..n0 }),
                        tag_steps(ms, m0, views(fresh@).take(t as int)),
                        ms.last() == self.nodes@[i as int].metadata,
                    decreases fresh@.len() - t,
                {
                    let ghost before = self.nodes@[i as int].metadata;
                    push_to_list(&mut self.nodes[i].metadata, "access_tags", &fresh[t]);
                    proof {
                        let ts0 = views(fresh@).take(t as int);
                        let ts = views(fresh@).take(t + 1);
                        let ms0 = ms;
                        ms = ms.push(self.nodes@[i as int].metadata);
                        assert forall|q: int| 0 <= q < ts.len() implies listed(#[trigger] ms[q + 1], ms[q], "access_tags"@, ts[q]) by {
                            if q < t {
                                assert(ms[q + 1] == ms0[q + 1] && ms[q] == ms0[q] && ts[q] == ts0[q]);
                            } else {
                                assert(ms[q] == before && ts[q] == fresh@[t as int]@);
                            }
                        }
                        assert(tag_steps(ms, m0, ts));
                    }
                    t = t + 1;
                }
                assert(views(fresh@).take(fresh@.len() as int) =~= views(fresh@));
                assert(tag_steps(ms, m0, views(fresh@)) && ms.last() == self.nodes@[i as int].metadata);
            },
            None => {},
        }
    }

    /// Add justification `j` to `node_id`: it is recorded and the node
    /// refreshed (see `justification_attached`), and the node inherits the
    /// access tags of the antecedents. Returns the changed nodes.
    pub fn add_justification(&mut self, node_id: &str, j: Justification) -> (changed: Vec<String>)
        ensures
            old(self).wf() ==> final(self).wf(),
            justification_added(*old(self), *final(self), node_id@, j, views(changed@)),
    {
        let ants = copy_strings(&j.antecedents);
        let ghost jj = j;
        let changed = self.attach_justification(node_id, j);
        let ghost mid = *self;
        self.inherit_tags(node_id, &ants);
        proof {
            assert(views(ants@) == views(jj.antecedents@));
            assert(justification_attached(*old(self), mid, node_id@, jj, views(changed@)));
            if old(self).wf() {
                assert forall|k: int| 0 <= k < mid.nodes@.len() implies (#[trigger] self.nodes@[k]).id == mid.nodes@[k].id by {}
                lemma_wf_kept(mid, *self);
            }
        }
        changed
    }
}

} // verus!
