//! The truth maintenance engine: beliefs, their justifications and the
//! index of dependents, with propagation of truth values.
use vstd::prelude::*;
use crate::json::JsonValue;
use crate::laws::{frame, lemma_bfs_consistent, lemma_bfs_iter, lemma_passes, recompute_frame};
use crate::model::{
    compute, lemma_compute_in, some_valid, dep_keys, deps_of, first_index, in_tv, is_in, just_keys, just_valid, justs_of,
    lemma_first_index, lemma_first_index_absent, lemma_first_index_at, lemma_first_index_push,
    mentions, seq_add, deps_cover, lemma_push_contains, lemma_seq_add, bfs_done, bfs_init, bfs_iter,
    bfs_step, consistent, lemma_bfs_done_stays, propagation, set_truth, step_cap, visit, visit_all,
    BfsState, child, group_ants, is_path, reaches, supporting_premise, universe, unvisited, lemma_child_in_universe,
    lemma_unvisited_mono, lemma_unvisited_strict, mark_node, pass_from, passes, recomputation, stale_at, fixpoint, node_idx, node_keys, out_ok,
    out_tv, unique_keys, JustView, NodeState, TmsView,
};
use crate::text::{contains_str, owned, str_eq};
use crate::types::{views, Justification, Node};
use crate::clock::timestamp;

verus! {

/// The justifications recorded for one node.
pub struct JustificationGroup {
    pub node_id: String,
    pub justs: Vec<Justification>,
}

/// The nodes whose justifications name one node.
pub struct DependentSet {
    pub node_id: String,
    pub dependents: Vec<String>,
}

/// A belief network.
pub struct Network {
    pub nodes: Vec<Node>,
    pub justifications: Vec<JustificationGroup>,
    pub dependents: Vec<DependentSet>,
}

impl Node {
    /// What truth maintenance reads of a node.
    pub open spec fn state(self) -> NodeState {
        NodeState { id: self.id@, truth: self.truth_value@, retracted: self.metadata.flag("_retracted"@) }
    }
}

impl Justification {
    /// What truth maintenance reads of a justification.
    pub open spec fn jview(self) -> JustView {
        JustView { ants: views(self.antecedents@), outs: views(self.outlist@) }
    }
}

pub open spec fn group_view(g: JustificationGroup) -> (Seq<char>, Seq<JustView>) {
    (g.node_id@, g.justs@.map_values(|j: Justification| j.jview()))
}

pub open spec fn dep_view(d: DependentSet) -> (Seq<char>, Seq<Seq<char>>) {
    (d.node_id@, views(d.dependents@))
}

/// No element occurs twice.
pub open spec fn no_dups<T>(s: Seq<T>) -> bool {
    forall|i: int, j: int| 0 <= i < s.len() && 0 <= j < s.len() && i != j ==> s[i] != s[j]
}

/// Two nodes agree on everything but their truth values.
pub open spec fn same_but_truth(a: Node, b: Node) -> bool {
    &&& a.id == b.id
    &&& a.text == b.text
    &&& a.source == b.source
    &&& a.source_url == b.source_url
    &&& a.source_hash == b.source_hash
    &&& a.date == b.date
    &&& a.metadata == b.metadata
    &&& a.created_at == b.created_at
    &&& a.updated_at == b.updated_at
    &&& a.reviewed_at == b.reviewed_at
    &&& a.verified_at == b.verified_at
    &&& a.retracted_at == b.retracted_at
}

/// A network whose ids, justification keys and dependents are those of a
/// well-formed one is well-formed.
pub proof fn lemma_wf_kept(a: Network, b: Network)
    requires
        a.wf(),
        b.nodes@.len() == a.nodes@.len(),
        forall|k: int| 0 <= k < a.nodes@.len() ==> (#[trigger] b.nodes@[k]).id == a.nodes@[k].id,
        unique_keys(just_keys(b.tms())),
        b.deps_wf(),
    ensures
        b.wf(),
{
    a.lemma_tms_keys();
    b.lemma_tms_keys();
    assert(node_keys(b.tms()) =~= node_keys(a.tms()));
}

impl Network {
    /// The network as truth maintenance sees it.
    pub open spec fn tms(self) -> TmsView {
        TmsView {
            nodes: self.nodes@.map_values(|n: Node| n.state()),
            justs: self.justifications@.map_values(|g: JustificationGroup| group_view(g)),
            deps: self.dependents@.map_values(|d: DependentSet| dep_view(d)),
        }
    }

    /// Ids, justification keys and dependents keys are unique, and every
    /// dependents list is non-empty and repeats no id.
    pub open spec fn wf(self) -> bool {
        &&& unique_keys(node_keys(self.tms()))
        &&& unique_keys(just_keys(self.tms()))
        &&& self.deps_wf()
    }

    /// Dependents keys are unique, and every dependents list is non-empty
    /// and repeats no id.
    pub open spec fn deps_wf(self) -> bool {
        &&& unique_keys(dep_keys(self.tms()))
        &&& forall|d: int| 0 <= d < self.dependents@.len() ==> no_dups(#[trigger] self.tms().deps[d].1)
        &&& forall|d: int| 0 <= d < self.dependents@.len() ==> (#[trigger] self.dependents@[d]).dependents@.len() > 0
    }

    /// Every justification is recorded under the node it names.
    pub open spec fn keys_match(self) -> bool {
        forall|g: int, j: int|
            0 <= g < self.justifications@.len() && 0 <= j < self.justifications@[g].justs@.len()
                ==> #[trigger] self.justifications@[g].justs@[j].node_id@ == self.justifications@[g].node_id@
    }

    /// The node named `id`, if any.
    pub open spec fn node(self, id: Seq<char>) -> Option<Node> {
        let i = node_idx(self.tms(), id);
        if i >= 0 {
            Some(self.nodes@[i])
        } else {
            None
        }
    }

    pub proof fn lemma_tms_keys(self)
        ensures
            node_keys(self.tms()).len() == self.nodes@.len(),
            forall|i: int| 0 <= i < self.nodes@.len() ==> #[trigger] node_keys(self.tms())[i] == self.nodes@[i].id@,
            just_keys(self.tms()).len() == self.justifications@.len(),
            forall|i: int| 0 <= i < self.justifications@.len() ==> #[trigger] just_keys(self.tms())[i]
                == self.justifications@[i].node_id@,
            dep_keys(self.tms()).len() == self.dependents@.len(),
            forall|i: int| 0 <= i < self.dependents@.len() ==> #[trigger] dep_keys(self.tms())[i]
                == self.dependents@[i].node_id@,
    {
    }

    /// Position of the node named `id`.
    pub fn node_index(&self, id: &str) -> (r: Option<usize>)
        ensures
            match r {
                Some(i) => i as int == node_idx(self.tms(), id@) && i < self.nodes@.len(),
                None => node_idx(self.tms(), id@) < 0,
            },
    {
        proof { self.lemma_tms_keys(); }
        let mut i: usize = 0;
        while i < self.nodes.len()
            invariant
                i <= self.nodes@.len(),
                node_keys(self.tms()).len() == self.nodes@.len(),
                forall|k: int| 0 <= k < self.nodes@.len() ==> #[trigger] node_keys(self.tms())[k] == self.nodes@[k].id@,
                forall|j: int| 0 <= j < i ==> self.nodes@[j].id@ != id@,
            decreases self.nodes@.len() - i,
        {
            if str_eq(self.nodes[i].id.as_str(), id) {
                proof { lemma_first_index_at(node_keys(self.tms()), id@, i as int); }
                return Some(i);
            }
            i = i + 1;
        }
        proof { lemma_first_index_absent(node_keys(self.tms()), id@); }
        None
    }

    /// Position of the justifications recorded for `id`.
    pub fn group_index(&self, id: &str) -> (r: Option<usize>)
        ensures
            match r {
                Some(i) => i as int == first_index(just_keys(self.tms()), id@) && i < self.justifications@.len(),
                None => first_index(just_keys(self.tms()), id@) < 0,
            },
    {
        proof { self.lemma_tms_keys(); }
        let mut i: usize = 0;
        while i < self.justifications.len()
            invariant
                i <= self.justifications@.len(),
                just_keys(self.tms()).len() == self.justifications@.len(),
                forall|k: int| 0 <= k < self.justifications@.len() ==> #[trigger] just_keys(self.tms())[k]
                    == self.justifications@[k].node_id@,
                forall|j: int| 0 <= j < i ==> self.justifications@[j].node_id@ != id@,
            decreases self.justifications@.len() - i,
        {
            if str_eq(self.justifications[i].node_id.as_str(), id) {
                proof { lemma_first_index_at(just_keys(self.tms()), id@, i as int); }
                return Some(i);
            }
            i = i + 1;
        }
        proof { lemma_first_index_absent(just_keys(self.tms()), id@); }
        None
    }

    /// Position of the dependents recorded for `id`.
    pub fn dep_index(&self, id: &str) -> (r: Option<usize>)
        ensures
            match r {
                Some(i) => i as int == first_index(dep_keys(self.tms()), id@) && i < self.dependents@.len(),
                None => first_index(dep_keys(self.tms()), id@) < 0,
            },
    {
        proof { self.lemma_tms_keys(); }
        let mut i: usize = 0;
        while i < self.dependents.len()
            invariant
                i <= self.dependents@.len(),
                dep_keys(self.tms()).len() == self.dependents@.len(),
                forall|k: int| 0 <= k < self.dependents@.len() ==> #[trigger] dep_keys(self.tms())[k]
                    == self.dependents@[k].node_id@,
                forall|j: int| 0 <= j < i ==> self.dependents@[j].node_id@ != id@,
            decreases self.dependents@.len() - i,
        {
            if str_eq(self.dependents[i].node_id.as_str(), id) {
                proof { lemma_first_index_at(dep_keys(self.tms()), id@, i as int); }
                return Some(i);
            }
            i = i + 1;
        }
        proof { lemma_first_index_absent(dep_keys(self.tms()), id@); }
        None
    }

    /// An empty network.
    pub fn new() -> (net: Network)
        ensures
            net.nodes@.len() == 0,
            net.justifications@.len() == 0,
            net.dependents@.len() == 0,
            net.wf(),
    {
        Network { nodes: Vec::new(), justifications: Vec::new(), dependents: Vec::new() }
    }

    /// The node named `id` exists and is IN.
    pub fn node_is_in(&self, id: &str) -> (r: bool)
        ensures
            r == is_in(self.tms(), id@),
    {
        match self.node_index(id) {
            Some(i) => str_eq(self.nodes[i].truth_value.as_str(), "IN"),
            None => false,
        }
    }

    /// The node named `id` is absent or OUT.
    pub fn node_out_ok(&self, id: &str) -> (r: bool)
        ensures
            r == out_ok(self.tms(), id@),
    {
        match self.node_index(id) {
            Some(i) => str_eq(self.nodes[i].truth_value.as_str(), "OUT"),
            None => true,
        }
    }

    /// A justification holds: every antecedent is IN, and every node of the
    /// out-list is OUT or absent.
    pub fn justification_valid(&self, j: &Justification) -> (r: bool)
        ensures
            r == just_valid(self.tms(), j.jview()),
    {
        let mut inlist_ok = true;
        let mut i: usize = 0;
        while i < j.antecedents.len()
            invariant
                i <= j.antecedents@.len(),
                inlist_ok == forall|k: int| 0 <= k < i ==> is_in(self.tms(), #[trigger] j.jview().ants[k]),
            decreases j.antecedents@.len() - i,
        {
            assert(j.jview().ants[i as int] == j.antecedents@[i as int]@);
            if !self.node_is_in(j.antecedents[i].as_str()) {
                inlist_ok = false;
            }
            i = i + 1;
        }
        let mut outlist_ok = true;
        let mut i: usize = 0;
        while i < j.outlist.len()
            invariant
                i <= j.outlist@.len(),
                outlist_ok == forall|k: int| 0 <= k < i ==> out_ok(self.tms(), #[trigger] j.jview().outs[k]),
            decreases j.outlist@.len() - i,
        {
            assert(j.jview().outs[i as int] == j.outlist@[i as int]@);
            if !self.node_out_ok(j.outlist[i].as_str()) {
                outlist_ok = false;
            }
            i = i + 1;
        }
        inlist_ok && outlist_ok
    }

    /// The truth value `node_id` should have: a premise keeps its own
    /// value (OUT when there is no such node); a justified node is IN
    /// exactly when one of its justifications holds.
    pub fn compute_truth(&self, node_id: &str) -> (r: &str)
        ensures
            r@ == compute(self.tms(), node_id@),
    {
        let own = match self.node_index(node_id) {
            Some(i) => self.nodes[i].truth_value.as_str(),
            None => "OUT",
        };
        match self.group_index(node_id) {
            None => own,
            Some(g) => {
                let justs = &self.justifications[g].justs;
                if justs.len() == 0 {
                    own
                } else {
                    let ghost js = justs_of(self.tms(), node_id@);
                    let mut i: usize = 0;
                    while i < justs.len()
                        invariant
                            i <= justs@.len(),
                            js == justs@.map_values(|j: Justification| j.jview()),
                            js == justs_of(self.tms(), node_id@),
                            forall|k: int| 0 <= k < i ==> !just_valid(self.tms(), #[trigger] js[k]),
                        decreases justs@.len() - i,
                    {
                        if self.justification_valid(&justs[i]) {
                            assert(js[i as int] == justs@[i as int].jview());
                            assert(just_valid(self.tms(), js[i as int]));
                            assert(js.len() > 0);
                            assert(some_valid(self.tms(), js));
                            proof { lemma_compute_in(self.tms(), node_id@); }
                            return "IN";
                        }
                        i = i + 1;
                    }
                    "OUT"
                }
            },
        }
    }
}


/// `node_id`'s justifications name `a`: the pairs that the dependents
/// index records.
pub open spec fn names(groups: Seq<JustificationGroup>, a: Seq<char>, x: Seq<char>) -> bool {
    exists|g: int, k: int|
        0 <= g < groups.len() && 0 <= k < groups[g].justs@.len() && groups[g].justs@[k].node_id@ == x
            && #[trigger] mentions(groups[g].justs@[k].jview(), a)
}

impl Network {
    /// Record `x` as a dependent of `a`.
    pub fn add_dependent(&mut self, a: &String, x: &String)
        ensures
            final(self).nodes == old(self).nodes,
            final(self).justifications == old(self).justifications,
            forall|k: Seq<char>|
                #[trigger] deps_of(final(self).tms(), k) == if k == a@ {
                    seq_add(deps_of(old(self).tms(), a@), x@)
                } else {
                    deps_of(old(self).tms(), k)
                },
            old(self).deps_wf() ==> final(self).deps_wf(),
    {
        let ghost v = self.tms();
        proof { self.lemma_tms_keys(); }
        match self.dep_index(a.as_str()) {
            Some(d) => {
                proof { lemma_first_index(dep_keys(v), a@); }
                if !contains_str(&self.dependents[d].dependents, x.as_str()) {
                    let ghost old_list = self.dependents@[d as int].dependents@;
                    self.dependents[d].dependents.push(x.clone());
                    proof {
                        assert(views(self.dependents@[d as int].dependents@) =~= views(old_list).push(x@));
                        assert(self.tms().deps =~~= v.deps.update(
                            d as int,
                            (a@, v.deps[d as int].1.push(x@)),
                        ));
                        assert(dep_keys(self.tms()) =~= dep_keys(v));
                        assert forall|k: Seq<char>| #[trigger] deps_of(self.tms(), k) == if k == a@ {
                            seq_add(deps_of(v, a@), x@)
                        } else {
                            deps_of(v, k)
                        } by {
                            lemma_first_index(dep_keys(v), k);
                        }
                        if old(self).deps_wf() {
                            let n = self.tms().deps[d as int].1;
                            assert forall|i: int, j: int| 0 <= i < n.len() && 0 <= j < n.len() && i != j
                                implies n[i] != n[j] by {
                                assert(no_dups(v.deps[d as int].1));
                            }
                            assert forall|e: int| 0 <= e < self.dependents@.len() implies no_dups(
                                #[trigger] self.tms().deps[e].1,
                            ) by {
                                if e != d {
                                    assert(self.tms().deps[e] == v.deps[e]);
                                }
                            }
                        }
                    }
                } else {
                    proof {
                        assert(self.tms() =~= v);
                        assert(deps_of(v, a@).contains(x@));
                    }
                }
            },
            None => {
                let mut list: Vec<String> = Vec::new();
                list.push(x.clone());
                self.dependents.push(DependentSet { node_id: a.clone(), dependents: list });
                proof {
                    assert(self.tms().deps =~~= v.deps.push((a@, seq![x@])));
                    assert(dep_keys(self.tms()) =~= dep_keys(v).push(a@));
                    assert forall|k: Seq<char>| #[trigger] deps_of(self.tms(), k) == if k == a@ {
                        seq_add(deps_of(v, a@), x@)
                    } else {
                        deps_of(v, k)
                    } by {
                        lemma_first_index_push(dep_keys(v), a@, k);
                        lemma_first_index(dep_keys(v), k);
                        if k == a@ {
                            assert(deps_of(v, a@) =~= Seq::<Seq<char>>::empty());
                            assert(seq_add(Seq::<Seq<char>>::empty(), x@) =~= seq![x@]);
                        }
                    }
                    if old(self).deps_wf() {
                        lemma_first_index(dep_keys(v), a@);
                        let nk = dep_keys(self.tms());
                        assert forall|i: int, j: int| 0 <= i < nk.len() && 0 <= j < nk.len() && i != j
                            implies nk[i] != nk[j] by {
                            if i < v.deps.len() && j < v.deps.len() {
                                assert(nk[i] == dep_keys(v)[i] && nk[j] == dep_keys(v)[j]);
                            } else if i < v.deps.len() {
                                assert(nk[i] == dep_keys(v)[i]);
                            } else if j < v.deps.len() {
                                assert(nk[j] == dep_keys(v)[j]);
                            }
                        }
                        assert forall|e: int| 0 <= e < self.dependents@.len() implies no_dups(
                            #[trigger] self.tms().deps[e].1,
                        ) by {
                            if e < v.deps.len() {
                                assert(self.tms().deps[e] == v.deps[e]);
                            }
                        }
                    }
                }
            },
        }
    }
}

/// Rebuilding the dependents index twice is rebuilding it once: when `b`
/// is `a` rebuilt and `c` is `b` rebuilt (each as `rebuild_dependents`
/// states), `c` has `b`'s nodes and justifications and records the same
/// dependents of every node.
pub proof fn law_rebuild_settles(a: Network, b: Network, c: Network)
    requires
        b.nodes == a.nodes,
        b.justifications == a.justifications,
        forall|x: Seq<char>, y: Seq<char>| #[trigger] deps_of(b.tms(), x).contains(y) <==> names(a.justifications@, x, y),
        c.nodes == b.nodes,
        c.justifications == b.justifications,
        forall|x: Seq<char>, y: Seq<char>| #[trigger] deps_of(c.tms(), x).contains(y) <==> names(b.justifications@, x, y),
    ensures
        c.nodes == b.nodes,
        c.justifications == b.justifications,
        forall|x: Seq<char>, y: Seq<char>| #[trigger] deps_of(c.tms(), x).contains(y) <==> deps_of(b.tms(), x).contains(y),
{
}

/// The justifications before position (`g`, `k`) of which a node `x` is
/// the subject name `a`.
pub open spec fn names_before(groups: Seq<JustificationGroup>, g: int, k: int, a: Seq<char>, x: Seq<char>) -> bool {
    exists|gg: int, kk: int|
        0 <= gg < groups.len() && 0 <= kk < groups[gg].justs@.len() && (gg < g || (gg == g && kk < k))
            && groups[gg].justs@[kk].node_id@ == x && #[trigger] mentions(groups[gg].justs@[kk].jview(), a)
}

impl Network {
    /// Rebuild the dependents index from the justifications: `x` is
    /// recorded as a dependent of `a` exactly when a justification of `x`
    /// names `a`.
    pub fn rebuild_dependents(&mut self)
        ensures
            final(self).nodes == old(self).nodes,
            final(self).justifications == old(self).justifications,
            final(self).deps_wf(),
            forall|a: Seq<char>, x: Seq<char>|
                #[trigger] deps_of(final(self).tms(), a).contains(x) <==> names(
                    old(self).justifications@,
                    a,
                    x,
                ),
            old(self).keys_match() ==> deps_cover(final(self).tms()),
    {
        self.dependents = Vec::new();
        let ghost groups = self.justifications@;
        proof {
            assert forall|a: Seq<char>, x: Seq<char>| #[trigger] deps_of(self.tms(), a).contains(x)
                <==> names_before(groups, 0, 0, a, x) by {
                lemma_first_index(dep_keys(self.tms()), a);
            }
        }
        let mut g: usize = 0;
        while g < self.justifications.len()
            invariant
                g <= groups.len(),
                self.justifications@ == groups,
                self.nodes == old(self).nodes,
                self.justifications == old(self).justifications,
                self.deps_wf(),
                forall|a: Seq<char>, x: Seq<char>|
                    #[trigger] deps_of(self.tms(), a).contains(x) <==> names_before(groups, g as int, 0, a, x),
            decreases groups.len() - g,
        {
            let mut k: usize = 0;
            while k < self.justifications[g].justs.len()
                invariant
                    g < groups.len(),
                    k <= groups[g as int].justs@.len(),
                    self.justifications@ == groups,
                    self.nodes == old(self).nodes,
                    self.justifications == old(self).justifications,
                    self.deps_wf(),
                    forall|a: Seq<char>, x: Seq<char>|
                        #[trigger] deps_of(self.tms(), a).contains(x) <==> names_before(
                            groups,
                            g as int,
                            k as int,
                            a,
                            x,
                        ),
                decreases groups[g as int].justs@.len() - k,
            {
                let x = self.justifications[g].justs[k].node_id.clone();
                let ghost j = groups[g as int].justs@[k as int];
                let n_ants = self.justifications[g].justs[k].antecedents.len();
                let mut i: usize = 0;
                while i < n_ants
                    invariant
                        g < groups.len(),
                        k < groups[g as int].justs@.len(),
                        j == groups[g as int].justs@[k as int],
                        x@ == j.node_id@,
                        n_ants == j.antecedents@.len(),
                        i <= n_ants,
                        self.justifications@ == groups,
                        self.nodes == old(self).nodes,
                        self.justifications == old(self).justifications,
                        self.deps_wf(),
                        forall|a: Seq<char>, y: Seq<char>|
                            #[trigger] deps_of(self.tms(), a).contains(y) <==> (names_before(
                                groups,
                                g as int,
                                k as int,
                                a,
                                y,
                            ) || (y == x@ && j.jview().ants.take(i as int).contains(a))),
                    decreases n_ants - i,
                {
                    let a = self.justifications[g].justs[k].antecedents[i].clone();
                    let ghost before = self.tms();
                    self.add_dependent(&a, &x);
                    proof {
                        assert(j.jview().ants.take(i + 1) =~= j.jview().ants.take(i as int).push(a@));
                        assert forall|b: Seq<char>, y: Seq<char>| #[trigger] deps_of(self.tms(), b).contains(y)
                            <==> (names_before(groups, g as int, k as int, b, y) || (y == x@ && j.jview().ants.take(
                            i + 1,
                        ).contains(b))) by {
                            assert(deps_of(before, b).contains(y) <==> (names_before(
                                groups,
                                g as int,
                                k as int,
                                b,
                                y,
                            ) || (y == x@ && j.jview().ants.take(i as int).contains(b))));
                            lemma_seq_add(deps_of(before, b), x@, y);
                            lemma_push_contains(j.jview().ants.take(i as int), a@, b);
                        }
                    }
                    i = i + 1;
                }
                let n_outs = self.justifications[g].justs[k].outlist.len();
                let mut i: usize = 0;
                proof {
                    assert(j.jview().ants.take(n_ants as int) =~= j.jview().ants);
                }
                while i < n_outs
                    invariant
                        g < groups.len(),
                        k < groups[g as int].justs@.len(),
                        j == groups[g as int].justs@[k as int],
                        x@ == j.node_id@,
                        n_outs == j.outlist@.len(),
                        i <= n_outs,
                        self.justifications@ == groups,
                        self.nodes == old(self).nodes,
                        self.justifications == old(self).justifications,
                        self.deps_wf(),
                        forall|a: Seq<char>, y: Seq<char>|
                            #[trigger] deps_of(self.tms(), a).contains(y) <==> (names_before(
                                groups,
                                g as int,
                                k as int,
                                a,
                                y,
                            ) || (y == x@ && (j.jview().ants.contains(a) || j.jview().outs.take(i as int).contains(
                                a,
                            )))),
                    decreases n_outs - i,
                {
                    let a = self.justifications[g].justs[k].outlist[i].clone();
                    let ghost before = self.tms();
                    self.add_dependent(&a, &x);
                    proof {
                        assert(j.jview().outs.take(i + 1) =~= j.jview().outs.take(i as int).push(a@));
                        assert forall|b: Seq<char>, y: Seq<char>| #[trigger] deps_of(self.tms(), b).contains(y)
                            <==> (names_before(groups, g as int, k as int, b, y) || (y == x@ && (
                            j.jview().ants.contains(b) || j.jview().outs.take(i + 1).contains(b)))) by {
                            lemma_seq_add(deps_of(before, b), x@, y);
                            lemma_push_contains(j.jview().outs.take(i as int), a@, b);
                        }
                    }
                    i = i + 1;
                }
                proof {
                    assert(j.jview().outs.take(n_outs as int) =~= j.jview().outs);
                    assert forall|b: Seq<char>, y: Seq<char>| #[trigger] deps_of(self.tms(), b).contains(y)
                        <==> names_before(groups, g as int, k + 1, b, y) by {
                        if names_before(groups, g as int, k + 1, b, y) && !names_before(
                            groups,
                            g as int,
                            k as int,
                            b,
                            y,
                        ) {
                            let (gg, kk) = choose|gg: int, kk: int|
                                0 <= gg < groups.len() && 0 <= kk < groups[gg].justs@.len() && (gg < g || (gg == g
                                    && kk < k + 1)) && groups[gg].justs@[kk].node_id@ == y
                                    && #[trigger] mentions(groups[gg].justs@[kk].jview(), b);
                            assert(gg == g && kk == k);
                        }
                        if y == x@ && mentions(j.jview(), b) {
                            assert(mentions(groups[g as int].justs@[k as int].jview(), b));
                        }
                    }
                }
                k = k + 1;
            }
            proof {
                assert forall|b: Seq<char>, y: Seq<char>| #[trigger] deps_of(self.tms(), b).contains(y)
                    <==> names_before(groups, g + 1, 0, b, y) by {
                    if names_before(groups, g + 1, 0, b, y) {
                        let (gg, kk) = choose|gg: int, kk: int|
                            0 <= gg < groups.len() && 0 <= kk < groups[gg].justs@.len() && (gg < g + 1 || (gg == g
                                + 1 && kk < 0)) && groups[gg].justs@[kk].node_id@ == y
                                && #[trigger] mentions(groups[gg].justs@[kk].jview(), b);
                        assert(names_before(groups, g as int, k as int, b, y));
                    }
                }
            }
            g = g + 1;
        }
        proof {
            assert forall|b: Seq<char>, y: Seq<char>| #[trigger] deps_of(self.tms(), b).contains(y) <==> names(
                groups,
                b,
                y,
            ) by {
                if names(groups, b, y) {
                    let (gg, kk) = choose|gg: int, kk: int|
                        0 <= gg < groups.len() && 0 <= kk < groups[gg].justs@.len() && groups[gg].justs@[kk].node_id@
                            == y && #[trigger] mentions(groups[gg].justs@[kk].jview(), b);
                    assert(names_before(groups, g as int, 0, b, y));
                }
            }
            if old(self).keys_match() {
                assert forall|gi: int, ji: int, a: Seq<char>|
                    #![trigger mentions(self.tms().justs[gi].1[ji], a)]
                    0 <= gi < self.tms().justs.len() && 0 <= ji < self.tms().justs[gi].1.len() && mentions(
                        self.tms().justs[gi].1[ji],
                        a,
                    ) implies deps_of(self.tms(), a).contains(self.tms().justs[gi].0) by {
                    assert(self.tms().justs[gi].1[ji] == groups[gi].justs@[ji].jview());
                    assert(groups[gi].justs@[ji].node_id@ == groups[gi].node_id@);
                    assert(names(groups, a, groups[gi].justs@[ji].node_id@));
                }
            }
        }
    }
}

/// The last node of `s` named `id`.
pub open spec fn last_named(s: Seq<Node>, id: Seq<char>) -> Option<Node>
    decreases s.len(),
{
    if s.len() == 0 {
        None
    } else if s.last().id@ == id {
        Some(s.last())
    } else {
        last_named(s.drop_last(), id)
    }
}

/// The justifications of `s` for `id`, in order.
pub open spec fn justs_for(s: Seq<Justification>, id: Seq<char>) -> Seq<Justification>
    decreases s.len(),
{
    if s.len() == 0 {
        Seq::empty()
    } else if s.last().node_id@ == id {
        justs_for(s.drop_last(), id).push(s.last())
    } else {
        justs_for(s.drop_last(), id)
    }
}

/// The elements of `s` in reverse order.
pub fn reversed<T>(s: Vec<T>) -> (r: Vec<T>)
    ensures
        r@ == s@.reverse(),
{
    let mut s = s;
    let ghost orig = s@;
    let mut r: Vec<T> = Vec::new();
    while s.len() > 0
        invariant
            s@.len() <= orig.len(),
            s@ == orig.take(s@.len() as int),
            r@ == orig.skip(s@.len() as int).reverse(),
        decreases s@.len(),
    {
        let ghost n = s@.len();
        let x = s.pop().unwrap();
        proof {
            assert(x == orig[n - 1]);
            assert(orig.skip(n - 1) =~= seq![x] + orig.skip(n as int));
            assert(orig.skip(n - 1).reverse() =~= orig.skip(n as int).reverse().push(x));
            assert(s@ =~= orig.take(n - 1));
        }
        r.push(x);
    }
    proof {
        assert(orig.skip(0) =~= orig);
    }
    r
}

impl Network {
    /// The justifications recorded for `id`, in order (empty when none).
    pub open spec fn justs_named(self, id: Seq<char>) -> Seq<Justification> {
        let g = first_index(just_keys(self.tms()), id);
        if g >= 0 {
            self.justifications@[g].justs@
        } else {
            Seq::empty()
        }
    }

    /// A network of the given nodes (a later node replaces an earlier one of
    /// the same id) and justifications (recorded, in order, under the node
    /// they name), with its dependents index built.
    pub fn load(nodes: Vec<Node>, justifications: Vec<Justification>) -> (net: Network)
        ensures
            net.wf(),
            net.keys_match(),
            forall|id: Seq<char>| #[trigger] net.node(id) == last_named(nodes@, id),
            forall|id: Seq<char>| #[trigger] net.justs_named(id) == justs_for(justifications@, id),
            forall|g: int| 0 <= g < net.justifications@.len() ==> (#[trigger] net.justifications@[g]).justs@.len() > 0,
            forall|a: Seq<char>, x: Seq<char>|
                #[trigger] deps_of(net.tms(), a).contains(x) <==> names(net.justifications@, a, x),
            deps_cover(net.tms()),
    {
        let mut net = Network::new();
        let ghost input = nodes@;
        let mut rest = reversed(nodes);
        proof {
            assert forall|id: Seq<char>| #[trigger] net.node(id) == last_named(input.take(0), id) by {
                lemma_first_index(node_keys(net.tms()), id);
            }
        }
        while rest.len() > 0
            invariant
                rest@ == input.skip(input.len() - rest@.len()).reverse(),
                rest@.len() <= input.len(),
                net.justifications@.len() == 0,
                net.dependents@.len() == 0,
                unique_keys(node_keys(net.tms())),
                forall|id: Seq<char>| #[trigger] net.node(id) == last_named(input.take(input.len() - rest@.len()), id),
            decreases rest@.len(),
        {
            let ghost done = input.len() - rest@.len();
            let node = rest.pop().unwrap();
            proof {
                assert(node == input[done]);
                assert(input.take(done + 1) =~= input.take(done).push(node));
                assert(input.take(done + 1).drop_last() =~= input.take(done));
                assert(input.take(done + 1).last() == node);
                assert(rest@ =~= input.skip(done + 1).reverse());
            }
            let ghost before = net;
            proof { before.lemma_tms_keys(); }
            match net.node_index(node.id.as_str()) {
                Some(i) => {
                    proof { lemma_first_index(node_keys(before.tms()), node.id@); }
                    net.nodes.set(i, node);
                    proof {
                        net.lemma_tms_keys();
                        assert(node_keys(net.tms()) =~= node_keys(before.tms()));
                        assert forall|id: Seq<char>| #[trigger] net.node(id) == last_named(input.take(done + 1), id) by {
                            lemma_first_index(node_keys(before.tms()), id);
                            assert(before.node(id) == last_named(input.take(done), id));
                        }
                    }
                },
                None => {
                    net.nodes.push(node);
                    proof {
                        net.lemma_tms_keys();
                        assert(node_keys(net.tms()) =~= node_keys(before.tms()).push(input[done].id@));
                        lemma_first_index(node_keys(before.tms()), input[done].id@);
                        assert forall|id: Seq<char>| #[trigger] net.node(id) == last_named(input.take(done + 1), id) by {
                            lemma_first_index_push(node_keys(before.tms()), input[done].id@, id);
                            lemma_first_index(node_keys(before.tms()), id);
                            assert(before.node(id) == last_named(input.take(done), id));
                        }
                        let nk = node_keys(net.tms());
                        assert forall|i: int, j: int| 0 <= i < nk.len() && 0 <= j < nk.len() && i != j
                            implies nk[i] != nk[j] by {
                            if i < before.nodes@.len() && j < before.nodes@.len() {
                                assert(nk[i] == node_keys(before.tms())[i]);
                                assert(nk[j] == node_keys(before.tms())[j]);
                            } else if i < before.nodes@.len() {
                                assert(nk[i] == node_keys(before.tms())[i]);
                            } else if j < before.nodes@.len() {
                                assert(nk[j] == node_keys(before.tms())[j]);
                            }
                        }
                    }
                },
            }
        }
        proof {
            assert(input.take(input.len() as int) =~= input);
        }
        let ghost jin = justifications@;
        let mut rest = reversed(justifications);
        let ghost nodes_done = net.nodes;
        proof {
            assert forall|id: Seq<char>| #[trigger] net.justs_named(id) == justs_for(jin.take(0), id) by {
                lemma_first_index(just_keys(net.tms()), id);
            }
        }
        while rest.len() > 0
            invariant
                rest@ == jin.skip(jin.len() - rest@.len()).reverse(),
                rest@.len() <= jin.len(),
                net.nodes == nodes_done,
                net.dependents@.len() == 0,
                unique_keys(node_keys(net.tms())),
                unique_keys(just_keys(net.tms())),
                net.keys_match(),
                forall|g: int| 0 <= g < net.justifications@.len() ==> (#[trigger] net.justifications@[g]).justs@.len() > 0,
                forall|id: Seq<char>| #[trigger] net.node(id) == last_named(input, id),
                forall|id: Seq<char>| #[trigger] net.justs_named(id) == justs_for(jin.take(jin.len() - rest@.len()), id),
            decreases rest@.len(),
        {
            let ghost done = jin.len() - rest@.len();
            let j = rest.pop().unwrap();
            proof {
                assert(j == jin[done]);
                assert(jin.take(done + 1) =~= jin.take(done).push(j));
                assert(jin.take(done + 1).drop_last() =~= jin.take(done));
                assert(jin.take(done + 1).last() == j);
                assert(rest@ =~= jin.skip(done + 1).reverse());
            }
            let ghost before = net;
            proof { before.lemma_tms_keys(); }
            match net.group_index(j.node_id.as_str()) {
                Some(g) => {
                    proof { lemma_first_index(just_keys(before.tms()), j.node_id@); }
                    net.justifications[g].justs.push(j);
                    proof {
                        net.lemma_tms_keys();
                        assert(just_keys(net.tms()) =~= just_keys(before.tms()));
                        assert(node_keys(net.tms()) =~= node_keys(before.tms()));
                        assert forall|id: Seq<char>| #[trigger] net.justs_named(id) == justs_for(jin.take(done + 1), id) by {
                            lemma_first_index(just_keys(before.tms()), id);
                            assert(before.justs_named(id) == justs_for(jin.take(done), id));
                        }
                        assert forall|id: Seq<char>| #[trigger] net.node(id) == last_named(input, id) by {
                            assert(before.node(id) == last_named(input, id));
                        }
                        assert forall|gi: int, ji: int|
                            0 <= gi < net.justifications@.len() && 0 <= ji < net.justifications@[gi].justs@.len()
                            implies #[trigger] net.justifications@[gi].justs@[ji].node_id@ == net.justifications@[gi].node_id@ by {
                            if gi != g || ji < before.justifications@[gi].justs@.len() {
                                assert(net.justifications@[gi].justs@[ji] == before.justifications@[gi].justs@[ji]);
                            }
                        }
                        assert forall|gi: int| 0 <= gi < net.justifications@.len() implies (#[trigger] net.justifications@[gi]).justs@.len() > 0 by {
                            if gi != g {
                                assert(net.justifications@[gi] == before.justifications@[gi]);
                            }
                        }
                    }
                },
                None => {
                    let key = j.node_id.clone();
                    let mut list: Vec<Justification> = Vec::new();
                    list.push(j);
                    net.justifications.push(JustificationGroup { node_id: key, justs: list });
                    proof {
                        net.lemma_tms_keys();
                        assert(just_keys(net.tms()) =~= just_keys(before.tms()).push(jin[done].node_id@));
                        assert(node_keys(net.tms()) =~= node_keys(before.tms()));
                        lemma_first_index(just_keys(before.tms()), jin[done].node_id@);
                        assert forall|id: Seq<char>| #[trigger] net.justs_named(id) == justs_for(jin.take(done + 1), id) by {
                            lemma_first_index_push(just_keys(before.tms()), jin[done].node_id@, id);
                            lemma_first_index(just_keys(before.tms()), id);
                            assert(before.justs_named(id) == justs_for(jin.take(done), id));
                            if id == jin[done].node_id@ {
                                assert(justs_for(jin.take(done), id) =~= Seq::<Justification>::empty());
                                assert(net.justifications@[before.justifications@.len() as int].justs@ =~= seq![jin[done]]);
                            }
                        }
                        assert forall|id: Seq<char>| #[trigger] net.node(id) == last_named(input, id) by {
                            assert(before.node(id) == last_named(input, id));
                        }
                        let nk = just_keys(net.tms());
                        assert forall|i: int, k: int| 0 <= i < nk.len() && 0 <= k < nk.len() && i != k
                            implies nk[i] != nk[k] by {
                            if i < before.justifications@.len() && k < before.justifications@.len() {
                                assert(nk[i] == just_keys(before.tms())[i]);
                                assert(nk[k] == just_keys(before.tms())[k]);
                            } else if i < before.justifications@.len() {
                                assert(nk[i] == just_keys(before.tms())[i]);
                            } else if k < before.justifications@.len() {
                                assert(nk[k] == just_keys(before.tms())[k]);
                            }
                        }
                        assert forall|gi: int, ji: int|
                            0 <= gi < net.justifications@.len() && 0 <= ji < net.justifications@[gi].justs@.len()
                            implies #[trigger] net.justifications@[gi].justs@[ji].node_id@ == net.justifications@[gi].node_id@ by {
                            if gi < before.justifications@.len() {
                                assert(net.justifications@[gi] == before.justifications@[gi]);
                            }
                        }
                        assert forall|gi: int| 0 <= gi < net.justifications@.len() implies (#[trigger] net.justifications@[gi]).justs@.len() > 0 by {
                            if gi < before.justifications@.len() {
                                assert(net.justifications@[gi] == before.justifications@[gi]);
                            }
                        }
                    }
                },
            }
        }
        proof {
            assert(jin.take(jin.len() as int) =~= jin);
        }
        let ghost before = net;
        net.rebuild_dependents();
        proof {
            net.lemma_tms_keys();
            before.lemma_tms_keys();
            assert(node_keys(net.tms()) =~= node_keys(before.tms()));
            assert(just_keys(net.tms()) =~= just_keys(before.tms()));
            assert forall|id: Seq<char>| #[trigger] net.node(id) == last_named(input, id) by {
                assert(before.node(id) == last_named(input, id));
            }
            assert forall|id: Seq<char>| #[trigger] net.justs_named(id) == justs_for(jin, id) by {
                assert(before.justs_named(id) == justs_for(jin, id));
            }
        }
        net
    }
}

impl Network {
    /// Every dependent of `id` and of every node in `changed` satisfies its
    /// justifications (unless retracted or absent).
    pub open spec fn settled(self, id: Seq<char>, changed: Seq<Seq<char>>) -> bool {
        forall|d: Seq<char>|
            (#[trigger] deps_of(self.tms(), id).contains(d) || exists|c: Seq<char>|
                changed.contains(c) && #[trigger] deps_of(self.tms(), c).contains(d)) ==> consistent(self.tms(), d)
    }

    /// Only truth values change, never that of a retracted node, and every
    /// node whose truth value changed is named in `changed`.
    pub open spec fn truth_only_change(old_net: Network, new_net: Network, changed: Seq<Seq<char>>) -> bool {
        &&& new_net.justifications == old_net.justifications
        &&& new_net.dependents == old_net.dependents
        &&& new_net.nodes@.len() == old_net.nodes@.len()
        &&& forall|i: int|
            0 <= i < old_net.nodes@.len() ==> {
                &&& same_but_truth(#[trigger] new_net.nodes@[i], old_net.nodes@[i])
                &&& old_net.nodes@[i].state().retracted ==> new_net.nodes@[i].truth_value@ == old_net.nodes@[i].truth_value@
                &&& new_net.nodes@[i].truth_value@ != old_net.nodes@[i].truth_value@ ==> changed.contains(
                    old_net.nodes@[i].id@,
                )
            }
    }

    /// Recompute one dependent during propagation.
    fn visit_dependent(&mut self, dep_id: &String, queue: &mut Vec<String>, changed: &mut Vec<String>)
        ensures
            ({
                let r = visit(old(self).tms(), dep_id@, views(old(queue)@), views(old(changed)@));
                &&& final(self).tms() == r.0
                &&& views(final(queue)@) == r.1
                &&& views(final(changed)@) == r.2
            }),
            final(self).justifications == old(self).justifications,
            final(self).dependents == old(self).dependents,
            final(self).nodes@.len() == old(self).nodes@.len(),
            forall|i: int| 0 <= i < old(self).nodes@.len() ==> same_but_truth(#[trigger] final(self).nodes@[i], old(self).nodes@[i]),
            final(queue)@.len() >= old(queue)@.len(),
    {
        let ghost v = self.tms();
        let ni = self.node_index(dep_id.as_str());
        let skip = match ni {
            Some(i) => self.nodes[i].metadata.get_flag("_retracted"),
            None => false,
        };
        if !skip {
            let new_truth: String = owned(self.compute_truth(dep_id.as_str()));
            if let Some(i) = ni {
                if self.nodes[i].truth_value != new_truth {
                    let ghost t = new_truth@;
                    self.nodes[i].truth_value = new_truth;
                    let ghost qv = views(queue@);
                    let ghost cv = views(changed@);
                    queue.push(dep_id.clone());
                    changed.push(dep_id.clone());
                    proof {
                        assert(self.tms().nodes =~= set_truth(v, i as int, t).nodes);
                        assert(self.tms() =~~= set_truth(v, i as int, t));
                        assert(views(queue@) =~= qv.push(dep_id@));
                        assert(views(changed@) =~= cv.push(dep_id@));
                    }
                }
            }
        }
    }

    /// Propagate a change of `changed_id` breadth-first through the
    /// dependents: each dependent that is not retracted takes its computed
    /// truth value, and each one that changes is recorded and its own
    /// dependents are visited in turn. Returns the changed nodes in order.
    #[verifier::spinoff_prover]
    pub fn propagate(&mut self, changed_id: &str) -> (changed: Vec<String>)
        ensures
            old(self).wf() ==> final(self).wf(),
            final(self).tms() == propagation(old(self).tms(), changed_id@).net,
            views(changed@) == propagation(old(self).tms(), changed_id@).changed,
            Network::truth_only_change(*old(self), *final(self), views(changed@)),
            bfs_done(propagation(old(self).tms(), changed_id@)) && deps_cover(old(self).tms()) ==> final(self).settled(
                changed_id@,
                views(changed@),
            ),
    {
        let ghost v0 = self.tms();
        let ghost init = bfs_init(v0, changed_id@);
        let mut queue: Vec<String> = Vec::new();
        queue.push(owned(changed_id));
        let mut changed: Vec<String> = Vec::new();
        let mut head: usize = 0;
        let mut steps: u64 = 0;
        proof {
            assert(views(queue@) =~= seq![changed_id@]);
            assert(views(changed@) =~= Seq::<Seq<char>>::empty());
            assert(bfs_iter(init, 0) == init);
        }
        while head < queue.len() && steps < 0xffff_ffff_ffff_ffffu64
            invariant
                bfs_iter(init, steps as nat) == (BfsState {
                    net: self.tms(),
                    queue: views(queue@),
                    head: head as nat,
                    changed: views(changed@),
                }),
                head <= queue@.len(),
                self.justifications == old(self).justifications,
                self.dependents == old(self).dependents,
                self.nodes@.len() == old(self).nodes@.len(),
                forall|i: int| 0 <= i < old(self).nodes@.len() ==> same_but_truth(#[trigger] self.nodes@[i], old(self).nodes@[i]),
            decreases 0xffff_ffff_ffff_ffffu64 - steps,
        {
            let ghost s = bfs_iter(init, steps as nat);
            let cur = queue[head].clone();
            head = head + 1;
            let ghost ds = deps_of(self.tms(), cur@);
            proof {
                assert(s.queue[s.head as int] == cur@);
                self.lemma_tms_keys();
            }
            match self.dep_index(cur.as_str()) {
                Some(di) => {
                    proof {
                        lemma_first_index(dep_keys(self.tms()), cur@);
                        assert(ds == views(self.dependents@[di as int].dependents@));
                    }
                    let n = self.dependents[di].dependents.len();
                    let mut k: usize = 0;
                    proof {
                        assert(ds.skip(0) =~= ds);
                    }
                    while k < n
                        invariant
                            k <= n,
                            head <= queue@.len(),
                            di < self.dependents@.len(),
                            n == ds.len(),
                            ds == views(self.dependents@[di as int].dependents@),
                            visit_all(s.net, ds, s.queue, s.changed) == visit_all(
                                self.tms(),
                                ds.skip(k as int),
                                views(queue@),
                                views(changed@),
                            ),
                            self.justifications == old(self).justifications,
                            self.dependents == old(self).dependents,
                            self.nodes@.len() == old(self).nodes@.len(),
                            forall|i: int| 0 <= i < old(self).nodes@.len() ==> same_but_truth(#[trigger] self.nodes@[i], old(self).nodes@[i]),
                        decreases n - k,
                    {
                        let dep_id = self.dependents[di].dependents[k].clone();
                        proof {
                            assert(ds.skip(k as int)[0] == dep_id@);
                            assert(ds.skip(k as int).drop_first() =~= ds.skip(k + 1));
                        }
                        self.visit_dependent(&dep_id, &mut queue, &mut changed);
                        k = k + 1;
                    }
                    proof {
                        assert(ds.skip(n as int) =~= Seq::<Seq<char>>::empty());
                    }
                },
                None => {
                    proof {
                        assert(ds =~= Seq::<Seq<char>>::empty());
                    }
                },
            }
            steps = steps + 1;
        }
        proof {
            if head >= queue.len() {
                lemma_bfs_done_stays(init, steps as nat, step_cap());
            }
            let fin = propagation(v0, changed_id@);
            assert(fin == bfs_iter(init, steps as nat));
            lemma_bfs_iter(v0, changed_id@, step_cap());
            crate::laws::lemma_frame_keys(v0, self.tms());
            if bfs_done(fin) && deps_cover(v0) {
                lemma_bfs_consistent(v0, changed_id@, step_cap());
            }
            self.lemma_tms_keys();
            assert forall|i: int| 0 <= i < old(self).nodes@.len() implies {
                &&& old(self).nodes@[i].state().retracted ==> self.nodes@[i].truth_value@ == old(self).nodes@[i].truth_value@
                &&& self.nodes@[i].truth_value@ != old(self).nodes@[i].truth_value@ ==> views(changed@).contains(
                    old(self).nodes@[i].id@,
                )
            } by {
                assert(v0.nodes[i] == old(self).nodes@[i].state());
                assert(self.tms().nodes[i] == self.nodes@[i].state());
                assert(self.tms().nodes[i].id == v0.nodes[i].id);
                assert(self.tms().nodes[i].truth == self.nodes@[i].truth_value@);
                assert(v0.nodes[i].truth == old(self).nodes@[i].truth_value@);
                assert(v0.nodes[i].id == old(self).nodes@[i].id@);
            }
        }
        proof {
            if old(self).wf() {
                lemma_wf_kept(*old(self), *self);
            }
        }
        changed
    }
}

/// What a change of one node's metadata leaves alone: every key other
/// than `k1` and `k2`.
pub open spec fn meta_same_except(a: JsonValue, b: JsonValue, k1: Seq<char>, k2: Seq<char>) -> bool {
    forall|k: Seq<char>| k != k1 && k != k2 ==> #[trigger] a.spec_get(k) == b.spec_get(k)
}

/// Two nodes agree on everything but truth value, metadata and retraction
/// time.
pub open spec fn same_text_and_source(a: Node, b: Node) -> bool {
    &&& a.id == b.id
    &&& a.text == b.text
    &&& a.source == b.source
    &&& a.source_url == b.source_url
    &&& a.source_hash == b.source_hash
    &&& a.date == b.date
    &&& a.created_at == b.created_at
    &&& a.updated_at == b.updated_at
    &&& a.reviewed_at == b.reviewed_at
    &&& a.verified_at == b.verified_at
}

/// Record a retraction in a node's metadata: `_retracted` becomes true and
/// `retract_reason` the reason (when given); only an object can record it.
pub fn mark_retracted(meta: &mut JsonValue, reason: Option<&str>)
    ensures
        final(meta).flag("_retracted"@) == (*old(meta) is Object),
        meta_same_except(*final(meta), *old(meta), "_retracted"@, "retract_reason"@),
        *old(meta) is Object ==> {
            &&& final(meta).spec_get("_retracted"@) == Some(JsonValue::Bool(true))
            &&& match reason {
                Some(r) => final(meta).str_at("retract_reason"@) == Some(r@),
                None => final(meta).spec_get("retract_reason"@) == old(meta).spec_get("retract_reason"@),
            }
        },
        !(*old(meta) is Object) ==> *final(meta) == *old(meta),
{
    proof {
        reveal_strlit("_retracted");
        reveal_strlit("retract_reason");
    }
    let ghost m0 = *meta;
    let key = owned("_retracted");
    assert(key@ == "_retracted"@);
    let _ = meta.insert(key, JsonValue::Bool(true));
    assert(m0 is Object ==> meta.spec_get("_retracted"@) == Some(JsonValue::Bool(true)));
    assert(meta.flag("_retracted"@) == (m0 is Object));
    assert("_retracted"@.len() != "retract_reason"@.len());
    let ghost m1 = *meta;
    if let Some(r) = reason {
        let k2 = owned("retract_reason");
        let _ = meta.insert(k2, JsonValue::Str(owned(r)));
        assert(k2@ != "_retracted"@);
        assert(meta.spec_get("_retracted"@) == m1.spec_get("_retracted"@));
    }
}

/// Clear a retraction from a node's metadata: `_retracted` and
/// `retract_reason` are removed.
pub fn clear_retracted(meta: &mut JsonValue)
    ensures
        !final(meta).flag("_retracted"@),
        final(meta).spec_get("_retracted"@) is None,
        final(meta).spec_get("retract_reason"@) is None,
        meta_same_except(*final(meta), *old(meta), "_retracted"@, "retract_reason"@),
        (*final(meta) is Object) == (*old(meta) is Object),
{
    proof {
        reveal_strlit("_retracted");
        reveal_strlit("retract_reason");
    }
    meta.remove("_retracted");
    meta.remove("retract_reason");
}

impl Network {
    /// From `old_net` to `new_net` only truth values changed, but for the
    /// node `id`, of which the text, sources and dates are kept and of
    /// whose metadata every key other than `_retracted` and
    /// `retract_reason` is kept.
    pub open spec fn others_kept(old_net: Network, new_net: Network, id: Seq<char>) -> bool {
        let i = node_idx(old_net.tms(), id);
        &&& new_net.justifications == old_net.justifications
        &&& new_net.dependents == old_net.dependents
        &&& new_net.nodes@.len() == old_net.nodes@.len()
        &&& forall|k: int|
            0 <= k < old_net.nodes@.len() && k != i ==> same_but_truth(#[trigger] new_net.nodes@[k], old_net.nodes@[k])
        &&& i >= 0 ==> {
            &&& same_text_and_source(new_net.nodes@[i], old_net.nodes@[i])
            &&& meta_same_except(new_net.nodes@[i].metadata, old_net.nodes@[i].metadata, "_retracted"@, "retract_reason"@)
        }
    }

    /// The truth values of `new_net` are those of `old_net` after `id` is
    /// marked OUT (and retracted, where its metadata is an object) and the
    /// change is propagated.
    pub open spec fn retraction(old_net: Network, new_net: Network, id: Seq<char>) -> bool {
        new_net.tms() == propagation(Network::retraction_start(old_net, id), id).net
    }

    /// The truth values of `new_net` are those of `old_net` after `id` is
    /// marked IN and not retracted and the change is propagated.
    pub open spec fn assertion(old_net: Network, new_net: Network, id: Seq<char>) -> bool {
        new_net.tms() == propagation(Network::assertion_start(old_net, id), id).net
    }

    /// What propagation starts from when `id` is asserted.
    pub open spec fn assertion_start(old_net: Network, id: Seq<char>) -> TmsView {
        mark_node(old_net.tms(), id, in_tv(), false)
    }

    /// What propagation starts from when `id` is retracted: `id` marked
    /// OUT, and retracted where its metadata is an object.
    pub open spec fn retraction_start(old_net: Network, id: Seq<char>) -> TmsView {
        mark_node(
            old_net.tms(),
            id,
            out_tv(),
            match old_net.node(id) {
                Some(n) => n.metadata is Object,
                None => false,
            },
        )
    }

    /// The node `id` holds no retraction in `new_net`: no `_retracted` or
    /// `retract_reason` metadata and no retraction time; and a premise
    /// is IN.
    pub open spec fn cleared(old_net: Network, new_net: Network, id: Seq<char>) -> bool {
        let i = node_idx(old_net.tms(), id);
        i >= 0 ==> {
            let n = new_net.nodes@[i];
            &&& n.retracted_at@.len() == 0
            &&& n.metadata.spec_get("_retracted"@) is None
            &&& n.metadata.spec_get("retract_reason"@) is None
            &&& justs_of(old_net.tms(), id).len() == 0 ==> n.truth_value@ == in_tv()
        }
    }
}

impl Network {
    /// Set the truth value of the node at position `i`.
    fn set_node_truth(&mut self, i: usize, t: String)
        requires
            i < old(self).nodes@.len(),
        ensures
            final(self).tms() == set_truth(old(self).tms(), i as int, t@),
            final(self).justifications == old(self).justifications,
            final(self).dependents == old(self).dependents,
            final(self).nodes@.len() == old(self).nodes@.len(),
            forall|k: int| 0 <= k < old(self).nodes@.len() ==> same_but_truth(#[trigger] final(self).nodes@[k], old(self).nodes@[k]),
            final(self).nodes@[i as int].truth_value == t,
            forall|k: int| 0 <= k < old(self).nodes@.len() && k != i ==> #[trigger] final(self).nodes@[k] == old(self).nodes@[k],
    {
        let ghost v = self.tms();
        self.nodes[i].truth_value = t;
        proof {
            assert(self.tms().nodes =~= set_truth(v, i as int, t@).nodes);
            assert(self.tms() =~~= set_truth(v, i as int, t@));
        }
    }

    /// Give `node_id` its computed truth value; when that changes it, the
    /// change is propagated. Returns `node_id` followed by the nodes the
    /// propagation changed, or nothing when the value stays.
    pub fn refresh(&mut self, node_id: &str) -> (changed: Vec<String>)
        ensures
            old(self).wf() ==> final(self).wf(),
            ({
                let v = old(self).tms();
                let i = node_idx(v, node_id@);
                let t = compute(v, node_id@);
                if i >= 0 && v.nodes[i].truth != t {
                    let p = propagation(set_truth(v, i, t), node_id@);
                    &&& final(self).tms() == p.net
                    &&& views(changed@) == seq![node_id@] + p.changed
                    &&& bfs_done(p) && deps_cover(v) ==> final(self).settled(node_id@, p.changed)
                } else {
                    &&& *final(self) == *old(self)
                    &&& changed@.len() == 0
                }
            }),
            final(self).justifications == old(self).justifications,
            final(self).dependents == old(self).dependents,
            final(self).nodes@.len() == old(self).nodes@.len(),
            forall|k: int| 0 <= k < old(self).nodes@.len() ==> same_but_truth(#[trigger] final(self).nodes@[k], old(self).nodes@[k]),
    {
        let new_truth: String = owned(self.compute_truth(node_id));
        let mut changed: Vec<String> = Vec::new();
        if let Some(i) = self.node_index(node_id) {
            if self.nodes[i].truth_value != new_truth {
                let ghost v = self.tms();
                let ghost t = new_truth@;
                self.set_node_truth(i, new_truth);
                proof {
                    assert(deps_cover(self.tms()) == deps_cover(v)) by {
                        assert(self.tms().justs == v.justs && self.tms().deps == v.deps);
                    }
                }
                changed.push(owned(node_id));
                let more = self.propagate(node_id);
                let ghost pc = views(more@);
                let mut more = more;
                changed.append(&mut more);
                proof {
                    assert(views(changed@) =~= seq![node_id@] + pc);
                }
            }
        }
        proof {
            if old(self).wf() {
                lemma_wf_kept(*old(self), *self);
            }
        }
        changed
    }

    /// Mark `node_id` OUT and retracted (with `reason`, and the time of
    /// retraction) and propagate the change. Returns the nodes the
    /// propagation changed.
    pub fn retract(&mut self, node_id: &str, reason: Option<&str>) -> (changed: Vec<String>)
        ensures
            old(self).wf() ==> final(self).wf(),
            ({
                let mid = mark_node(
                    old(self).tms(),
                    node_id@,
                    out_tv(),
                    match old(self).node(node_id@) {
                        Some(n) => n.metadata is Object,
                        None => false,
                    },
                );
                let p = propagation(mid, node_id@);
                &&& final(self).tms() == p.net
                &&& views(changed@) == p.changed
                &&& bfs_done(p) && deps_cover(old(self).tms()) ==> final(self).settled(node_id@, p.changed)
            }),
            Network::retraction(*old(self), *final(self), node_id@),
            Network::others_kept(*old(self), *final(self), node_id@),
            ({
                let i = node_idx(old(self).tms(), node_id@);
                i >= 0 ==> {
                    let n0 = old(self).nodes@[i];
                    let n = final(self).nodes@[i];
                    &&& crate::clock::stamp(n.retracted_at@)
                    &&& n0.metadata is Object ==> {
                        &&& n.metadata.spec_get("_retracted"@) == Some(JsonValue::Bool(true))
                        &&& n.truth_value@ == out_tv()
                        &&& match reason {
                            Some(r) => n.metadata.str_at("retract_reason"@) == Some(r@),
                            None => n.metadata.spec_get("retract_reason"@) == n0.metadata.spec_get(
                                "retract_reason"@,
                            ),
                        }
                    }
                    &&& !(n0.metadata is Object) ==> n.metadata == n0.metadata
                }
            }),
    {
        let ghost v = self.tms();
        let ghost old_nodes = self.nodes@;
        if let Some(i) = self.node_index(node_id) {
            let ghost n0 = self.nodes@[i as int];
            self.nodes[i].truth_value = owned("OUT");
            mark_retracted(&mut self.nodes[i].metadata, reason);
            self.nodes[i].retracted_at = timestamp();
            proof {
                self.lemma_tms_keys();
                assert(self.tms().nodes =~= mark_node(v, node_id@, out_tv(), n0.metadata is Object).nodes);
                assert(self.tms() =~~= mark_node(v, node_id@, out_tv(), n0.metadata is Object));
                assert(old(self).node(node_id@) == Some(n0));
            }
        } else {
            proof {
                assert(mark_node(v, node_id@, out_tv(), false) == v);
            }
        }
        let ghost marked = *self;
        let changed = self.propagate(node_id);
        proof {
            assert(deps_cover(marked.tms()) == deps_cover(v)) by {
                assert(marked.tms().justs == v.justs && marked.tms().deps == v.deps);
            }
            let i = node_idx(v, node_id@);
            if i >= 0 {
                assert(marked.nodes@[i].state().retracted == (old_nodes[i].metadata is Object));
            }
        }
        proof {
            if old(self).wf() {
                lemma_wf_kept(*old(self), *self);
            }
        }
        changed
    }
}

/// Asserting a node after retracting it takes the retraction back: the
/// node keeps its text, sources and dates, carries no retraction mark,
/// reason or time, a premise is IN again, and a node that carried no
/// retraction keys before gets its metadata back unchanged. Every other
/// node, the justifications and the dependents differ from before the
/// retraction in truth values at most.
pub proof fn law_assert_undoes_retract(a: Network, b: Network, c: Network, id: Seq<char>)
    requires
        Network::others_kept(a, b, id),
        Network::others_kept(b, c, id),
        Network::cleared(b, c, id),
    ensures
        c.justifications == a.justifications,
        c.dependents == a.dependents,
        c.nodes@.len() == a.nodes@.len(),
        ({
            let i = node_idx(a.tms(), id);
            &&& forall|k: int| 0 <= k < a.nodes@.len() && k != i ==> same_but_truth(#[trigger] c.nodes@[k], a.nodes@[k])
            &&& i >= 0 ==> {
                let n0 = a.nodes@[i];
                let n = c.nodes@[i];
                &&& same_text_and_source(n, n0)
                &&& n.retracted_at@.len() == 0
                &&& n.metadata.spec_get("_retracted"@) is None
                &&& n.metadata.spec_get("retract_reason"@) is None
                &&& meta_same_except(n.metadata, n0.metadata, "_retracted"@, "retract_reason"@)
                &&& n0.metadata.spec_get("_retracted"@) is None && n0.metadata.spec_get("retract_reason"@) is None
                    ==> forall|k: Seq<char>| #[trigger] n.metadata.spec_get(k) == n0.metadata.spec_get(k)
                &&& justs_of(a.tms(), id).len() == 0 ==> n.truth_value@ == in_tv()
            }
        }),
{
    let i = node_idx(a.tms(), id);
    a.lemma_tms_keys();
    b.lemma_tms_keys();
    assert(node_keys(b.tms()) =~= node_keys(a.tms())) by {
        assert forall|k: int| 0 <= k < a.nodes@.len() implies #[trigger] b.nodes@[k].id == a.nodes@[k].id by {
            if k != i {
                assert(same_but_truth(b.nodes@[k], a.nodes@[k]));
            }
        }
    }
    assert(node_idx(b.tms(), id) == i);
    assert(b.tms().justs == a.tms().justs);
    if i >= 0 {
        let n0 = a.nodes@[i];
        let n = c.nodes@[i];
        assert forall|k: Seq<char>| k != "_retracted"@ && k != "retract_reason"@ implies #[trigger] n.metadata.spec_get(k)
            == n0.metadata.spec_get(k) by {
            assert(n.metadata.spec_get(k) == b.nodes@[i].metadata.spec_get(k));
        }
        if n0.metadata.spec_get("_retracted"@) is None && n0.metadata.spec_get("retract_reason"@) is None {
            assert forall|k: Seq<char>| #[trigger] n.metadata.spec_get(k) == n0.metadata.spec_get(k) by {
                if k != "_retracted"@ && k != "retract_reason"@ {
                    assert(n.metadata.spec_get(k) == b.nodes@[i].metadata.spec_get(k));
                }
            }
        }
    }
}

/// `mid`'s justifications are `v`'s with `jv` added under `key`.
pub open spec fn justs_extended(v: TmsView, mid: TmsView, key: Seq<char>, jv: JustView) -> bool {
    &&& mid.justs.len() >= v.justs.len()
    &&& forall|gi: int|
        0 <= gi < v.justs.len() ==> {
            &&& #[trigger] mid.justs[gi].0 == v.justs[gi].0
            &&& mid.justs[gi].1.len() >= v.justs[gi].1.len()
            &&& forall|ji: int| 0 <= ji < v.justs[gi].1.len() ==> mid.justs[gi].1[ji] == v.justs[gi].1[ji]
        }
    &&& forall|gi: int, ji: int|
        0 <= gi < mid.justs.len() && 0 <= ji < mid.justs[gi].1.len() && !(gi < v.justs.len() && ji < v.justs[gi].1.len())
            ==> mid.justs[gi].0 == key && #[trigger] mid.justs[gi].1[ji] == jv
}

impl Network {
    /// Mark `node_id` IN and no longer retracted (clearing the reason and
    /// the time of retraction) and propagate the change. Returns the nodes
    /// the propagation changed.
    pub fn assert_node(&mut self, node_id: &str) -> (changed: Vec<String>)
        ensures
            old(self).wf() ==> final(self).wf(),
            ({
                let mid = mark_node(old(self).tms(), node_id@, in_tv(), false);
                let p = propagation(mid, node_id@);
                &&& final(self).tms() == p.net
                &&& views(changed@) == p.changed
                &&& bfs_done(p) && deps_cover(old(self).tms()) ==> final(self).settled(node_id@, p.changed)
            }),
            Network::assertion(*old(self), *final(self), node_id@),
            Network::others_kept(*old(self), *final(self), node_id@),
            Network::cleared(*old(self), *final(self), node_id@),
    {
        let ghost v = self.tms();
        if let Some(i) = self.node_index(node_id) {
            self.nodes[i].truth_value = owned("IN");
            clear_retracted(&mut self.nodes[i].metadata);
            self.nodes[i].retracted_at = String::new();
            proof {
                self.lemma_tms_keys();
                assert(self.tms().nodes =~= mark_node(v, node_id@, in_tv(), false).nodes);
                assert(self.tms() =~~= mark_node(v, node_id@, in_tv(), false));
            }
        }
        let ghost marked = *self;
        let changed = self.propagate(node_id);
        proof {
            let i = node_idx(v, node_id@);
            if i >= 0 && justs_of(v, node_id@).len() == 0 {
                let mid = mark_node(v, node_id@, in_tv(), false);
                assert(node_keys(mid) =~= node_keys(v));
                assert(just_keys(mid) == just_keys(v));
                assert(justs_of(mid, node_id@) == justs_of(v, node_id@));
                lemma_first_index(node_keys(v), node_id@);
                crate::laws::lemma_bfs_keeps_premise(bfs_init(mid, node_id@), node_id@, step_cap());
                assert(self.tms().nodes[i].truth == self.nodes@[i].truth_value@);
            }
            assert(deps_cover(marked.tms()) == deps_cover(v)) by {
                assert(marked.tms().justs == v.justs && marked.tms().deps == v.deps);
            }
        }
        proof {
            if old(self).wf() {
                lemma_wf_kept(*old(self), *self);
            }
        }
        changed
    }

}

/// `fin` is `old_net` after justification `j` is recorded for `node_id`
/// and `node_id` refreshed (see `Network::add_justification`).
pub open spec fn justification_attached(
    old_net: Network,
    fin: Network,
    node_id: Seq<char>,
    j: Justification,
    changed: Seq<Seq<char>>,
) -> bool {
    &&& fin.justs_named(node_id) == old_net.justs_named(node_id).push(j)
    &&& forall|k: Seq<char>| k != node_id ==> #[trigger] fin.justs_named(k) == old_net.justs_named(k)
    &&& forall|a: Seq<char>, x: Seq<char>|
        #[trigger] deps_of(fin.tms(), a).contains(x) <==> (deps_of(old_net.tms(), a).contains(x) || (x == node_id
            && mentions(j.jview(), a)))
    &&& fin.nodes@.len() == old_net.nodes@.len()
    &&& forall|k: int| 0 <= k < old_net.nodes@.len() ==> same_but_truth(#[trigger] fin.nodes@[k], old_net.nodes@[k])
    &&& ({
        let v = old_net.tms();
        let i = node_idx(v, node_id);
        exists|mid: TmsView| {
            &&& mid.nodes == v.nodes
            &&& justs_of(mid, node_id) == justs_of(v, node_id).push(j.jview())
            &&& forall|k: Seq<char>| k != node_id ==> #[trigger] justs_of(mid, k) == justs_of(v, k)
            &&& {
                let t = compute(mid, node_id);
                if i >= 0 && v.nodes[i].truth != t {
                    let p = propagation(set_truth(mid, i, t), node_id);
                    &&& fin.tms() == p.net
                    &&& changed == seq![node_id] + p.changed
                    &&& bfs_done(p) && deps_cover(v) ==> fin.settled(node_id, p.changed)
                } else {
                    &&& fin.tms() == mid
                    &&& changed.len() == 0
                }
            }
        }
    })
}

impl Network {
    /// Record justification `j` for `node_id`: its antecedents and out-list
    /// gain `node_id` as a dependent, it is appended to the node's
    /// justifications, and the node is refreshed (see `refresh`).
    #[verifier::spinoff_prover]
    #[verifier::rlimit(40)]
    pub(crate) fn attach_justification(&mut self, node_id: &str, j: Justification) -> (changed: Vec<String>)
        ensures
            old(self).wf() ==> final(self).wf(),
            justification_attached(*old(self), *final(self), node_id@, j, views(changed@)),
            final(self).justs_named(node_id@) == old(self).justs_named(node_id@).push(j),
            forall|k: Seq<char>| k != node_id@ ==> #[trigger] final(self).justs_named(k) == old(self).justs_named(k),
            forall|a: Seq<char>, x: Seq<char>|
                #[trigger] deps_of(final(self).tms(), a).contains(x) <==> (deps_of(old(self).tms(), a).contains(x)
                    || (x == node_id@ && mentions(j.jview(), a))),
            deps_cover(old(self).tms()) ==> deps_cover(final(self).tms()),
            old(self).deps_wf() ==> final(self).deps_wf(),
            old(self).keys_match() && j.node_id@ == node_id@ ==> final(self).keys_match(),
            final(self).nodes@.len() == old(self).nodes@.len(),
            forall|k: int| 0 <= k < old(self).nodes@.len() ==> same_but_truth(#[trigger] final(self).nodes@[k], old(self).nodes@[k]),
            ({
                let v = old(self).tms();
                let i = node_idx(v, node_id@);
                exists|mid: TmsView| {
                    &&& mid.nodes == v.nodes
                    &&& justs_of(mid, node_id@) == justs_of(v, node_id@).push(j.jview())
                    &&& forall|k: Seq<char>| k != node_id@ ==> #[trigger] justs_of(mid, k) == justs_of(v, k)
                    &&& {
                        let t = compute(mid, node_id@);
                        if i >= 0 && v.nodes[i].truth != t {
                            let p = propagation(set_truth(mid, i, t), node_id@);
                            &&& final(self).tms() == p.net
                            &&& views(changed@) == seq![node_id@] + p.changed
                            &&& bfs_done(p) && deps_cover(old(self).tms()) ==> final(self).settled(node_id@, p.changed)
                        } else {
                            &&& final(self).tms() == mid
                            &&& changed@.len() == 0
                        }
                    }
                }
            }),
    {
        let ghost v = self.tms();
        let key = owned(node_id);
        let mut i: usize = 0;
        while i < j.antecedents.len()
            invariant
                self.nodes == old(self).nodes,
                self.justifications == old(self).justifications,
                old(self).deps_wf() ==> self.deps_wf(),
                key@ == node_id@,
                i <= j.antecedents@.len(),
                forall|a: Seq<char>, x: Seq<char>|
                    #[trigger] deps_of(self.tms(), a).contains(x) <==> (deps_of(v, a).contains(x) || (x == node_id@
                        && j.jview().ants.take(i as int).contains(a))),
            decreases j.antecedents@.len() - i,
        {
            let ghost before = self.tms();
            self.add_dependent(&j.antecedents[i], &key);
            proof {
                assert(j.jview().ants.take(i + 1) =~= j.jview().ants.take(i as int).push(j.antecedents@[i as int]@));
                assert forall|b: Seq<char>, y: Seq<char>| #[trigger] deps_of(self.tms(), b).contains(y) <==> (
                    deps_of(v, b).contains(y) || (y == node_id@ && j.jview().ants.take(i + 1).contains(b))) by {
                    lemma_seq_add(deps_of(before, b), key@, y);
                    lemma_push_contains(j.jview().ants.take(i as int), j.antecedents@[i as int]@, b);
                }
            }
            i = i + 1;
        }
        proof {
            assert(j.jview().ants.take(j.antecedents@.len() as int) =~= j.jview().ants);
        }
        let mut i: usize = 0;
        while i < j.outlist.len()
            invariant
                self.nodes == old(self).nodes,
                self.justifications == old(self).justifications,
                old(self).deps_wf() ==> self.deps_wf(),
                key@ == node_id@,
                i <= j.outlist@.len(),
                forall|a: Seq<char>, x: Seq<char>|
                    #[trigger] deps_of(self.tms(), a).contains(x) <==> (deps_of(v, a).contains(x) || (x == node_id@
                        && (j.jview().ants.contains(a) || j.jview().outs.take(i as int).contains(a)))),
            decreases j.outlist@.len() - i,
        {
            let ghost before = self.tms();
            self.add_dependent(&j.outlist[i], &key);
            proof {
                assert(j.jview().outs.take(i + 1) =~= j.jview().outs.take(i as int).push(j.outlist@[i as int]@));
                assert forall|b: Seq<char>, y: Seq<char>| #[trigger] deps_of(self.tms(), b).contains(y) <==> (
                    deps_of(v, b).contains(y) || (y == node_id@ && (j.jview().ants.contains(b) || j.jview().outs.take(
                    i + 1,
                ).contains(b)))) by {
                    lemma_seq_add(deps_of(before, b), key@, y);
                    lemma_push_contains(j.jview().outs.take(i as int), j.outlist@[i as int]@, b);
                }
            }
            i = i + 1;
        }
        proof {
            assert(j.jview().outs.take(j.outlist@.len() as int) =~= j.jview().outs);
        }
        let ghost deps_done = *self;
        let ghost jv = j.jview();
        let ghost jj = j;
        proof { self.lemma_tms_keys(); }
        match self.group_index(node_id) {
            Some(g) => {
                proof { lemma_first_index(just_keys(self.tms()), node_id@); }
                self.justifications[g].justs.push(j);
                proof {
                    self.lemma_tms_keys();
                    deps_done.lemma_tms_keys();
                    assert(just_keys(self.tms()) =~= just_keys(deps_done.tms()));
                    assert(self.tms().justs[g as int].1 =~= deps_done.tms().justs[g as int].1.push(jv));
                    assert forall|k: Seq<char>| k != node_id@ implies #[trigger] self.justs_named(k) == deps_done.justs_named(k)
                        && justs_of(self.tms(), k) == justs_of(deps_done.tms(), k) by {
                        lemma_first_index(just_keys(deps_done.tms()), k);
                    }
                    assert(justs_extended(deps_done.tms(), self.tms(), node_id@, jv));
                    assert(justs_of(self.tms(), node_id@) =~= justs_of(deps_done.tms(), node_id@).push(jv));
                }
            },
            None => {
                let mut list: Vec<Justification> = Vec::new();
                list.push(j);
                self.justifications.push(JustificationGroup { node_id: owned(node_id), justs: list });
                proof {
                    self.lemma_tms_keys();
                    deps_done.lemma_tms_keys();
                    assert(just_keys(self.tms()) =~= just_keys(deps_done.tms()).push(node_id@));
                    lemma_first_index_push(just_keys(deps_done.tms()), node_id@, node_id@);
                    assert(self.justifications@[deps_done.justifications@.len() as int].justs@ =~= seq![jj]);
                    assert(self.tms().justs[deps_done.justifications@.len() as int].1 =~= seq![jv]);
                    assert(justs_of(deps_done.tms(), node_id@) =~= Seq::<JustView>::empty());
                    assert(deps_done.justs_named(node_id@) =~= Seq::<Justification>::empty());
                    assert forall|k: Seq<char>| k != node_id@ implies #[trigger] self.justs_named(k) == deps_done.justs_named(k)
                        && justs_of(self.tms(), k) == justs_of(deps_done.tms(), k) by {
                        lemma_first_index_push(just_keys(deps_done.tms()), node_id@, k);
                        lemma_first_index(just_keys(deps_done.tms()), k);
                    }
                    let nk = dep_keys(self.tms());
                    assert(nk =~= dep_keys(deps_done.tms()));
                    lemma_first_index(just_keys(deps_done.tms()), node_id@);
                    if unique_keys(just_keys(deps_done.tms())) {
                        let ks = just_keys(self.tms());
                        let n0 = deps_done.justifications@.len() as int;
                        assert forall|a: int, b: int| 0 <= a < ks.len() && 0 <= b < ks.len() && a != b implies ks[a] != ks[b] by {
                            if a < n0 && b < n0 {
                                assert(ks[a] == just_keys(deps_done.tms())[a]);
                                assert(ks[b] == just_keys(deps_done.tms())[b]);
                            } else if a == n0 {
                                assert(ks[b] == just_keys(deps_done.tms())[b]);
                            } else {
                                assert(ks[a] == just_keys(deps_done.tms())[a]);
                            }
                        }
                    }
                    assert(justs_extended(deps_done.tms(), self.tms(), node_id@, jv));
                    assert(justs_of(self.tms(), node_id@) =~= justs_of(deps_done.tms(), node_id@).push(jv));
                }
            },
        }
        let ghost mid = self.tms();
        proof {
            assert forall|k: Seq<char>| k != node_id@ implies #[trigger] justs_of(mid, k) == justs_of(deps_done.tms(), k) by {
                assert(self.justs_named(k) == deps_done.justs_named(k) && justs_of(self.tms(), k) == justs_of(deps_done.tms(), k));
            }
            assert(mid.nodes == v.nodes);
            assert(mid.deps == deps_done.tms().deps);
            assert forall|a: Seq<char>, x: Seq<char>| #[trigger] deps_of(mid, a).contains(x) <==> (deps_of(v, a).contains(x)
                || (x == node_id@ && mentions(jv, a))) by {
                assert(deps_of(mid, a) == deps_of(deps_done.tms(), a));
            }
            if deps_cover(v) {
                assert forall|gi: int, ji: int, a: Seq<char>|
                    #![trigger mentions(mid.justs[gi].1[ji], a)]
                    0 <= gi < mid.justs.len() && 0 <= ji < mid.justs[gi].1.len() && mentions(mid.justs[gi].1[ji], a)
                    implies deps_of(mid, a).contains(mid.justs[gi].0) by {
                    if gi < v.justs.len() && ji < v.justs[gi].1.len() {
                        assert(mid.justs[gi].1[ji] == v.justs[gi].1[ji]);
                        assert(mentions(v.justs[gi].1[ji], a));
                    } else {
                        assert(mid.justs[gi].1[ji] == jv);
                    }
                }
            }
        }
        let ghost after_add = *self;
        let changed = self.refresh(node_id);
        proof {
            assert(self.tms().deps == mid.deps);
            assert(self.tms().justs == mid.justs);
            assert forall|k: Seq<char>| #[trigger] self.justs_named(k) == after_add.justs_named(k) by {}
            assert forall|a: Seq<char>| #[trigger] deps_of(self.tms(), a) == deps_of(mid, a) by {}
            assert(deps_done.tms().justs == v.justs);
            assert(justs_of(deps_done.tms(), node_id@) == justs_of(v, node_id@));
            assert(node_keys(mid) == node_keys(v));
            assert(deps_cover(v) ==> deps_cover(mid));
            assert forall|k: Seq<char>| k != node_id@ implies #[trigger] justs_of(mid, k) == justs_of(v, k) by {
                assert(justs_of(deps_done.tms(), k) == justs_of(v, k));
            }
            let i = node_idx(v, node_id@);
            assert({
                &&& mid.nodes == v.nodes
                &&& justs_of(mid, node_id@) == justs_of(v, node_id@).push(j.jview())
                &&& forall|k: Seq<char>| k != node_id@ ==> #[trigger] justs_of(mid, k) == justs_of(v, k)
                &&& {
                    let t = compute(mid, node_id@);
                    if i >= 0 && v.nodes[i].truth != t {
                        let p = propagation(set_truth(mid, i, t), node_id@);
                        &&& self.tms() == p.net
                        &&& views(changed@) == seq![node_id@] + p.changed
                        &&& bfs_done(p) && deps_cover(v) ==> self.settled(node_id@, p.changed)
                    } else {
                        &&& self.tms() == mid
                        &&& changed@.len() == 0
                    }
                }
            });
        }
        proof {
            if old(self).wf() {
                assert(deps_done.justifications == old(self).justifications);
                assert(unique_keys(just_keys(deps_done.tms())));
                assert(unique_keys(just_keys(mid)));
                assert(just_keys(self.tms()) == just_keys(mid));
                lemma_wf_kept(*old(self), *self);
            }
        }
        changed
    }
}

impl Network {
    /// One pass over the nodes in order: each justified node that is not
    /// retracted takes its computed truth value; the changed ones are
    /// appended to `changed`.
    fn recompute_pass(&mut self, changed: &mut Vec<String>)
        ensures
            ({
                let r = pass_from(old(self).tms(), 0, views(old(changed)@));
                &&& final(self).tms() == r.0
                &&& views(final(changed)@) == r.1
            }),
            final(self).justifications == old(self).justifications,
            final(self).dependents == old(self).dependents,
            final(self).nodes@.len() == old(self).nodes@.len(),
            forall|i: int| 0 <= i < old(self).nodes@.len() ==> same_but_truth(#[trigger] final(self).nodes@[i], old(self).nodes@[i]),
    {
        let ghost v0 = self.tms();
        let ghost c0 = views(changed@);
        let mut k: usize = 0;
        while k < self.nodes.len()
            invariant
                k <= self.nodes@.len(),
                pass_from(v0, 0, c0) == pass_from(self.tms(), k as int, views(changed@)),
                self.justifications == old(self).justifications,
                self.dependents == old(self).dependents,
                self.nodes@.len() == old(self).nodes@.len(),
                forall|i: int| 0 <= i < old(self).nodes@.len() ==> same_but_truth(#[trigger] self.nodes@[i], old(self).nodes@[i]),
            decreases self.nodes@.len() - k,
        {
            let ghost v = self.tms();
            let id = self.nodes[k].id.clone();
            let premise = match self.group_index(id.as_str()) {
                Some(g) => self.justifications[g].justs.len() == 0,
                None => true,
            };
            proof {
                self.lemma_tms_keys();
                assert(v.nodes[k as int].id == id@);
                lemma_first_index(just_keys(v), id@);
            }
            if !premise && !self.nodes[k].metadata.get_flag("_retracted") {
                let new_truth: String = owned(self.compute_truth(id.as_str()));
                if self.nodes[k].truth_value != new_truth {
                    self.set_node_truth(k, new_truth);
                    let ghost cv = views(changed@);
                    changed.push(id);
                    proof {
                        assert(views(changed@) =~= cv.push(v.nodes[k as int].id));
                    }
                }
            }
            k = k + 1;
        }
    }

    /// Recompute every justified node that is not retracted, pass after
    /// pass, until a pass changes nothing or one pass more than there are
    /// nodes has run. Returns the changed nodes in order (a node may occur
    /// more than once).
    pub fn recompute_all(&mut self) -> (all_changed: Vec<String>)
        ensures
            old(self).wf() ==> final(self).wf(),
            final(self).tms() == recomputation(old(self).tms()).0,
            views(all_changed@) == recomputation(old(self).tms()).1,
            fixpoint(final(self).tms()) || all_changed@.len() > old(self).nodes@.len(),
            recompute_frame(old(self).tms(), final(self).tms(), views(all_changed@)),
            final(self).justifications == old(self).justifications,
            final(self).dependents == old(self).dependents,
            final(self).nodes@.len() == old(self).nodes@.len(),
            forall|i: int| 0 <= i < old(self).nodes@.len() ==> same_but_truth(#[trigger] final(self).nodes@[i], old(self).nodes@[i]),
    {
        let ghost v0 = self.tms();
        let n = self.nodes.len();
        let mut all_changed: Vec<String> = Vec::new();
        let mut remaining: usize = n;
        proof {
            assert(views(all_changed@) =~= Seq::<Seq<char>>::empty());
        }
        loop
            invariant_except_break
                recomputation(v0) == passes(self.tms(), (remaining + 1) as nat, views(all_changed@)),
            invariant
                remaining <= n,
                n == old(self).nodes@.len(),
                self.justifications == old(self).justifications,
                self.dependents == old(self).dependents,
                self.nodes@.len() == old(self).nodes@.len(),
                forall|i: int| 0 <= i < old(self).nodes@.len() ==> same_but_truth(#[trigger] self.nodes@[i], old(self).nodes@[i]),
            ensures
                recomputation(v0) == (self.tms(), views(all_changed@)),
                self.justifications == old(self).justifications,
                self.dependents == old(self).dependents,
                self.nodes@.len() == old(self).nodes@.len(),
                forall|i: int| 0 <= i < old(self).nodes@.len() ==> same_but_truth(#[trigger] self.nodes@[i], old(self).nodes@[i]),
            decreases remaining,
        {
            let before = all_changed.len();
            let ghost v = self.tms();
            let ghost cv = views(all_changed@);
            self.recompute_pass(&mut all_changed);
            proof {
                assert(views(all_changed@).len() == all_changed@.len());
                assert(cv.len() == before);
            }
            proof {
                assert(passes(v, (remaining + 1) as nat, cv) == (if views(all_changed@).len() == cv.len() {
                    (self.tms(), views(all_changed@))
                } else {
                    passes(self.tms(), remaining as nat, views(all_changed@))
                }));
            }
            if all_changed.len() == before {
                break;
            }
            if remaining == 0 {
                proof {
                    assert(passes(self.tms(), 0, views(all_changed@)) == (self.tms(), views(all_changed@)));
                }
                break;
            }
            remaining = remaining - 1;
        }
        proof {
            lemma_passes(v0, (v0.nodes.len() + 1) as nat, Seq::empty());
            assert(v0.nodes.len() == n);
        }
        proof {
            if old(self).wf() {
                lemma_wf_kept(*old(self), *self);
            }
        }
        all_changed
    }

    /// Remove the justification at `index` of `node_id` (nothing happens to
    /// the justifications when there is none), rebuild the dependents index
    /// and refresh the node (see `refresh`).
    pub fn remove_justification(&mut self, node_id: &str, index: usize) -> (changed: Vec<String>)
        ensures
            old(self).wf() ==> final(self).wf(),
            exists|mid: TmsView| {
                &&& mid.nodes == old(self).tms().nodes
                &&& mid.justs == final(self).tms().justs
                &&& mid.deps == final(self).tms().deps
                &&& crate::revise::refreshed(mid, final(self).tms(), node_id@, views(changed@))
            },
            final(self).justs_named(node_id@) == (if index < old(self).justs_named(node_id@).len() {
                old(self).justs_named(node_id@).remove(index as int)
            } else {
                old(self).justs_named(node_id@)
            }),
            forall|k: Seq<char>| k != node_id@ ==> #[trigger] final(self).justs_named(k) == old(self).justs_named(k),
            forall|a: Seq<char>, x: Seq<char>|
                #[trigger] deps_of(final(self).tms(), a).contains(x) <==> names(final(self).justifications@, a, x),
            final(self).deps_wf(),
            old(self).keys_match() ==> final(self).keys_match() && deps_cover(final(self).tms()),
            final(self).nodes@.len() == old(self).nodes@.len(),
            forall|k: int| 0 <= k < old(self).nodes@.len() ==> same_but_truth(#[trigger] final(self).nodes@[k], old(self).nodes@[k]),
            ({
                let v = old(self).tms();
                let i = node_idx(v, node_id@);
                exists|mid: TmsView| {
                    &&& mid.nodes == v.nodes
                    &&& mid.justs == final(self).tms().justs
                    &&& mid.deps == final(self).tms().deps
                    &&& {
                        let t = compute(mid, node_id@);
                        if i >= 0 && v.nodes[i].truth != t {
                            let p = propagation(set_truth(mid, i, t), node_id@);
                            &&& final(self).tms() == p.net
                            &&& views(changed@) == seq![node_id@] + p.changed
                            &&& bfs_done(p) && deps_cover(mid) ==> final(self).settled(node_id@, p.changed)
                        } else {
                            &&& final(self).tms() == mid
                            &&& changed@.len() == 0
                        }
                    }
                }
            }),
    {
        let ghost v = self.tms();
        let ghost old_net = *self;
        proof { self.lemma_tms_keys(); }
        if let Some(g) = self.group_index(node_id) {
            if index < self.justifications[g].justs.len() {
                proof { lemma_first_index(just_keys(v), node_id@); }
                self.justifications[g].justs.remove(index);
                proof {
                    self.lemma_tms_keys();
                    assert(just_keys(self.tms()) =~= just_keys(v));
                    assert forall|k: Seq<char>| k != node_id@ implies #[trigger] self.justs_named(k) == old_net.justs_named(k) by {
                        lemma_first_index(just_keys(v), k);
                    }
                    if old_net.keys_match() {
                        assert forall|gi: int, ji: int|
                            0 <= gi < self.justifications@.len() && 0 <= ji < self.justifications@[gi].justs@.len()
                            implies #[trigger] self.justifications@[gi].justs@[ji].node_id@ == self.justifications@[gi].node_id@ by {
                            if gi == g {
                                if ji < index {
                                    assert(self.justifications@[gi].justs@[ji] == old_net.justifications@[gi].justs@[ji]);
                                } else {
                                    assert(self.justifications@[gi].justs@[ji] == old_net.justifications@[gi].justs@[ji + 1]);
                                }
                            } else {
                                assert(self.justifications@[gi] == old_net.justifications@[gi]);
                            }
                        }
                    }
                }
            }
        }
        let ghost removed = *self;
        self.rebuild_dependents();
        proof {
            self.lemma_tms_keys();
            removed.lemma_tms_keys();
            assert forall|k: Seq<char>| #[trigger] self.justs_named(k) == removed.justs_named(k) by {}
        }
        let ghost mid = self.tms();
        let ghost rebuilt = *self;
        let changed = self.refresh(node_id);
        proof {
            assert forall|k: Seq<char>| #[trigger] self.justs_named(k) == rebuilt.justs_named(k) by {}
            assert(self.tms().deps == mid.deps);
            assert(self.tms().justs == mid.justs);
            assert(node_keys(mid) =~= node_keys(v));
            assert(mid.nodes =~= v.nodes);
            assert forall|a: Seq<char>| #[trigger] deps_of(self.tms(), a) == deps_of(mid, a) by {}
            let i = node_idx(v, node_id@);
            assert({
                &&& mid.nodes == v.nodes
                &&& mid.justs == self.tms().justs
                &&& mid.deps == self.tms().deps
                &&& {
                    let t = compute(mid, node_id@);
                    if i >= 0 && v.nodes[i].truth != t {
                        let p = propagation(set_truth(mid, i, t), node_id@);
                        &&& self.tms() == p.net
                        &&& views(changed@) == seq![node_id@] + p.changed
                        &&& bfs_done(p) && deps_cover(mid) ==> self.settled(node_id@, p.changed)
                    } else {
                        &&& self.tms() == mid
                        &&& changed@.len() == 0
                    }
                }
            });
        }
        proof {
            assert(crate::revise::refreshed(mid, self.tms(), node_id@, views(changed@)));
        }
        proof {
            if old(self).wf() {
                lemma_wf_kept(*old(self), *self);
            }
        }
        changed
    }
}

/// The score a kind of belief adds to its entrenchment.
pub open spec fn type_score(bt: Seq<char>) -> int {
    if bt == "AXIOM"@ || bt == "WARNING"@ {
        90
    } else if bt == "OBSERVATION"@ {
        80
    } else if bt == "DERIVED"@ {
        40
    } else if bt == "PREDICTED"@ {
        30
    } else if bt == "NOTE"@ {
        10
    } else {
        20
    }
}

/// The most dependents one node may have for its entrenchment to be
/// computed in 64 bits.
pub open spec fn max_dependents() -> int {
    0x0100_0000_0000_0000
}

impl Network {
    /// How firmly a node is held: 100 for a premise, 50 for a source, 25
    /// for a source hash, 10 per dependent, and a score for its kind of
    /// belief; 0 for an absent node.
    pub open spec fn spec_entrenchment(self, id: Seq<char>) -> int {
        match self.node(id) {
            None => 0,
            Some(n) => (if justs_of(self.tms(), id).len() == 0 {
                100int
            } else {
                0
            }) + (if n.source@.len() > 0 {
                50int
            } else {
                0
            }) + (if n.source_hash@.len() > 0 {
                25int
            } else {
                0
            }) + 10 * deps_of(self.tms(), id).len() + type_score(
                match n.metadata.str_at("beliefs_type"@) {
                    Some(s) => s,
                    None => Seq::<char>::empty(),
                },
            ),
        }
    }

    pub fn entrenchment(&self, node_id: &str) -> (score: i64)
        requires
            deps_of(self.tms(), node_id@).len() <= max_dependents(),
        ensures
            score == self.spec_entrenchment(node_id@),
    {
        let mut score: i64 = 0;
        let i = match self.node_index(node_id) {
            Some(i) => i,
            None => return 0,
        };
        let premise = match self.group_index(node_id) {
            Some(g) => self.justifications[g].justs.len() == 0,
            None => true,
        };
        proof {
            self.lemma_tms_keys();
            lemma_first_index(just_keys(self.tms()), node_id@);
            lemma_first_index(dep_keys(self.tms()), node_id@);
        }
        if premise {
            score = score + 100;
        }
        let node = &self.nodes[i];
        if !node.source.as_str().is_empty() {
            score = score + 50;
        }
        if !node.source_hash.as_str().is_empty() {
            score = score + 25;
        }
        let dep_count: usize = match self.dep_index(node_id) {
            Some(d) => self.dependents[d].dependents.len(),
            None => 0,
        };
        proof {
            assert(dep_count as int == deps_of(self.tms(), node_id@).len());
        }
        score = score + (dep_count as i64) * 10;
        let bt: &str = match node.metadata.get_str("beliefs_type") {
            Some(s) => s.as_str(),
            None => "",
        };
        let ts: i64 = if str_eq(bt, "AXIOM") || str_eq(bt, "WARNING") {
            90
        } else if str_eq(bt, "OBSERVATION") {
            80
        } else if str_eq(bt, "DERIVED") {
            40
        } else if str_eq(bt, "PREDICTED") {
            30
        } else if str_eq(bt, "NOTE") {
            10
        } else {
            20
        };
        proof {
            assert(""@ == Seq::<char>::empty()) by { reveal_strlit(""); }
        }
        score + ts
    }
}

/// `y` is a premise, or each antecedent of its justifications is in `vs`.
pub open spec fn closed_in(v: TmsView, y: Seq<char>, vs: Set<Seq<char>>) -> bool {
    justs_of(v, y).len() == 0 || forall|c: Seq<char>| #[trigger] child(v, y, c) ==> vs.contains(c)
}

/// `premises` lists, once each, exactly the premises among `visited`.
pub open spec fn premises_of(v: TmsView, premises: Seq<Seq<char>>, visited: Set<Seq<char>>) -> bool {
    &&& no_dups(premises)
    &&& forall|p: Seq<char>| #[trigger] premises.contains(p) <==> visited.contains(p) && justs_of(v, p).len() == 0
}

/// A depth-first trace from `id`, given the nodes visited and the
/// premises found so far: an unvisited node is marked; a premise is
/// recorded; the antecedents of a justified node's justifications are
/// traced in order. `fuel` bounds the depth.
pub open spec fn trace_step(
    v: TmsView,
    id: Seq<char>,
    vis: Seq<Seq<char>>,
    prem: Seq<Seq<char>>,
    fuel: nat,
) -> (Seq<Seq<char>>, Seq<Seq<char>>)
    decreases fuel, 0nat,
{
    if vis.contains(id) || fuel == 0 {
        (vis, prem)
    } else if justs_of(v, id).len() == 0 {
        (vis.push(id), prem.push(id))
    } else {
        trace_list(v, group_ants(justs_of(v, id)), vis.push(id), prem, (fuel - 1) as nat)
    }
}

/// Depth-first traces from each of `ids` in turn.
pub open spec fn trace_list(
    v: TmsView,
    ids: Seq<Seq<char>>,
    vis: Seq<Seq<char>>,
    prem: Seq<Seq<char>>,
    fuel: nat,
) -> (Seq<Seq<char>>, Seq<Seq<char>>)
    decreases fuel, ids.len() + 1,
{
    if ids.len() == 0 {
        (vis, prem)
    } else {
        let r = trace_list(v, ids.drop_last(), vis, prem, fuel);
        trace_step(v, ids.last(), r.0, r.1, fuel)
    }
}

/// The premises a trace from `id` finds, in the order it finds them.
pub open spec fn premise_order(v: TmsView, id: Seq<char>) -> Seq<Seq<char>> {
    trace_step(v, id, Seq::empty(), Seq::empty(), (universe(v, id).len() + 1) as nat).1
}

pub proof fn lemma_reach_step(v: TmsView, root: Seq<char>, x: Seq<char>, y: Seq<char>)
    requires
        reaches(v, root, x),
        justs_of(v, x).len() > 0,
        child(v, x, y),
    ensures
        reaches(v, root, y),
{
    let path = choose|path: Seq<Seq<char>>| #[trigger] is_path(v, path) && path[0] == root && path.last() == x;
    let p2 = path.push(y);
    assert forall|i: int| 0 <= i < p2.len() - 1 implies justs_of(v, #[trigger] p2[i]).len() > 0 && child(
        v,
        p2[i],
        p2[i + 1],
    ) by {
        if i < path.len() - 1 {
            assert(p2[i] == path[i] && p2[i + 1] == path[i + 1]);
        } else {
            assert(p2[i] == x && p2[i + 1] == y);
        }
    }
    assert(is_path(v, p2));
}

/// Every node reachable from `root` is in a set that contains `root` and
/// each antecedent of each justified member.
pub proof fn lemma_closed_reach(v: TmsView, root: Seq<char>, vs: Set<Seq<char>>, p: Seq<char>)
    requires
        vs.contains(root),
        forall|y: Seq<char>| vs.contains(y) ==> #[trigger] closed_in(v, y, vs),
        reaches(v, root, p),
    ensures
        vs.contains(p),
{
    let path = choose|path: Seq<Seq<char>>| #[trigger] is_path(v, path) && path[0] == root && path.last() == p;
    lemma_closed_path(v, vs, path, path.len() - 1);
}

pub proof fn lemma_closed_path(v: TmsView, vs: Set<Seq<char>>, path: Seq<Seq<char>>, i: int)
    requires
        is_path(v, path),
        0 <= i < path.len(),
        vs.contains(path[0]),
        forall|y: Seq<char>| vs.contains(y) ==> #[trigger] closed_in(v, y, vs),
    ensures
        vs.contains(path[i]),
    decreases i,
{
    if i > 0 {
        lemma_closed_path(v, vs, path, i - 1);
        assert(justs_of(v, path[i - 1]).len() > 0 && child(v, path[i - 1], path[i]));
        assert(closed_in(v, path[i - 1], vs));
    }
}

impl Network {
    /// Depth-first from `node_id`: a node not yet visited is marked; a
    /// premise is recorded, and the antecedents of a justified node are
    /// traced in order.
    fn trace_premises(
        &self,
        node_id: &str,
        premises: &mut Vec<String>,
        visited: &mut Vec<String>,
        Ghost(root): Ghost<Seq<char>>,
        Ghost(stack): Ghost<Set<Seq<char>>>,
    )
        requires
            universe(self.tms(), root).contains(node_id@),
            reaches(self.tms(), root, node_id@),
            forall|y: Seq<char>| views(old(visited)@).contains(y) ==> #[trigger] reaches(self.tms(), root, y),
            premises_of(self.tms(), views(old(premises)@), views(old(visited)@).to_set()),
            forall|y: Seq<char>|
                #[trigger] views(old(visited)@).contains(y) && !stack.contains(y) ==> closed_in(
                    self.tms(),
                    y,
                    views(old(visited)@).to_set(),
                ),
        ensures
            views(old(visited)@).to_set().subset_of(views(final(visited)@).to_set()),
            views(final(visited)@).contains(node_id@),
            forall|y: Seq<char>| views(final(visited)@).contains(y) ==> #[trigger] reaches(self.tms(), root, y),
            premises_of(self.tms(), views(final(premises)@), views(final(visited)@).to_set()),
            forall|y: Seq<char>|
                #[trigger] views(final(visited)@).contains(y) && !stack.contains(y) ==> closed_in(
                    self.tms(),
                    y,
                    views(final(visited)@).to_set(),
                ),
            forall|f: nat|
                f > unvisited(universe(self.tms(), root), views(old(visited)@).to_set()) ==> #[trigger] trace_step(
                    self.tms(),
                    node_id@,
                    views(old(visited)@),
                    views(old(premises)@),
                    f,
                ) == (views(final(visited)@), views(final(premises)@)),
        decreases unvisited(universe(self.tms(), root), views(old(visited)@).to_set()),
    {
        let ghost v = self.tms();
        let ghost vs0 = views(visited@).to_set();
        if contains_str(visited, node_id) {
            return;
        }
        let ghost vis_before = views(visited@);
        visited.push(owned(node_id));
        proof {
            assert(views(visited@) =~= vis_before.push(node_id@));
            assert forall|y: Seq<char>| #[trigger] views(visited@).contains(y) <==> vis_before.contains(y) || y == node_id@ by {
                lemma_push_contains(vis_before, node_id@, y);
            }
        }
        let ghost vs1 = views(visited@).to_set();
        proof {
            assert(vs0.subset_of(vs1));
            lemma_unvisited_strict(universe(v, root), vs0, vs1, node_id@);
        }
        let group = self.group_index(node_id);
        proof {
            self.lemma_tms_keys();
            lemma_first_index(just_keys(v), node_id@);
        }
        let premise = match group {
            Some(g) => self.justifications[g].justs.len() == 0,
            None => true,
        };
        if premise {
            let ghost pv = views(premises@);
            premises.push(owned(node_id));
            proof {
                assert(views(premises@) =~= pv.push(node_id@));
                assert forall|p: Seq<char>| #[trigger] views(premises@).contains(p) <==> vs1.contains(p) && justs_of(v, p).len() == 0 by {
                    lemma_push_contains(pv, node_id@, p);
                }
                assert forall|i: int, j: int| 0 <= i < views(premises@).len() && 0 <= j < views(premises@).len() && i != j
                    implies views(premises@)[i] != views(premises@)[j] by {
                    if i < pv.len() && j < pv.len() {
                    } else if i < pv.len() {
                        assert(pv.contains(views(premises@)[i]));
                    } else {
                        assert(pv.contains(views(premises@)[j]));
                    }
                }
                assert forall|y: Seq<char>| #[trigger] views(visited@).contains(y) && !stack.contains(y) implies closed_in(
                    v, y, vs1) by {
                    if y != node_id@ {
                        assert(closed_in(v, y, vs0));
                    }
                }
                assert(!vis_before.contains(node_id@));
                assert(justs_of(v, node_id@).len() == 0);
            }
            return;
        }
        let g = group.unwrap();
        let ghost js = justs_of(v, node_id@);
        let ghost vis1 = views(visited@);
        let ghost prem1 = views(premises@);
        let ghost u0 = unvisited(universe(v, root), vs0);
        let n = self.justifications[g].justs.len();
        proof {
            assert(js.take(0) =~= Seq::<JustView>::empty());
            assert forall|g2: nat| g2 >= u0 implies #[trigger] trace_list(v, group_ants(js.take(0)), vis1, prem1, g2) == (
                views(visited@),
                views(premises@),
            ) by {
                assert(group_ants(js.take(0)) =~= Seq::<Seq<char>>::empty());
            }
        }
        proof {
            assert(js == self.tms().justs[g as int].1);
            assert forall|y: Seq<char>| #[trigger] views(visited@).contains(y) && !stack.insert(node_id@).contains(y) implies closed_in(
                v, y, vs1) by {
                assert(closed_in(v, y, vs0));
            }
            assert forall|p: Seq<char>| #[trigger] views(premises@).contains(p) <==> vs1.contains(p) && justs_of(v, p).len() == 0 by {}
        }
        let mut jk: usize = 0;
        while jk < n
            invariant
                v == self.tms(),
                n == js.len(),
                js == justs_of(v, node_id@),
                js == self.tms().justs[g as int].1,
                g < self.justifications@.len(),
                jk <= n,
                js.len() > 0,
                universe(v, root).contains(node_id@),
                reaches(v, root, node_id@),
                vs0.subset_of(views(visited@).to_set()),
                vs0 == views(old(visited)@).to_set(),
                views(visited@).contains(node_id@),
                !vs0.contains(node_id@),
                unvisited(universe(v, root), views(visited@).to_set()) < unvisited(universe(v, root), vs0),
                forall|y: Seq<char>| views(visited@).contains(y) ==> #[trigger] reaches(v, root, y),
                premises_of(v, views(premises@), views(visited@).to_set()),
                forall|y: Seq<char>|
                    #[trigger] views(visited@).contains(y) && !stack.insert(node_id@).contains(y) ==> closed_in(
                        v,
                        y,
                        views(visited@).to_set(),
                    ),
                forall|k: int, c: Seq<char>| 0 <= k < jk && #[trigger] js[k].ants.contains(c) ==> views(visited@).contains(c),
                vis1 == vis_before.push(node_id@),
                prem1 == views(old(premises)@),
                u0 == unvisited(universe(v, root), vs0),
                forall|g2: nat|
                    g2 >= u0 ==> #[trigger] trace_list(v, group_ants(js.take(jk as int)), vis1, prem1, g2) == (
                        views(visited@),
                        views(premises@),
                    ),
            decreases n - jk,
        {
            let na = self.justifications[g].justs[jk].antecedents.len();
            let ghost ants = js[jk as int].ants;
            proof {
                assert(ants == views(self.justifications@[g as int].justs@[jk as int].antecedents@));
            }
            let mut ak: usize = 0;
            while ak < na
                invariant
                    v == self.tms(),
                    n == js.len(),
                    js == justs_of(v, node_id@),
                    js == self.tms().justs[g as int].1,
                    g < self.justifications@.len(),
                    jk < n,
                    ants == js[jk as int].ants,
                    ants == views(self.justifications@[g as int].justs@[jk as int].antecedents@),
                    na == ants.len(),
                    ak <= na,
                    js.len() > 0,
                    universe(v, root).contains(node_id@),
                    reaches(v, root, node_id@),
                    vs0.subset_of(views(visited@).to_set()),
                    vs0 == views(old(visited)@).to_set(),
                    views(visited@).contains(node_id@),
                    !vs0.contains(node_id@),
                    unvisited(universe(v, root), views(visited@).to_set()) < unvisited(universe(v, root), vs0),
                    forall|y: Seq<char>| views(visited@).contains(y) ==> #[trigger] reaches(v, root, y),
                    premises_of(v, views(premises@), views(visited@).to_set()),
                    forall|y: Seq<char>|
                        #[trigger] views(visited@).contains(y) && !stack.insert(node_id@).contains(y) ==> closed_in(
                            v,
                            y,
                            views(visited@).to_set(),
                        ),
                    forall|k: int, c: Seq<char>| 0 <= k < jk && #[trigger] js[k].ants.contains(c) ==> views(visited@).contains(c),
                    forall|i: int| 0 <= i < ak ==> views(visited@).contains(#[trigger] ants[i]),
                vis1 == vis_before.push(node_id@),
                prem1 == views(old(premises)@),
                u0 == unvisited(universe(v, root), vs0),
                forall|g2: nat|
                    g2 >= u0 ==> #[trigger] trace_list(
                        v,
                        group_ants(js.take(jk as int)) + ants.take(ak as int),
                        vis1,
                        prem1,
                        g2,
                    ) == (views(visited@), views(premises@)),
                decreases na - ak,
            {
                let a = &self.justifications[g].justs[jk].antecedents[ak];
                let ghost vsb = views(visited@).to_set();
                let ghost visb = views(visited@);
                let ghost premb = views(premises@);
                proof {
                    assert(ants[ak as int] == a@);
                    assert(js[jk as int].ants.contains(a@));
                    assert(child(v, node_id@, a@));
                    lemma_child_in_universe(v, root, node_id@, a@);
                    lemma_reach_step(v, root, node_id@, a@);
                    lemma_unvisited_mono(universe(v, root), vs0, vsb);
                }
                self.trace_premises(a.as_str(), premises, visited, Ghost(root), Ghost(stack.insert(node_id@)));
                proof {
                    let vsa = views(visited@).to_set();
                    lemma_unvisited_mono(universe(v, root), vsb, vsa);
                    assert(vsb.contains(node_id@));
                    assert(vsa.contains(node_id@));
                    assert forall|i: int| 0 <= i < ak + 1 implies views(visited@).contains(#[trigger] ants[i]) by {
                        if i < ak {
                            assert(vsb.contains(ants[i]));
                        }
                    }
                    assert forall|k: int, c: Seq<char>| 0 <= k < jk && #[trigger] js[k].ants.contains(c) implies views(
                        visited@,
                    ).contains(c) by {
                        assert(vsb.contains(c));
                    }
                    assert(vs0.subset_of(vsa));
                    let pre = group_ants(js.take(jk as int)) + ants.take(ak as int);
                    let pre2 = group_ants(js.take(jk as int)) + ants.take(ak + 1);
                    assert(pre2.drop_last() =~= pre);
                    assert(pre2.last() == a@);
                    assert forall|g2: nat| g2 >= u0 implies #[trigger] trace_list(v, pre2, vis1, prem1, g2) == (
                        views(visited@),
                        views(premises@),
                    ) by {
                        assert(trace_list(v, pre, vis1, prem1, g2) == (visb, premb));
                        assert(g2 > unvisited(universe(v, root), visb.to_set()));
                        assert(trace_step(v, a@, visb, premb, g2) == (views(visited@), views(premises@)));
                    }
                }
                ak = ak + 1;
            }
            proof {
                assert(ants.take(na as int) =~= ants);
                assert(js.take(jk + 1).drop_last() =~= js.take(jk as int));
                assert(js.take(jk + 1).last() == js[jk as int]);
                assert(group_ants(js.take(jk + 1)) == group_ants(js.take(jk as int)) + ants);
                assert forall|g2: nat| g2 >= u0 implies #[trigger] trace_list(v, group_ants(js.take(jk + 1)), vis1, prem1, g2)
                    == (views(visited@), views(premises@)) by {
                    assert(trace_list(v, group_ants(js.take(jk as int)) + ants.take(na as int), vis1, prem1, g2) == (
                        views(visited@),
                        views(premises@),
                    ));
                }
                assert forall|k: int, c: Seq<char>| 0 <= k < jk + 1 && #[trigger] js[k].ants.contains(c) implies views(
                    visited@,
                ).contains(c) by {
                    if k == jk {
                        let i = choose|i: int| 0 <= i < ants.len() && ants[i] == c;
                        assert(views(visited@).contains(ants[i]));
                    }
                }
            }
            jk = jk + 1;
        }
        proof {
            assert(js.take(n as int) =~= js);
            assert forall|f: nat| f > u0 implies #[trigger] trace_step(v, node_id@, vis_before, views(old(premises)@), f) == (
                views(visited@),
                views(premises@),
            ) by {
                assert(trace_list(v, group_ants(js.take(n as int)), vis1, prem1, (f - 1) as nat) == (
                    views(visited@),
                    views(premises@),
                ));
            }
            let vs = views(visited@).to_set();
            assert(closed_in(v, node_id@, vs)) by {
                assert forall|c: Seq<char>| #[trigger] child(v, node_id@, c) implies vs.contains(c) by {
                    let k = choose|k: int| 0 <= k < justs_of(v, node_id@).len() && #[trigger] justs_of(v, node_id@)[k].ants.contains(c);
                    assert(js[k].ants.contains(c));
                }
            }
        }
    }

    /// The premises that support `node_id`: the node itself when it is a
    /// premise, otherwise the premises reached through its justifications'
    /// antecedents, each once, in depth-first order.
    pub fn find_premises(&self, node_id: &str) -> (premises: Vec<String>)
        ensures
            views(premises@) == premise_order(self.tms(), node_id@),
            no_dups(views(premises@)),
            forall|p: Seq<char>|
                #[trigger] views(premises@).contains(p) <==> supporting_premise(self.tms(), node_id@, p),
    {
        let ghost v = self.tms();
        let mut premises: Vec<String> = Vec::new();
        let mut visited: Vec<String> = Vec::new();
        proof {
            assert(universe(v, node_id@).last() == node_id@);
            assert(universe(v, node_id@).contains(node_id@)) by {
                assert(universe(v, node_id@)[universe(v, node_id@).len() - 1] == node_id@);
            }
            let path = seq![node_id@];
            assert(is_path(v, path));
            assert(views(visited@) =~= Seq::<Seq<char>>::empty());
            assert(views(premises@) =~= Seq::<Seq<char>>::empty());
            assert(views(visited@).to_set() =~= Set::<Seq<char>>::empty());
        }
        self.trace_premises(node_id, &mut premises, &mut visited, Ghost(node_id@), Ghost(Set::empty()));
        proof {
            crate::model::lemma_unvisited_le(universe(v, node_id@), Set::<Seq<char>>::empty());
            let f = (universe(v, node_id@).len() + 1) as nat;
            assert(trace_step(v, node_id@, Seq::empty(), Seq::empty(), f) == (views(visited@), views(premises@)));
            let vs = views(visited@).to_set();
            assert forall|y: Seq<char>| vs.contains(y) implies #[trigger] closed_in(v, y, vs) by {
                assert(views(visited@).contains(y));
            }
            assert forall|p: Seq<char>| #[trigger] views(premises@).contains(p) <==> supporting_premise(v, node_id@, p) by {
                if supporting_premise(v, node_id@, p) {
                    lemma_closed_reach(v, node_id@, vs, p);
                }
                if views(premises@).contains(p) {
                    assert(views(visited@).contains(p));
                }
            }
        }
        premises
    }
}

/// No dependents list is too long for entrenchment scores.
pub open spec fn deps_bounded(v: TmsView) -> bool {
    forall|d: int| 0 <= d < v.deps.len() ==> #[trigger] v.deps[d].1.len() <= max_dependents()
}

/// `p` is a premise supporting one of the `ids` that is IN.
pub open spec fn culprit_of(v: TmsView, ids: Seq<Seq<char>>, p: Seq<char>) -> bool {
    exists|k: int| 0 <= k < ids.len() && is_in(v, #[trigger] ids[k]) && supporting_premise(v, ids[k], p)
}

/// The scores never decrease along `s`.
pub open spec fn sorted_by_score(s: Seq<(String, i64)>) -> bool {
    forall|i: int, j: int| 0 <= i <= j < s.len() ==> s[i].1 <= s[j].1
}

pub open spec fn pair_ids(s: Seq<(String, i64)>) -> Seq<Seq<char>> {
    s.map_values(|e: (String, i64)| e.0@)
}

impl Network {
    /// Sort by score, keeping the order of equal scores.
    fn sort_by_score(items: Vec<(String, i64)>) -> (sorted: Vec<(String, i64)>)
        ensures
            sorted_by_score(sorted@),
            forall|x: (String, i64)| #[trigger] sorted@.contains(x) <==> items@.contains(x),
            no_dups(pair_ids(items@)) ==> no_dups(pair_ids(sorted@)),
            forall|x: Seq<char>| #[trigger] pair_ids(sorted@).contains(x) <==> pair_ids(items@).contains(x),
    {
        let ghost input = items@;
        let mut rest = reversed(items);
        let mut sorted: Vec<(String, i64)> = Vec::new();
        while rest.len() > 0
            invariant
                rest@ == input.skip(input.len() - rest@.len()).reverse(),
                rest@.len() <= input.len(),
                sorted_by_score(sorted@),
                forall|x: (String, i64)| #[trigger] sorted@.contains(x) <==> input.take(input.len() - rest@.len()).contains(x),
                no_dups(pair_ids(input)) ==> no_dups(pair_ids(sorted@)),
                forall|x: Seq<char>| #[trigger] pair_ids(sorted@).contains(x) <==> pair_ids(input.take(input.len() - rest@.len())).contains(x),
            decreases rest@.len(),
        {
            let ghost done = input.len() - rest@.len();
            let c = rest.pop().unwrap();
            proof {
                assert(c == input[done]);
                assert(input.take(done + 1) =~= input.take(done).push(c));
                assert(rest@ =~= input.skip(done + 1).reverse());
                assert(pair_ids(input.take(done + 1)) =~= pair_ids(input.take(done)).push(c.0@));
            }
            let mut pos: usize = 0;
            while pos < sorted.len() && sorted[pos].1 <= c.1
                invariant
                    pos <= sorted@.len(),
                    forall|i: int| 0 <= i < pos ==> sorted@[i].1 <= c.1,
                decreases sorted@.len() - pos,
            {
                pos = pos + 1;
            }
            let ghost before = sorted@;
            let ghost cc = c;
            sorted.insert(pos, c);
            proof {
                assert(sorted@ =~= before.take(pos as int).push(cc) + before.skip(pos as int));
                assert forall|i: int, j: int| 0 <= i <= j < sorted@.len() implies sorted@[i].1 <= sorted@[j].1 by {
                    if i < pos && j < pos {
                        assert(sorted@[i] == before[i] && sorted@[j] == before[j]);
                    } else if i < pos && j == pos {
                        assert(sorted@[i] == before[i]);
                    } else if i < pos {
                        assert(sorted@[i] == before[i] && sorted@[j] == before[j - 1]);
                    } else if i == pos && j > pos {
                        assert(sorted@[j] == before[j - 1]);
                        assert(pos < before.len());
                        assert(before[pos as int].1 > cc.1);
                    } else if i > pos {
                        assert(sorted@[i] == before[i - 1] && sorted@[j] == before[j - 1]);
                    }
                }
                assert forall|x: (String, i64)| #[trigger] sorted@.contains(x) <==> (before.contains(x) || x == cc) by {
                    if sorted@.contains(x) {
                        let i = choose|i: int| 0 <= i < sorted@.len() && sorted@[i] == x;
                        if i < pos {
                            assert(before[i] == x);
                        } else if i > pos {
                            assert(before[i - 1] == x);
                        }
                    }
                    if before.contains(x) {
                        let i = choose|i: int| 0 <= i < before.len() && before[i] == x;
                        if i < pos {
                            assert(sorted@[i] == x);
                        } else {
                            assert(sorted@[i + 1] == x);
                        }
                    }
                    if x == cc {
                        assert(sorted@[pos as int] == x);
                    }
                }
                assert forall|x: (String, i64)| #[trigger] sorted@.contains(x) <==> input.take(done + 1).contains(x) by {
                    lemma_push_contains(input.take(done), cc, x);
                }
                assert forall|x: Seq<char>| #[trigger] pair_ids(sorted@).contains(x) <==> (pair_ids(before).contains(x) || x == cc.0@) by {
                    if pair_ids(sorted@).contains(x) {
                        let i = choose|i: int| 0 <= i < sorted@.len() && pair_ids(sorted@)[i] == x;
                        if i < pos {
                            assert(pair_ids(before)[i] == x);
                        } else if i > pos {
                            assert(pair_ids(before)[i - 1] == x);
                        }
                    }
                    if pair_ids(before).contains(x) {
                        let i = choose|i: int| 0 <= i < before.len() && pair_ids(before)[i] == x;
                        if i < pos {
                            assert(pair_ids(sorted@)[i] == x);
                        } else {
                            assert(pair_ids(sorted@)[i + 1] == x);
                        }
                    }
                    if x == cc.0@ {
                        assert(pair_ids(sorted@)[pos as int] == x);
                    }
                }
                assert forall|x: Seq<char>| #[trigger] pair_ids(sorted@).contains(x) <==> pair_ids(input.take(done + 1)).contains(x) by {
                    lemma_push_contains(pair_ids(input.take(done)), cc.0@, x);
                }
                if no_dups(pair_ids(input)) {
                    assert(!pair_ids(before).contains(cc.0@)) by {
                        if pair_ids(input.take(done)).contains(cc.0@) {
                            let i = choose|i: int| 0 <= i < done && pair_ids(input.take(done))[i] == cc.0@;
                            assert(pair_ids(input)[i] == pair_ids(input)[done]);
                        }
                    }
                    let ps = pair_ids(sorted@);
                    assert forall|i: int, j: int| 0 <= i < ps.len() && 0 <= j < ps.len() && i != j implies ps[i] != ps[j] by {
                        let pb = pair_ids(before);
                        if i == pos {
                            if j < pos { assert(ps[j] == pb[j]); } else { assert(ps[j] == pb[j - 1]); }
                        } else if j == pos {
                            if i < pos { assert(ps[i] == pb[i]); } else { assert(ps[i] == pb[i - 1]); }
                        } else {
                            let bi = if i < pos { i } else { i - 1 };
                            let bj = if j < pos { j } else { j - 1 };
                            assert(ps[i] == pb[bi] && ps[j] == pb[bj]);
                        }
                    }
                }
            }
        }
        proof {
            assert(input.take(input.len() as int) =~= input);
        }
        sorted
    }

    /// The premises supporting those of `nogood_ids` that are IN, each once,
    /// with their entrenchment, least entrenched first.
    pub fn find_culprits(&self, nogood_ids: &[String]) -> (candidates: Vec<(String, i64)>)
        requires
            deps_bounded(self.tms()),
        ensures
            sorted_by_score(candidates@),
            no_dups(pair_ids(candidates@)),
            forall|p: Seq<char>| #[trigger] pair_ids(candidates@).contains(p) <==> culprit_of(self.tms(), views(nogood_ids@), p),
            forall|i: int| 0 <= i < candidates@.len() ==> #[trigger] candidates@[i].1 == self.spec_entrenchment(candidates@[i].0@),
    {
        let ghost v = self.tms();
        let ghost ids = views(nogood_ids@);
        let mut all: Vec<String> = Vec::new();
        let mut k: usize = 0;
        while k < nogood_ids.len()
            invariant
                v == self.tms(),
                ids == views(nogood_ids@),
                k <= nogood_ids@.len(),
                no_dups(views(all@)),
                forall|p: Seq<char>| #[trigger] views(all@).contains(p) <==> culprit_of(v, ids.take(k as int), p),
            decreases nogood_ids@.len() - k,
        {
            let nid = &nogood_ids[k];
            proof {
                assert(ids[k as int] == nid@);
                assert(ids.take(k + 1) =~= ids.take(k as int).push(nid@));
            }
            if self.node_is_in(nid.as_str()) {
                let ps = self.find_premises(nid.as_str());
                let mut i: usize = 0;
                while i < ps.len()
                    invariant
                        v == self.tms(),
                        ids == views(nogood_ids@),
                        k < nogood_ids@.len(),
                        ids[k as int] == nid@,
                        is_in(v, nid@),
                        i <= ps@.len(),
                        forall|p: Seq<char>| #[trigger] views(ps@).contains(p) <==> supporting_premise(v, nid@, p),
                        no_dups(views(all@)),
                        forall|p: Seq<char>| #[trigger] views(all@).contains(p) <==> (culprit_of(v, ids.take(k as int), p)
                            || views(ps@).take(i as int).contains(p)),
                    decreases ps@.len() - i,
                {
                    let ghost av = views(all@);
                    proof {
                        assert(views(ps@).take(i + 1) =~= views(ps@).take(i as int).push(ps@[i as int]@));
                    }
                    if !contains_str(&all, ps[i].as_str()) {
                        all.push(ps[i].clone());
                        proof {
                            assert(views(all@) =~= av.push(ps@[i as int]@));
                            assert forall|a: int, b: int| 0 <= a < views(all@).len() && 0 <= b < views(all@).len() && a != b
                                implies views(all@)[a] != views(all@)[b] by {
                                if a < av.len() && b < av.len() {
                                } else if a < av.len() {
                                    assert(av.contains(views(all@)[a]));
                                } else {
                                    assert(av.contains(views(all@)[b]));
                                }
                            }
                        }
                    }
                    proof {
                        assert forall|p: Seq<char>| #[trigger] views(all@).contains(p) <==> (culprit_of(v, ids.take(k as int), p)
                            || views(ps@).take(i + 1).contains(p)) by {
                            lemma_push_contains(av, ps@[i as int]@, p);
                            lemma_push_contains(views(ps@).take(i as int), ps@[i as int]@, p);
                        }
                    }
                    i = i + 1;
                }
                proof {
                    assert(views(ps@).take(ps@.len() as int) =~= views(ps@));
                    assert forall|p: Seq<char>| #[trigger] views(all@).contains(p) <==> culprit_of(v, ids.take(k + 1), p) by {
                        if culprit_of(v, ids.take(k + 1), p) {
                            let kk = choose|kk: int| 0 <= kk < ids.take(k + 1).len() && is_in(v, #[trigger] ids.take(k + 1)[kk])
                                && supporting_premise(v, ids.take(k + 1)[kk], p);
                            if kk < k {
                                assert(ids.take(k as int)[kk] == ids.take(k + 1)[kk]);
                                assert(culprit_of(v, ids.take(k as int), p));
                            }
                        }
                        if culprit_of(v, ids.take(k as int), p) {
                            let kk = choose|kk: int| 0 <= kk < ids.take(k as int).len() && is_in(v, #[trigger] ids.take(k as int)[kk])
                                && supporting_premise(v, ids.take(k as int)[kk], p);
                            assert(ids.take(k + 1)[kk] == ids.take(k as int)[kk]);
                        }
                        if views(ps@).contains(p) {
                            assert(ids.take(k + 1)[k as int] == nid@);
                        }
                    }
                }
            } else {
                proof {
                    assert forall|p: Seq<char>| #[trigger] views(all@).contains(p) <==> culprit_of(v, ids.take(k + 1), p) by {
                        if culprit_of(v, ids.take(k + 1), p) {
                            let kk = choose|kk: int| 0 <= kk < ids.take(k + 1).len() && is_in(v, #[trigger] ids.take(k + 1)[kk])
                                && supporting_premise(v, ids.take(k + 1)[kk], p);
                            assert(kk != k);
                            assert(ids.take(k as int)[kk] == ids.take(k + 1)[kk]);
                        }
                        if culprit_of(v, ids.take(k as int), p) {
                            let kk = choose|kk: int| 0 <= kk < ids.take(k as int).len() && is_in(v, #[trigger] ids.take(k as int)[kk])
                                && supporting_premise(v, ids.take(k as int)[kk], p);
                            assert(ids.take(k + 1)[kk] == ids.take(k as int)[kk]);
                        }
                    }
                }
            }
            k = k + 1;
        }
        proof {
            assert(ids.take(nogood_ids@.len() as int) =~= ids);
        }
        let mut scored: Vec<(String, i64)> = Vec::new();
        let mut i: usize = 0;
        while i < all.len()
            invariant
                v == self.tms(),
                deps_bounded(v),
                i <= all@.len(),
                scored@.len() == i,
                forall|j: int| 0 <= j < i ==> #[trigger] scored@[j].0@ == all@[j]@,
                forall|j: int| 0 <= j < i ==> #[trigger] scored@[j].1 == self.spec_entrenchment(scored@[j].0@),
            decreases all@.len() - i,
        {
            proof {
                lemma_first_index(dep_keys(v), all@[i as int]@);
            }
            let score = self.entrenchment(all[i].as_str());
            scored.push((all[i].clone(), score));
            i = i + 1;
        }
        proof {
            assert(pair_ids(scored@) =~= views(all@));
        }
        let sorted = Network::sort_by_score(scored);
        proof {
            assert forall|j: int| 0 <= j < sorted@.len() implies #[trigger] sorted@[j].1 == self.spec_entrenchment(sorted@[j].0@) by {
                assert(sorted@.contains(sorted@[j]));
                let m = choose|m: int| 0 <= m < scored@.len() && scored@[m] == sorted@[j];
            }
        }
        sorted
    }
}
} // verus!
