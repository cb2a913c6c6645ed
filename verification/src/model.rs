//! The mathematical model of a belief network: nodes reduced to what truth
//! maintenance reads (id, truth value, retraction flag), justifications
//! reduced to their in-lists and out-lists, and the dependents index.
use vstd::prelude::*;

verus! {

/// The truth value `IN`.
pub open spec fn in_tv() -> Seq<char> {
    "IN"@
}

/// The truth value `OUT`.
pub open spec fn out_tv() -> Seq<char> {
    "OUT"@
}

/// `s` with `x` added at the end unless it is already there.
pub open spec fn seq_add(s: Seq<Seq<char>>, x: Seq<char>) -> Seq<Seq<char>> {
    if s.contains(x) {
        s
    } else {
        s.push(x)
    }
}

pub proof fn lemma_push_contains<T>(s: Seq<T>, x: T, y: T)
    ensures
        s.push(x).contains(y) <==> (s.contains(y) || y == x),
{
    if s.contains(y) {
        let i = choose|i: int| 0 <= i < s.len() && s[i] == y;
        assert(s.push(x)[i] == y);
    }
    if y == x {
        assert(s.push(x)[s.len() as int] == y);
    }
    if s.push(x).contains(y) {
        let i = choose|i: int| 0 <= i < s.push(x).len() && s.push(x)[i] == y;
        if i < s.len() {
            assert(s[i] == y);
        }
    }
}

pub proof fn lemma_cons_contains<T>(s: Seq<T>, x: T, y: T)
    ensures
        (seq![x] + s).contains(y) <==> (s.contains(y) || y == x),
{
    let c = seq![x] + s;
    if s.contains(y) {
        let i = choose|i: int| 0 <= i < s.len() && s[i] == y;
        assert(c[i + 1] == y);
    }
    if y == x {
        assert(c[0] == y);
    }
    if c.contains(y) {
        let i = choose|i: int| 0 <= i < c.len() && c[i] == y;
        if i > 0 {
            assert(s[i - 1] == y);
        }
    }
}

pub proof fn lemma_seq_add(s: Seq<Seq<char>>, x: Seq<char>, y: Seq<char>)
    ensures
        seq_add(s, x).contains(y) <==> (s.contains(y) || y == x),
{
    lemma_push_contains(s, x, y);
}

/// Position of the first occurrence of `k` in `keys`, or -1.
pub open spec fn first_index(keys: Seq<Seq<char>>, k: Seq<char>) -> int
    decreases keys.len(),
{
    if keys.len() == 0 {
        -1
    } else if keys[0] == k {
        0
    } else {
        let r = first_index(keys.drop_first(), k);
        if r < 0 {
            -1
        } else {
            r + 1
        }
    }
}

pub proof fn lemma_first_index(keys: Seq<Seq<char>>, k: Seq<char>)
    ensures
        -1 <= first_index(keys, k) < keys.len(),
        first_index(keys, k) >= 0 ==> keys[first_index(keys, k)] == k,
        forall|j: int| 0 <= j < first_index(keys, k) ==> keys[j] != k,
        first_index(keys, k) < 0 ==> forall|j: int| 0 <= j < keys.len() ==> keys[j] != k,
    decreases keys.len(),
{
    if keys.len() > 0 && keys[0] != k {
        lemma_first_index(keys.drop_first(), k);
        assert forall|j: int| 0 < j < keys.len() implies keys[j] == keys.drop_first()[j - 1] by {}
    }
}

pub proof fn lemma_first_index_at(keys: Seq<Seq<char>>, k: Seq<char>, i: int)
    requires
        0 <= i < keys.len(),
        keys[i] == k,
        forall|j: int| 0 <= j < i ==> keys[j] != k,
    ensures
        first_index(keys, k) == i,
    decreases i,
{
    if i > 0 {
        let t = keys.drop_first();
        assert forall|j: int| 0 <= j < i - 1 implies t[j] != k by {
            assert(t[j] == keys[j + 1]);
        }
        lemma_first_index_at(t, k, i - 1);
    }
}

pub proof fn lemma_first_index_absent(keys: Seq<Seq<char>>, k: Seq<char>)
    requires
        forall|j: int| 0 <= j < keys.len() ==> keys[j] != k,
    ensures
        first_index(keys, k) == -1,
{
    lemma_first_index(keys, k);
}

pub proof fn lemma_first_index_push(keys: Seq<Seq<char>>, x: Seq<char>, k: Seq<char>)
    ensures
        first_index(keys.push(x), k) == (if first_index(keys, k) >= 0 {
            first_index(keys, k)
        } else if x == k {
            keys.len() as int
        } else {
            -1
        }),
{
    let p = keys.push(x);
    lemma_first_index(keys, k);
    let f = first_index(keys, k);
    if f >= 0 {
        assert forall|j: int| 0 <= j < f implies p[j] != k by {
            assert(p[j] == keys[j]);
        }
        lemma_first_index_at(p, k, f);
    } else if x == k {
        assert forall|j: int| 0 <= j < keys.len() implies p[j] != k by {
            assert(p[j] == keys[j]);
        }
        lemma_first_index_at(p, k, keys.len() as int);
    } else {
        assert forall|j: int| 0 <= j < p.len() implies p[j] != k by {
            if j < keys.len() {
                assert(p[j] == keys[j]);
            }
        }
        lemma_first_index_absent(p, k);
    }
}

/// Every key occurs at most once.
pub open spec fn unique_keys(keys: Seq<Seq<char>>) -> bool {
    forall|i: int, j: int| 0 <= i < keys.len() && 0 <= j < keys.len() && i != j ==> keys[i] != keys[j]
}

/// A node as truth maintenance sees it.
pub struct NodeState {
    pub id: Seq<char>,
    pub truth: Seq<char>,
    pub retracted: bool,
}

/// A justification as truth maintenance sees it.
pub struct JustView {
    pub ants: Seq<Seq<char>>,
    pub outs: Seq<Seq<char>>,
}

/// The whole network as truth maintenance sees it.
pub struct TmsView {
    pub nodes: Seq<NodeState>,
    pub justs: Seq<(Seq<char>, Seq<JustView>)>,
    pub deps: Seq<(Seq<char>, Seq<Seq<char>>)>,
}

pub open spec fn node_keys(v: TmsView) -> Seq<Seq<char>> {
    v.nodes.map_values(|n: NodeState| n.id)
}

pub open spec fn just_keys(v: TmsView) -> Seq<Seq<char>> {
    v.justs.map_values(|g: (Seq<char>, Seq<JustView>)| g.0)
}

pub open spec fn dep_keys(v: TmsView) -> Seq<Seq<char>> {
    v.deps.map_values(|d: (Seq<char>, Seq<Seq<char>>)| d.0)
}

pub open spec fn node_idx(v: TmsView, id: Seq<char>) -> int {
    first_index(node_keys(v), id)
}

pub open spec fn has_node(v: TmsView, id: Seq<char>) -> bool {
    node_idx(v, id) >= 0
}

/// The node named `id` exists and is IN.
pub open spec fn is_in(v: TmsView, id: Seq<char>) -> bool {
    has_node(v, id) && v.nodes[node_idx(v, id)].truth == in_tv()
}

/// The node named `id` is absent or OUT.
pub open spec fn out_ok(v: TmsView, id: Seq<char>) -> bool {
    !has_node(v, id) || v.nodes[node_idx(v, id)].truth == out_tv()
}

/// A justification holds when every in-list node is IN and every out-list
/// node is OUT or absent.
pub open spec fn just_valid(v: TmsView, j: JustView) -> bool {
    &&& forall|i: int| 0 <= i < j.ants.len() ==> is_in(v, #[trigger] j.ants[i])
    &&& forall|i: int| 0 <= i < j.outs.len() ==> out_ok(v, #[trigger] j.outs[i])
}

/// The justifications recorded for `id` (empty when there is no entry).
pub open spec fn justs_of(v: TmsView, id: Seq<char>) -> Seq<JustView> {
    let g = first_index(just_keys(v), id);
    if g >= 0 {
        v.justs[g].1
    } else {
        Seq::empty()
    }
}

pub open spec fn some_valid(v: TmsView, js: Seq<JustView>) -> bool {
    exists|i: int| 0 <= i < js.len() && just_valid(v, #[trigger] js[i])
}

/// The truth value a node should have: a premise keeps its own value (OUT
/// when the node is absent); a justified node is IN exactly when one of its
/// justifications holds.
pub open spec fn compute(v: TmsView, id: Seq<char>) -> Seq<char> {
    let js = justs_of(v, id);
    if js.len() == 0 {
        if has_node(v, id) {
            v.nodes[node_idx(v, id)].truth
        } else {
            out_tv()
        }
    } else if some_valid(v, js) {
        in_tv()
    } else {
        out_tv()
    }
}

pub proof fn lemma_compute_in(v: TmsView, id: Seq<char>)
    requires
        justs_of(v, id).len() > 0,
        some_valid(v, justs_of(v, id)),
    ensures
        compute(v, id) == in_tv(),
{
}

/// The recorded dependents of `id` (empty when there is no entry).
pub open spec fn deps_of(v: TmsView, id: Seq<char>) -> Seq<Seq<char>> {
    let d = first_index(dep_keys(v), id);
    if d >= 0 {
        v.deps[d].1
    } else {
        Seq::empty()
    }
}

/// The node at index `i` gets truth value `t`.
pub open spec fn set_truth(v: TmsView, i: int, t: Seq<char>) -> TmsView {
    TmsView {
        nodes: v.nodes.update(i, NodeState { truth: t, ..v.nodes[i] }),
        ..v
    }
}

/// The node named `id` (if any) gets truth value `t` and retraction flag `r`.
pub open spec fn mark_node(v: TmsView, id: Seq<char>, t: Seq<char>, r: bool) -> TmsView {
    let i = node_idx(v, id);
    if i >= 0 {
        TmsView { nodes: v.nodes.update(i, NodeState { id: v.nodes[i].id, truth: t, retracted: r }), ..v }
    } else {
        v
    }
}

/// `id` satisfies its justifications (or is absent, or retracted, which
/// truth maintenance leaves alone).
pub open spec fn consistent(v: TmsView, id: Seq<char>) -> bool {
    !has_node(v, id) || v.nodes[node_idx(v, id)].retracted || v.nodes[node_idx(v, id)].truth
        == compute(v, id)
}

/// The justification names `a` in its in-list or its out-list.
pub open spec fn mentions(j: JustView, a: Seq<char>) -> bool {
    j.ants.contains(a) || j.outs.contains(a)
}

/// Every node named in a justification recorded under `key` lists `key`
/// among its dependents.
pub open spec fn deps_cover(v: TmsView) -> bool {
    forall|g: int, j: int, a: Seq<char>|
        #![trigger mentions(v.justs[g].1[j], a)]
        0 <= g < v.justs.len() && 0 <= j < v.justs[g].1.len() && mentions(v.justs[g].1[j], a)
            ==> deps_of(v, a).contains(v.justs[g].0)
}

// ---------------------------------------------------------------------------
// Tracing back to premises
// ---------------------------------------------------------------------------

/// `y` is an antecedent of one of the justifications of `x`.
pub open spec fn child(v: TmsView, x: Seq<char>, y: Seq<char>) -> bool {
    exists|k: int| 0 <= k < justs_of(v, x).len() && #[trigger] justs_of(v, x)[k].ants.contains(y)
}

/// Each step of `path` goes from a justified node to an antecedent of one
/// of its justifications.
pub open spec fn is_path(v: TmsView, path: Seq<Seq<char>>) -> bool {
    &&& path.len() >= 1
    &&& forall|i: int|
        0 <= i < path.len() - 1 ==> justs_of(v, #[trigger] path[i]).len() > 0 && child(v, path[i], path[i + 1])
}

/// `p` can be reached from `root` through justified nodes and their
/// antecedents.
pub open spec fn reaches(v: TmsView, root: Seq<char>, p: Seq<char>) -> bool {
    exists|path: Seq<Seq<char>>| #[trigger] is_path(v, path) && path[0] == root && path.last() == p
}

/// A premise that supports `root`.
pub open spec fn supporting_premise(v: TmsView, root: Seq<char>, p: Seq<char>) -> bool {
    reaches(v, root, p) && justs_of(v, p).len() == 0
}

pub open spec fn group_ants(js: Seq<JustView>) -> Seq<Seq<char>>
    decreases js.len(),
{
    if js.len() == 0 {
        Seq::empty()
    } else {
        group_ants(js.drop_last()) + js.last().ants
    }
}

pub open spec fn all_ants(gs: Seq<(Seq<char>, Seq<JustView>)>) -> Seq<Seq<char>>
    decreases gs.len(),
{
    if gs.len() == 0 {
        Seq::empty()
    } else {
        all_ants(gs.drop_last()) + group_ants(gs.last().1)
    }
}

/// Every id a trace from `root` can visit.
pub open spec fn universe(v: TmsView, root: Seq<char>) -> Seq<Seq<char>> {
    all_ants(v.justs).push(root)
}

pub proof fn lemma_group_ants(js: Seq<JustView>, k: int, a: Seq<char>)
    requires
        0 <= k < js.len(),
        js[k].ants.contains(a),
    ensures
        group_ants(js).contains(a),
    decreases js.len(),
{
    let i = choose|i: int| 0 <= i < js[k].ants.len() && js[k].ants[i] == a;
    if k == js.len() - 1 {
        let p = group_ants(js.drop_last());
        assert((p + js.last().ants)[p.len() + i] == a);
    } else {
        lemma_group_ants(js.drop_last(), k, a);
        let p = group_ants(js.drop_last());
        let j = choose|j: int| 0 <= j < p.len() && p[j] == a;
        assert((p + js.last().ants)[j] == a);
    }
}

pub proof fn lemma_all_ants(gs: Seq<(Seq<char>, Seq<JustView>)>, g: int, k: int, a: Seq<char>)
    requires
        0 <= g < gs.len(),
        0 <= k < gs[g].1.len(),
        gs[g].1[k].ants.contains(a),
    ensures
        all_ants(gs).contains(a),
    decreases gs.len(),
{
    if g == gs.len() - 1 {
        lemma_group_ants(gs.last().1, k, a);
        let p = all_ants(gs.drop_last());
        let q = group_ants(gs.last().1);
        let j = choose|j: int| 0 <= j < q.len() && q[j] == a;
        assert((p + q)[p.len() + j] == a);
    } else {
        lemma_all_ants(gs.drop_last(), g, k, a);
        let p = all_ants(gs.drop_last());
        let j = choose|j: int| 0 <= j < p.len() && p[j] == a;
        assert((p + group_ants(gs.last().1))[j] == a);
    }
}

/// An antecedent of a node's justification is in the universe.
pub proof fn lemma_child_in_universe(v: TmsView, root: Seq<char>, x: Seq<char>, y: Seq<char>)
    requires
        child(v, x, y),
    ensures
        universe(v, root).contains(y),
{
    let k = choose|k: int| 0 <= k < justs_of(v, x).len() && #[trigger] justs_of(v, x)[k].ants.contains(y);
    let g = first_index(just_keys(v), x);
    lemma_first_index(just_keys(v), x);
    assert(g >= 0);
    lemma_all_ants(v.justs, g, k, y);
    let p = all_ants(v.justs);
    let j = choose|j: int| 0 <= j < p.len() && p[j] == y;
    assert(p.push(root)[j] == y);
}

/// How many entries of `u` are not in `vis`.
pub open spec fn unvisited(u: Seq<Seq<char>>, vis: Set<Seq<char>>) -> nat
    decreases u.len(),
{
    if u.len() == 0 {
        0
    } else {
        unvisited(u.drop_last(), vis) + if vis.contains(u.last()) {
            0nat
        } else {
            1nat
        }
    }
}

pub proof fn lemma_unvisited_mono(u: Seq<Seq<char>>, a: Set<Seq<char>>, b: Set<Seq<char>>)
    requires
        a.subset_of(b),
    ensures
        unvisited(u, b) <= unvisited(u, a),
    decreases u.len(),
{
    if u.len() > 0 {
        lemma_unvisited_mono(u.drop_last(), a, b);
    }
}

pub proof fn lemma_unvisited_strict(u: Seq<Seq<char>>, a: Set<Seq<char>>, b: Set<Seq<char>>, x: Seq<char>)
    requires
        a.subset_of(b),
        u.contains(x),
        !a.contains(x),
        b.contains(x),
    ensures
        unvisited(u, b) < unvisited(u, a),
    decreases u.len(),
{
    lemma_unvisited_mono(u.drop_last(), a, b);
    if u.last() != x {
        let i = choose|i: int| 0 <= i < u.len() && u[i] == x;
        assert(u.drop_last()[i] == x);
        lemma_unvisited_strict(u.drop_last(), a, b, x);
    }
}

// ---------------------------------------------------------------------------
// Recomputation to a fixpoint
// ---------------------------------------------------------------------------

/// The node at position `k` is justified, not retracted, and has a truth
/// value other than its computed one.
pub open spec fn stale_at(v: TmsView, k: int) -> bool {
    &&& justs_of(v, v.nodes[k].id).len() > 0
    &&& !v.nodes[k].retracted
    &&& v.nodes[k].truth != compute(v, v.nodes[k].id)
}

/// One pass over the nodes from position `k` on: each justified node that
/// is not retracted takes its computed truth value; the changed ones are
/// recorded.
pub open spec fn pass_from(v: TmsView, k: int, ch: Seq<Seq<char>>) -> (TmsView, Seq<Seq<char>>)
    decreases v.nodes.len() - k,
{
    if k < 0 || k >= v.nodes.len() {
        (v, ch)
    } else if stale_at(v, k) {
        pass_from(set_truth(v, k, compute(v, v.nodes[k].id)), k + 1, ch.push(v.nodes[k].id))
    } else {
        pass_from(v, k + 1, ch)
    }
}

/// Passes until one changes nothing, at most `n` of them.
pub open spec fn passes(v: TmsView, n: nat, ch: Seq<Seq<char>>) -> (TmsView, Seq<Seq<char>>)
    decreases n,
{
    if n == 0 {
        (v, ch)
    } else {
        let r = pass_from(v, 0, ch);
        if r.1.len() == ch.len() {
            r
        } else {
            passes(r.0, (n - 1) as nat, r.1)
        }
    }
}

/// Recomputation: at most one pass more than there are nodes.
pub open spec fn recomputation(v: TmsView) -> (TmsView, Seq<Seq<char>>) {
    passes(v, v.nodes.len() + 1, Seq::empty())
}

/// Every justified node that is not retracted has its computed value.
pub open spec fn fixpoint(v: TmsView) -> bool {
    forall|k: int| 0 <= k < v.nodes.len() ==> !#[trigger] stale_at(v, k)
}

// ---------------------------------------------------------------------------
// Breadth-first propagation
// ---------------------------------------------------------------------------

/// Recompute one dependent `d`: retracted nodes are skipped; a node whose
/// computed value differs from its own takes it, is recorded and queued.
pub open spec fn visit(v: TmsView, d: Seq<char>, q: Seq<Seq<char>>, ch: Seq<Seq<char>>) -> (
    TmsView,
    Seq<Seq<char>>,
    Seq<Seq<char>>,
) {
    let i = node_idx(v, d);
    if i >= 0 && v.nodes[i].retracted {
        (v, q, ch)
    } else {
        let t = compute(v, d);
        if i >= 0 && v.nodes[i].truth != t {
            (set_truth(v, i, t), q.push(d), ch.push(d))
        } else {
            (v, q, ch)
        }
    }
}

/// Visit the dependents `ds` in order.
pub open spec fn visit_all(v: TmsView, ds: Seq<Seq<char>>, q: Seq<Seq<char>>, ch: Seq<Seq<char>>) -> (
    TmsView,
    Seq<Seq<char>>,
    Seq<Seq<char>>,
)
    decreases ds.len(),
{
    if ds.len() == 0 {
        (v, q, ch)
    } else {
        let r = visit(v, ds[0], q, ch);
        visit_all(r.0, ds.drop_first(), r.1, r.2)
    }
}

/// The state of a propagation: the network, the queue (of which the first
/// `head` entries have been taken), and the nodes changed so far.
pub struct BfsState {
    pub net: TmsView,
    pub queue: Seq<Seq<char>>,
    pub head: nat,
    pub changed: Seq<Seq<char>>,
}

pub open spec fn bfs_done(s: BfsState) -> bool {
    s.head >= s.queue.len()
}

/// Take the next queued node and visit its dependents.
pub open spec fn bfs_step(s: BfsState) -> BfsState {
    if bfs_done(s) {
        s
    } else {
        let r = visit_all(s.net, deps_of(s.net, s.queue[s.head as int]), s.queue, s.changed);
        BfsState { net: r.0, queue: r.1, head: s.head + 1, changed: r.2 }
    }
}

pub open spec fn bfs_iter(s: BfsState, n: nat) -> BfsState
    decreases n,
{
    if n == 0 {
        s
    } else {
        bfs_step(bfs_iter(s, (n - 1) as nat))
    }
}

pub open spec fn bfs_init(v: TmsView, id: Seq<char>) -> BfsState {
    BfsState { net: v, queue: seq![id], head: 0, changed: Seq::empty() }
}

/// The most queue entries one propagation takes.
pub open spec fn step_cap() -> nat {
    0xffff_ffff_ffff_ffffnat
}

/// Propagation from `id`: breadth-first through the dependents, stopping
/// when the queue is empty (or after `step_cap()` entries).
pub open spec fn propagation(v: TmsView, id: Seq<char>) -> BfsState {
    bfs_iter(bfs_init(v, id), step_cap())
}

pub proof fn lemma_bfs_done_stays(s: BfsState, m: nat, n: nat)
    requires
        m <= n,
        bfs_done(bfs_iter(s, m)),
    ensures
        bfs_iter(s, n) == bfs_iter(s, m),
    decreases n - m,
{
    if n > m {
        lemma_bfs_done_stays(s, m, (n - 1) as nat);
    }
}

} // verus!

verus! {

pub proof fn lemma_unvisited_le(u: Seq<Seq<char>>, vis: Set<Seq<char>>)
    ensures
        unvisited(u, vis) <= u.len(),
    decreases u.len(),
{
    if u.len() > 0 {
        lemma_unvisited_le(u.drop_last(), vis);
    }
}

} // verus!
