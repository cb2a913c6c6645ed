//! Proofs about propagation: what every propagation step keeps, and the
//! consistency of every dependent that propagation reaches.
use vstd::prelude::*;
use crate::model::{
    bfs_done, bfs_init, bfs_iter, bfs_step, compute, consistent, deps_cover, deps_of, first_index,
    has_node, is_in, just_keys, just_valid, justs_of, lemma_first_index, mentions, node_idx,
    node_keys, out_ok, propagation, set_truth, some_valid, pass_from, recomputation, unique_keys, passes, stale_at, fixpoint, lemma_push_contains, lemma_cons_contains, visit, visit_all, BfsState, JustView, TmsView,
};

verus! {

/// `v` differs from `v0` in truth values only, and never in that of a
/// retracted node.
pub open spec fn frame(v0: TmsView, v: TmsView) -> bool {
    &&& v.nodes.len() == v0.nodes.len()
    &&& v.justs == v0.justs
    &&& v.deps == v0.deps
    &&& forall|i: int|
        0 <= i < v.nodes.len() ==> {
            &&& #[trigger] v.nodes[i].id == v0.nodes[i].id
            &&& v.nodes[i].retracted == v0.nodes[i].retracted
            &&& v0.nodes[i].retracted ==> v.nodes[i].truth == v0.nodes[i].truth
        }
}

/// `d` is a dependent of one of the first `h` queue entries.
pub open spec fn reached_before(v0: TmsView, q: Seq<Seq<char>>, h: int, d: Seq<char>) -> bool {
    exists|p: int| 0 <= p < h && p < q.len() && #[trigger] deps_of(v0, q[p]).contains(d)
}

/// `d` is a dependent of a queue entry from position `h` on.
pub open spec fn pending(v0: TmsView, q: Seq<Seq<char>>, h: int, d: Seq<char>) -> bool {
    exists|p: int| h <= p < q.len() && #[trigger] deps_of(v0, q[p]).contains(d)
}

/// What holds of every state of a propagation from `id` over `v0`.
pub open spec fn bfs_inv(v0: TmsView, id: Seq<char>, s: BfsState) -> bool {
    &&& frame(v0, s.net)
    &&& s.queue == seq![id] + s.changed
    &&& s.head <= s.queue.len()
    &&& forall|i: int|
        0 <= i < v0.nodes.len() && #[trigger] s.net.nodes[i].truth != v0.nodes[i].truth ==> s.changed.contains(
            v0.nodes[i].id,
        )
    &&& deps_cover(v0) ==> forall|d: Seq<char>|
        #[trigger] reached_before(v0, s.queue, s.head as int, d) ==> consistent(s.net, d) || pending(
            v0,
            s.queue,
            s.head as int,
            d,
        )
}

#[verifier::spinoff_prover]
pub proof fn lemma_frame_trans(a: TmsView, b: TmsView, c: TmsView)
    requires
        frame(a, b),
        frame(b, c),
    ensures
        frame(a, c),
{
    assert forall|i: int| 0 <= i < c.nodes.len() implies {
        &&& #[trigger] c.nodes[i].id == a.nodes[i].id
        &&& c.nodes[i].retracted == a.nodes[i].retracted
        &&& a.nodes[i].retracted ==> c.nodes[i].truth == a.nodes[i].truth
    } by {
        assert(b.nodes[i].id == a.nodes[i].id);
        assert(c.nodes[i].id == b.nodes[i].id);
    }
}

pub proof fn lemma_frame_keys(v0: TmsView, v: TmsView)
    requires
        frame(v0, v),
    ensures
        node_keys(v) == node_keys(v0),
        forall|x: Seq<char>| #[trigger] node_idx(v, x) == node_idx(v0, x),
        forall|x: Seq<char>| #[trigger] justs_of(v, x) == justs_of(v0, x),
        forall|x: Seq<char>| #[trigger] deps_of(v, x) == deps_of(v0, x),
{
    assert(node_keys(v) =~= node_keys(v0));
}

/// Changing the truth value of node `i` leaves the computed value of `d`
/// alone when no justification of `d` names that node and `d` is not a
/// premise with that very name.
pub proof fn lemma_compute_frame(v: TmsView, i: int, t: Seq<char>, d: Seq<char>)
    requires
        0 <= i < v.nodes.len(),
        forall|k: int| 0 <= k < justs_of(v, d).len() ==> !mentions(#[trigger] justs_of(v, d)[k], v.nodes[i].id),
        d != v.nodes[i].id || justs_of(v, d).len() > 0,
    ensures
        compute(set_truth(v, i, t), d) == compute(v, d),
{
    let w = set_truth(v, i, t);
    assert(node_keys(w) =~= node_keys(v));
    assert(justs_of(w, d) == justs_of(v, d));
    let name = v.nodes[i].id;
    assert forall|x: Seq<char>| x != name implies is_in(w, x) == is_in(v, x) && out_ok(w, x) == out_ok(
        v,
        x,
    ) by {
        lemma_first_index(node_keys(v), x);
        if node_idx(v, x) >= 0 {
            assert(node_keys(v)[node_idx(v, x)] == x);
            assert(node_keys(v)[i] == name);
        }
    }
    let js = justs_of(v, d);
    assert forall|k: int| 0 <= k < js.len() implies just_valid(w, #[trigger] js[k]) == just_valid(v, js[k]) by {
        let j = js[k];
        assert(!mentions(j, name));
        assert forall|a: int| 0 <= a < j.ants.len() implies is_in(w, #[trigger] j.ants[a]) == is_in(v, j.ants[a]) by {
            assert(j.ants.contains(j.ants[a]));
        }
        assert forall|a: int| 0 <= a < j.outs.len() implies out_ok(w, #[trigger] j.outs[a]) == out_ok(v, j.outs[a]) by {
            assert(j.outs.contains(j.outs[a]));
        }
    }
    if some_valid(v, js) {
        let k = choose|k: int| 0 <= k < js.len() && just_valid(v, #[trigger] js[k]);
        assert(just_valid(w, js[k]));
    }
    if some_valid(w, js) {
        let k = choose|k: int| 0 <= k < js.len() && just_valid(w, #[trigger] js[k]);
        assert(just_valid(v, js[k]));
    }
    if js.len() == 0 {
        lemma_first_index(node_keys(v), d);
        if node_idx(v, d) >= 0 {
            assert(node_keys(v)[node_idx(v, d)] == d);
            assert(node_keys(v)[i] == name);
        }
    }
}

/// Under a covering dependents index, a node named by a justification of
/// `d` lists `d` among its dependents.
pub proof fn lemma_cover(v: TmsView, d: Seq<char>, k: int, a: Seq<char>)
    requires
        deps_cover(v),
        0 <= k < justs_of(v, d).len(),
        mentions(justs_of(v, d)[k], a),
    ensures
        deps_of(v, a).contains(d),
{
    let g = first_index(just_keys(v), d);
    lemma_first_index(just_keys(v), d);
    assert(g >= 0);
    assert(just_keys(v)[g] == v.justs[g].0);
    assert(mentions(v.justs[g].1[k], a));
}

/// The inner-loop invariant: after visiting the first `m` dependents `ds`
/// of the entry at position `h`.
pub open spec fn visit_inv(
    v0: TmsView,
    id: Seq<char>,
    h: int,
    ds: Seq<Seq<char>>,
    m: int,
    v: TmsView,
    q: Seq<Seq<char>>,
    ch: Seq<Seq<char>>,
) -> bool {
    &&& 0 <= m <= ds.len()
    &&& 0 <= h < q.len()
    &&& frame(v0, v)
    &&& q == seq![id] + ch
    &&& forall|i: int|
        0 <= i < v0.nodes.len() && #[trigger] v.nodes[i].truth != v0.nodes[i].truth ==> ch.contains(v0.nodes[i].id)
    &&& deps_cover(v0) ==> forall|d: Seq<char>|
        (#[trigger] reached_before(v0, q, h, d) || ds.take(m).contains(d)) ==> consistent(v, d) || pending(
            v0,
            q,
            h + 1,
            d,
        ) || ds.skip(m).contains(d)
}

#[verifier::spinoff_prover]
#[verifier::rlimit(40)]
pub proof fn lemma_visit(
    v0: TmsView,
    id: Seq<char>,
    h: int,
    ds: Seq<Seq<char>>,
    m: int,
    v: TmsView,
    q: Seq<Seq<char>>,
    ch: Seq<Seq<char>>,
)
    requires
        visit_inv(v0, id, h, ds, m, v, q, ch),
        m < ds.len(),
    ensures
        ({
            let r = visit(v, ds[m], q, ch);
            &&& visit_inv(v0, id, h, ds, m + 1, r.0, r.1, r.2)
            &&& r.1.len() >= q.len()
            &&& forall|p: int| 0 <= p < q.len() ==> r.1[p] == q[p]
        }),
{
    let d0 = ds[m];
    let r = visit(v, d0, q, ch);
    lemma_frame_keys(v0, v);
    assert(ds.take(m + 1) =~= ds.take(m).push(d0));
    assert(ds.skip(m) =~= seq![d0] + ds.skip(m + 1));
    let i = node_idx(v, d0);
    lemma_first_index(node_keys(v), d0);
    if deps_cover(v0) {
        assert(deps_cover(v));
    }
    if i >= 0 && v.nodes[i].retracted {
        assert(r == (v, q, ch));
        assert(consistent(v, d0));
        assert forall|d: Seq<char>|
            (#[trigger] reached_before(v0, q, h, d) || ds.take(m + 1).contains(d)) && deps_cover(v0)
            implies consistent(v, d) || pending(v0, q, h + 1, d) || ds.skip(m + 1).contains(d) by {
            lemma_push_contains(ds.take(m), d0, d);
            if d != d0 {
                lemma_cons_contains(ds.skip(m + 1), d0, d);
            }
        }
    } else {
        let t = compute(v, d0);
        if i >= 0 && v.nodes[i].truth != t {
            let w = set_truth(v, i, t);
            let q2 = q.push(d0);
            let ch2 = ch.push(d0);
            assert(r == (w, q2, ch2));
            assert(q2 =~= seq![id] + ch2);
            assert(frame(v0, w));
            assert forall|k: int|
                0 <= k < v0.nodes.len() && #[trigger] w.nodes[k].truth != v0.nodes[k].truth implies ch2.contains(
                v0.nodes[k].id,
            ) by {
                lemma_push_contains(ch, d0, v0.nodes[k].id);
                if k == i {
                    assert(v0.nodes[k].id == v.nodes[i].id);
                    assert(node_keys(v)[i] == d0);
                } else {
                    assert(w.nodes[k] == v.nodes[k]);
                }
            }
            assert(justs_of(v, d0).len() > 0);
            assert forall|d: Seq<char>|
                (#[trigger] reached_before(v0, q2, h, d) || ds.take(m + 1).contains(d)) && deps_cover(v0)
                implies consistent(w, d) || pending(v0, q2, h + 1, d) || ds.skip(m + 1).contains(d) by {
                lemma_push_contains(ds.take(m), d0, d);
                lemma_cons_contains(ds.skip(m + 1), d0, d);
                lemma_frame_keys(v0, w);
                if reached_before(v0, q2, h, d) {
                    let p = choose|p: int| 0 <= p < h && p < q2.len() && #[trigger] deps_of(v0, q2[p]).contains(d);
                    assert(q2[p] == q[p]);
                    assert(reached_before(v0, q, h, d));
                }
                if deps_of(v0, d0).contains(d) {
                    assert(q2[q.len() as int] == d0);
                    assert(pending(v0, q2, h + 1, d));
                } else {
                    assert(node_keys(v)[i] == d0);
                    if d == d0 {
                        assert forall|k: int| 0 <= k < justs_of(v, d0).len() implies !mentions(
                            #[trigger] justs_of(v, d0)[k],
                            v.nodes[i].id,
                        ) by {
                            if mentions(justs_of(v, d0)[k], d0) {
                                lemma_cover(v, d0, k, d0);
                            }
                        }
                        lemma_compute_frame(v, i, t, d0);
                        assert(node_keys(w) =~= node_keys(v));
                        assert(consistent(w, d0));
                    } else {
                        if pending(v0, q, h + 1, d) {
                            let p = choose|p: int| h + 1 <= p < q.len() && #[trigger] deps_of(v0, q[p]).contains(d);
                            assert(q2[p] == q[p]);
                        } else if !ds.skip(m).contains(d) {
                            assert(consistent(v, d));
                            lemma_first_index(node_keys(v), d);
                            assert forall|k: int| 0 <= k < justs_of(v, d).len() implies !mentions(
                                #[trigger] justs_of(v, d)[k],
                                v.nodes[i].id,
                            ) by {
                                if mentions(justs_of(v, d)[k], d0) {
                                    lemma_cover(v, d, k, d0);
                                }
                            }
                            lemma_compute_frame(v, i, t, d);
                            assert(node_keys(w) =~= node_keys(v));
                            if node_idx(v, d) >= 0 {
                                assert(node_keys(v)[node_idx(v, d)] == d);
                                assert(w.nodes[node_idx(v, d)] == v.nodes[node_idx(v, d)]);
                            }
                            assert(consistent(w, d));
                        }
                    }
                }
            }
        } else {
            assert(r == (v, q, ch));
            assert(consistent(v, d0));
            assert forall|d: Seq<char>|
                (#[trigger] reached_before(v0, q, h, d) || ds.take(m + 1).contains(d)) && deps_cover(v0)
                implies consistent(v, d) || pending(v0, q, h + 1, d) || ds.skip(m + 1).contains(d) by {
                lemma_push_contains(ds.take(m), d0, d);
                if d != d0 {
                    lemma_cons_contains(ds.skip(m + 1), d0, d);
                }
            }
        }
    }
}

pub proof fn lemma_visit_all(
    v0: TmsView,
    id: Seq<char>,
    h: int,
    ds: Seq<Seq<char>>,
    m: int,
    v: TmsView,
    q: Seq<Seq<char>>,
    ch: Seq<Seq<char>>,
)
    requires
        visit_inv(v0, id, h, ds, m, v, q, ch),
    ensures
        ({
            let r = visit_all(v, ds.skip(m), q, ch);
            &&& visit_inv(v0, id, h, ds, ds.len() as int, r.0, r.1, r.2)
            &&& r.1.len() >= q.len()
            &&& forall|p: int| 0 <= p < q.len() ==> r.1[p] == q[p]
        }),
    decreases ds.len() - m,
{
    if m < ds.len() {
        let r1 = visit(v, ds[m], q, ch);
        lemma_visit(v0, id, h, ds, m, v, q, ch);
        assert(ds.skip(m)[0] == ds[m]);
        assert(ds.skip(m).drop_first() =~= ds.skip(m + 1));
        lemma_visit_all(v0, id, h, ds, m + 1, r1.0, r1.1, r1.2);
    } else {
        assert(ds.skip(m).len() == 0);
    }
}

/// Every propagation step keeps the invariant.
pub proof fn lemma_bfs_step(v0: TmsView, id: Seq<char>, s: BfsState)
    requires
        bfs_inv(v0, id, s),
    ensures
        bfs_inv(v0, id, bfs_step(s)),
{
    if !bfs_done(s) {
        let h = s.head as int;
        let cur = s.queue[h];
        lemma_frame_keys(v0, s.net);
        let ds = deps_of(s.net, cur);
        assert(ds == deps_of(v0, cur));
        assert(ds.take(0) =~= Seq::<Seq<char>>::empty());
        assert(ds.skip(0) =~= ds);
        assert forall|d: Seq<char>|
            (#[trigger] reached_before(v0, s.queue, h, d) || ds.take(0).contains(d)) && deps_cover(v0)
            implies consistent(s.net, d) || pending(v0, s.queue, h + 1, d) || ds.skip(0).contains(d) by {
            if reached_before(v0, s.queue, h, d) && !consistent(s.net, d) {
                assert(pending(v0, s.queue, h, d));
                let p = choose|p: int| h <= p < s.queue.len() && #[trigger] deps_of(v0, s.queue[p]).contains(d);
                if p > h {
                    assert(pending(v0, s.queue, h + 1, d));
                }
            }
        }
        assert(visit_inv(v0, id, h, ds, 0, s.net, s.queue, s.changed));
        lemma_visit_all(v0, id, h, ds, 0, s.net, s.queue, s.changed);
        let r = visit_all(s.net, ds, s.queue, s.changed);
        assert(visit_inv(v0, id, h, ds, ds.len() as int, r.0, r.1, r.2));
        let s2 = bfs_step(s);
        assert(s2.net == r.0 && s2.queue == r.1 && s2.changed == r.2 && s2.head == h + 1);
        assert(ds.take(ds.len() as int) =~= ds);
        assert(ds.skip(ds.len() as int) =~= Seq::<Seq<char>>::empty());
        assert forall|d: Seq<char>| #[trigger] reached_before(v0, s2.queue, h + 1, d) && deps_cover(v0)
            implies consistent(s2.net, d) || pending(v0, s2.queue, h + 1, d) by {
            let p = choose|p: int| 0 <= p < h + 1 && p < s2.queue.len() && #[trigger] deps_of(v0, s2.queue[p]).contains(d);
            assert(s2.queue[p] == s.queue[p]);
            assert((reached_before(v0, r.1, h, d) || ds.take(ds.len() as int).contains(d)) ==> consistent(r.0, d)
                || pending(v0, r.1, h + 1, d) || ds.skip(ds.len() as int).contains(d));
            if p < h {
                assert(reached_before(v0, s2.queue, h, d));
            } else {
                assert(ds.contains(d));
                assert(ds.take(ds.len() as int).contains(d));
                assert(reached_before(v0, s2.queue, h, d) || ds.take(ds.len() as int).contains(d));
            }
        }
    }
}

pub proof fn lemma_bfs_iter(v0: TmsView, id: Seq<char>, n: nat)
    ensures
        bfs_inv(v0, id, bfs_iter(bfs_init(v0, id), n)),
    decreases n,
{
    if n == 0 {
        let s = bfs_init(v0, id);
        assert(s.queue =~= seq![id] + s.changed);
        assert(frame(v0, v0));
    } else {
        lemma_bfs_iter(v0, id, (n - 1) as nat);
        lemma_bfs_step(v0, id, bfs_iter(bfs_init(v0, id), (n - 1) as nat));
    }
}

/// When propagation from `id` empties its queue over a network whose
/// dependents index covers its justifications, every dependent of `id` and
/// of every node it changed satisfies its justifications (unless
/// retracted or absent).
pub proof fn lemma_bfs_consistent(v0: TmsView, id: Seq<char>, n: nat)
    requires
        deps_cover(v0),
        bfs_done(bfs_iter(bfs_init(v0, id), n)),
    ensures
        ({
            let s = bfs_iter(bfs_init(v0, id), n);
            forall|d: Seq<char>|
                (#[trigger] deps_of(v0, id).contains(d) || exists|c: Seq<char>|
                    s.changed.contains(c) && #[trigger] deps_of(v0, c).contains(d)) ==> consistent(s.net, d)
        }),
{
    let s = bfs_iter(bfs_init(v0, id), n);
    lemma_bfs_iter(v0, id, n);
    assert forall|d: Seq<char>|
        (#[trigger] deps_of(v0, id).contains(d) || exists|c: Seq<char>|
            s.changed.contains(c) && #[trigger] deps_of(v0, c).contains(d)) implies consistent(s.net, d) by {
        if deps_of(v0, id).contains(d) {
            assert(s.queue[0] == id);
            assert(reached_before(v0, s.queue, s.head as int, d));
        } else {
            let c = choose|c: Seq<char>| s.changed.contains(c) && #[trigger] deps_of(v0, c).contains(d);
            let k = choose|k: int| 0 <= k < s.changed.len() && s.changed[k] == c;
            assert(s.queue[k + 1] == c);
            assert(reached_before(v0, s.queue, s.head as int, d));
        }
    }
}

/// `v` differs from `v0` only in truth values of justified nodes that are
/// not retracted, and every node whose value changed is named in `ch`.
pub open spec fn recompute_frame(v0: TmsView, v: TmsView, ch: Seq<Seq<char>>) -> bool {
    &&& frame(v0, v)
    &&& forall|j: int|
        0 <= j < v0.nodes.len() && #[trigger] v.nodes[j].truth != v0.nodes[j].truth ==> {
            &&& justs_of(v0, v0.nodes[j].id).len() > 0
            &&& !v0.nodes[j].retracted
            &&& ch.contains(v0.nodes[j].id)
        }
}

pub proof fn lemma_pass_from(v: TmsView, k: int, ch: Seq<Seq<char>>)
    requires
        0 <= k,
    ensures
        ({
            let r = pass_from(v, k, ch);
            &&& r.1.len() >= ch.len()
            &&& r.1.subrange(0, ch.len() as int) == ch
            &&& r.1.len() == ch.len() ==> r.0 == v && forall|j: int| k <= j < v.nodes.len() ==> !#[trigger] stale_at(v, j)
            &&& forall|x: Seq<char>| ch.contains(x) ==> r.1.contains(x)
            &&& recompute_frame(v, r.0, r.1)
        }),
    decreases v.nodes.len() - k,
{
    let r = pass_from(v, k, ch);
    if k >= v.nodes.len() {
        assert(ch.subrange(0, ch.len() as int) =~= ch);
        assert(frame(v, v));
    } else if stale_at(v, k) {
        let t = compute(v, v.nodes[k].id);
        let w = set_truth(v, k, t);
        let ch2 = ch.push(v.nodes[k].id);
        lemma_pass_from(w, k + 1, ch2);
        assert(node_keys(w) =~= node_keys(v));
        assert(justs_of(w, v.nodes[k].id) == justs_of(v, v.nodes[k].id));
        assert(r.1.subrange(0, ch2.len() as int) == ch2);
        assert(r.1.subrange(0, ch.len() as int) =~= ch2.subrange(0, ch.len() as int));
        assert(ch2.subrange(0, ch.len() as int) =~= ch);
        assert forall|x: Seq<char>| ch.contains(x) implies r.1.contains(x) by {
            lemma_push_contains(ch, v.nodes[k].id, x);
        }
        assert(ch2.contains(v.nodes[k].id)) by {
            lemma_push_contains(ch, v.nodes[k].id, v.nodes[k].id);
        }
        assert forall|j: int|
            0 <= j < v.nodes.len() && #[trigger] r.0.nodes[j].truth != v.nodes[j].truth implies {
            &&& justs_of(v, v.nodes[j].id).len() > 0
            &&& !v.nodes[j].retracted
            &&& r.1.contains(v.nodes[j].id)
        } by {
            assert(w.nodes[j].id == v.nodes[j].id);
            assert(justs_of(w, w.nodes[j].id) == justs_of(v, v.nodes[j].id));
            if j != k {
                assert(w.nodes[j] == v.nodes[j]);
            }
        }
        assert(frame(v, r.0));
    } else {
        lemma_pass_from(v, k + 1, ch);
    }
}

/// Passes end at a state where every justified, unretracted node has its
/// computed value, or else each of the `n` passes changed some node.
pub proof fn lemma_passes(v: TmsView, n: nat, ch: Seq<Seq<char>>)
    ensures
        ({
            let r = passes(v, n, ch);
            &&& fixpoint(r.0) || r.1.len() >= ch.len() + n
            &&& r.1.len() >= ch.len()
            &&& forall|x: Seq<char>| ch.contains(x) ==> r.1.contains(x)
            &&& recompute_frame(v, r.0, r.1)
        }),
    decreases n,
{
    let r = passes(v, n, ch);
    if n == 0 {
        assert(frame(v, v));
    } else {
        let p = pass_from(v, 0, ch);
        lemma_pass_from(v, 0, ch);
        if p.1.len() == ch.len() {
            assert(fixpoint(p.0));
        } else {
            lemma_passes(p.0, (n - 1) as nat, p.1);
            let q = passes(p.0, (n - 1) as nat, p.1);
            assert forall|j: int|
                0 <= j < v.nodes.len() && #[trigger] q.0.nodes[j].truth != v.nodes[j].truth implies {
                &&& justs_of(v, v.nodes[j].id).len() > 0
                &&& !v.nodes[j].retracted
                &&& q.1.contains(v.nodes[j].id)
            } by {
                lemma_frame_keys(v, p.0);
                assert(p.0.nodes[j].id == v.nodes[j].id);
                if p.0.nodes[j].truth != v.nodes[j].truth {
                } else {
                    assert(q.0.nodes[j].truth != p.0.nodes[j].truth);
                }
            }
            lemma_frame_trans(v, p.0, q.0);
        }
    }
}

} // verus!

verus! {

/// Propagation changes truth values only, never that of a retracted
/// node, and keeps the justifications, the dependents index and the
/// number of nodes.
pub proof fn law_propagation_frame(v: TmsView, id: Seq<char>)
    ensures
        frame(v, crate::model::propagation(v, id).net),
        crate::model::propagation(v, id).net.justs == v.justs,
        crate::model::propagation(v, id).net.deps == v.deps,
        crate::model::propagation(v, id).net.nodes.len() == v.nodes.len(),
{
    lemma_bfs_iter(v, id, crate::model::step_cap());
}

} // verus!

verus! {

/// `c` is an IN premise and every one of the (one or more) justifications
/// of `t` has `c` in its out-list.
pub open spec fn blocks(v: TmsView, c: Seq<char>, t: Seq<char>) -> bool {
    let ci = node_idx(v, c);
    &&& ci >= 0
    &&& node_idx(v, t) >= 0
    &&& v.nodes[ci].truth == crate::model::in_tv()
    &&& justs_of(v, c).len() == 0
    &&& justs_of(v, t).len() > 0
    &&& forall|k: int| 0 <= k < justs_of(v, t).len() ==> (#[trigger] justs_of(v, t)[k]).outs.contains(c)
}

/// `c` blocks `t`, and `t` is OUT.
pub open spec fn held_out(v: TmsView, c: Seq<char>, t: Seq<char>) -> bool {
    &&& blocks(v, c, t)
    &&& v.nodes[node_idx(v, t)].truth == crate::model::out_tv()
}

/// While `c` is IN, no justification of `t` holds, so `t` computes to OUT;
/// and a premise computes to its own value.
pub proof fn lemma_held_compute(v: TmsView, c: Seq<char>, t: Seq<char>)
    requires
        blocks(v, c, t),
        c != t,
    ensures
        compute(v, t) == crate::model::out_tv(),
        compute(v, c) == crate::model::in_tv(),
{
    let js = justs_of(v, t);
    assert(!out_ok(v, c)) by {
        assert(has_node(v, c));
        reveal_strlit("IN");
        reveal_strlit("OUT");
        assert(crate::model::in_tv().len() != crate::model::out_tv().len());
    }
    assert forall|k: int| 0 <= k < js.len() implies !just_valid(v, #[trigger] js[k]) by {
        assert(js[k].outs.contains(c));
        let i = choose|i: int| 0 <= i < js[k].outs.len() && js[k].outs[i] == c;
        assert(!out_ok(v, js[k].outs[i]));
    }
}

/// Setting a truth value other than that of `c` keeps `blocks`.
pub proof fn lemma_set_held(v: TmsView, c: Seq<char>, t: Seq<char>, i: int, tv: Seq<char>)
    requires
        blocks(v, c, t),
        0 <= i < v.nodes.len(),
        i != node_idx(v, c),
    ensures
        blocks(set_truth(v, i, tv), c, t),
        node_idx(set_truth(v, i, tv), t) == node_idx(v, t),
        set_truth(v, i, tv).nodes[node_idx(v, t)].truth == if i == node_idx(v, t) {
            tv
        } else {
            v.nodes[node_idx(v, t)].truth
        },
{
    let w = set_truth(v, i, tv);
    assert(node_keys(w) =~= node_keys(v));
    assert(just_keys(w) == just_keys(v));
    assert(justs_of(w, c) == justs_of(v, c));
    assert(justs_of(w, t) == justs_of(v, t));
    let ci = node_idx(v, c);
    let ti = node_idx(v, t);
    lemma_first_index(node_keys(v), c);
    lemma_first_index(node_keys(v), t);
    assert(node_idx(w, c) == ci);
    assert(node_idx(w, t) == ti);
    assert(w.nodes[ci] == v.nodes[ci]);
    if i != ti {
        assert(w.nodes[ti] == v.nodes[ti]);
    }
}

pub proof fn lemma_visit_held(v: TmsView, c: Seq<char>, t: Seq<char>, d: Seq<char>, q: Seq<Seq<char>>, ch: Seq<Seq<char>>)
    requires
        held_out(v, c, t),
        c != t,
    ensures
        held_out(visit(v, d, q, ch).0, c, t),
{
    let i = node_idx(v, d);
    lemma_first_index(node_keys(v), d);
    lemma_first_index(node_keys(v), c);
    lemma_first_index(node_keys(v), t);
    if !(i >= 0 && v.nodes[i].retracted) {
        let tv = compute(v, d);
        if i >= 0 && v.nodes[i].truth != tv {
            lemma_held_compute(v, c, t);
            if i == node_idx(v, c) {
                assert(node_keys(v)[i] == d);
                assert(d == c);
            }
            if i == node_idx(v, t) {
                assert(node_keys(v)[i] == d);
                assert(d == t);
            }
            lemma_set_held(v, c, t, i, tv);
            assert(held_out(set_truth(v, i, tv), c, t));
        }
    }
}

pub proof fn lemma_visit_all_held(
    v: TmsView,
    c: Seq<char>,
    t: Seq<char>,
    ds: Seq<Seq<char>>,
    q: Seq<Seq<char>>,
    ch: Seq<Seq<char>>,
)
    requires
        held_out(v, c, t),
        c != t,
    ensures
        held_out(visit_all(v, ds, q, ch).0, c, t),
    decreases ds.len(),
{
    if ds.len() > 0 {
        let r = visit(v, ds[0], q, ch);
        lemma_visit_held(v, c, t, ds[0], q, ch);
        lemma_visit_all_held(r.0, c, t, ds.drop_first(), r.1, r.2);
    }
}

/// Propagation keeps `held_out`: the premise `c` never changes, and every
/// recomputation of `t` gives OUT.
pub proof fn lemma_bfs_held(s: BfsState, c: Seq<char>, t: Seq<char>, n: nat)
    requires
        held_out(s.net, c, t),
        c != t,
    ensures
        held_out(bfs_iter(s, n).net, c, t),
    decreases n,
{
    if n > 0 {
        lemma_bfs_held(s, c, t, (n - 1) as nat);
        let p = bfs_iter(s, (n - 1) as nat);
        if !bfs_done(p) {
            lemma_visit_all_held(p.net, c, t, deps_of(p.net, p.queue[p.head as int]), p.queue, p.changed);
        }
    }
}

} // verus!

verus! {

/// `t` exists, is not retracted, and its one justification needs nothing
/// IN and only `c` OUT.
pub open spec fn freed(v: TmsView, c: Seq<char>, t: Seq<char>) -> bool {
    let ti = node_idx(v, t);
    &&& ti >= 0
    &&& !v.nodes[ti].retracted
    &&& justs_of(v, t) == seq![JustView { ants: Seq::empty(), outs: seq![c] }]
}

/// While `c` is OUT, a node it alone held OUT computes to IN.
pub proof fn lemma_freed_compute(v: TmsView, c: Seq<char>, t: Seq<char>, d: Seq<char>)
    requires
        freed(v, c, t),
        held_out(v, d, c),
    ensures
        compute(v, t) == crate::model::in_tv(),
{
    let j = justs_of(v, t)[0];
    assert(j.outs[0] == c);
    assert(out_ok(v, j.outs[0]));
    assert(just_valid(v, j));
    assert(some_valid(v, justs_of(v, t)));
}

/// Setting a truth value other than `t`'s keeps `freed`.
pub proof fn lemma_set_freed(v: TmsView, c: Seq<char>, t: Seq<char>, i: int, tv: Seq<char>)
    requires
        freed(v, c, t),
        0 <= i < v.nodes.len(),
    ensures
        freed(set_truth(v, i, tv), c, t),
        set_truth(v, i, tv).nodes[node_idx(v, t)].truth == if i == node_idx(v, t) {
            tv
        } else {
            v.nodes[node_idx(v, t)].truth
        },
{
    let w = set_truth(v, i, tv);
    assert(node_keys(w) =~= node_keys(v));
    assert(just_keys(w) == just_keys(v));
    assert(justs_of(w, t) == justs_of(v, t));
    lemma_first_index(node_keys(v), t);
}

/// One visit keeps `c` held OUT by `d` and `t` freed; it leaves `t` IN
/// once `t` is the node visited, and keeps it IN.
pub proof fn lemma_visit_restore(
    v: TmsView,
    c: Seq<char>,
    t: Seq<char>,
    d: Seq<char>,
    x: Seq<char>,
    q: Seq<Seq<char>>,
    ch: Seq<Seq<char>>,
)
    requires
        held_out(v, d, c),
        freed(v, c, t),
        d != c,
    ensures
        held_out(visit(v, x, q, ch).0, d, c),
        freed(visit(v, x, q, ch).0, c, t),
        node_idx(visit(v, x, q, ch).0, t) == node_idx(v, t),
        (x == t || v.nodes[node_idx(v, t)].truth == crate::model::in_tv()) ==> visit(v, x, q, ch).0.nodes[node_idx(
            v,
            t,
        )].truth == crate::model::in_tv(),
{
    lemma_visit_held(v, d, c, x, q, ch);
    let i = node_idx(v, x);
    let ti = node_idx(v, t);
    lemma_first_index(node_keys(v), x);
    lemma_first_index(node_keys(v), t);
    lemma_freed_compute(v, c, t, d);
    if !(i >= 0 && v.nodes[i].retracted) {
        let tv = compute(v, x);
        if i >= 0 && v.nodes[i].truth != tv {
            lemma_set_freed(v, c, t, i, tv);
            let w = set_truth(v, i, tv);
            assert(node_keys(w) =~= node_keys(v));
            if i == ti {
                assert(node_keys(v)[i] == x);
                assert(x == t);
            }
        }
    } else {
        if x == t {
            assert(node_keys(v)[i] == x);
            assert(i == ti);
        }
    }
}

/// Visiting the dependents `ds` keeps the same, and leaves `t` IN when it
/// is among them or was IN already.
pub proof fn lemma_visit_all_restore(
    v: TmsView,
    c: Seq<char>,
    t: Seq<char>,
    d: Seq<char>,
    ds: Seq<Seq<char>>,
    q: Seq<Seq<char>>,
    ch: Seq<Seq<char>>,
)
    requires
        held_out(v, d, c),
        freed(v, c, t),
        d != c,
    ensures
        held_out(visit_all(v, ds, q, ch).0, d, c),
        freed(visit_all(v, ds, q, ch).0, c, t),
        node_idx(visit_all(v, ds, q, ch).0, t) == node_idx(v, t),
        (ds.contains(t) || v.nodes[node_idx(v, t)].truth == crate::model::in_tv()) ==> visit_all(
            v,
            ds,
            q,
            ch,
        ).0.nodes[node_idx(v, t)].truth == crate::model::in_tv(),
    decreases ds.len(),
{
    if ds.len() > 0 {
        let r = visit(v, ds[0], q, ch);
        lemma_visit_restore(v, c, t, d, ds[0], q, ch);
        lemma_visit_all_restore(r.0, c, t, d, ds.drop_first(), r.1, r.2);
        if ds.contains(t) && ds[0] != t {
            let k = choose|k: int| 0 <= k < ds.len() && ds[k] == t;
            assert(ds.drop_first()[k - 1] == t);
        }
    }
}

/// From the first step on, propagation from `c` keeps `c` held OUT by
/// `d`, `t` freed, and `t` IN, when `t` is among the dependents of `c`.
pub proof fn lemma_bfs_restore(v: TmsView, c: Seq<char>, t: Seq<char>, d: Seq<char>, n: nat)
    requires
        held_out(v, d, c),
        freed(v, c, t),
        d != c,
        deps_of(v, c).contains(t),
        n >= 1,
    ensures
        held_out(bfs_iter(bfs_init(v, c), n).net, d, c),
        freed(bfs_iter(bfs_init(v, c), n).net, c, t),
        node_idx(bfs_iter(bfs_init(v, c), n).net, t) == node_idx(v, t),
        bfs_iter(bfs_init(v, c), n).net.nodes[node_idx(v, t)].truth == crate::model::in_tv(),
    decreases n,
{
    let s0 = bfs_init(v, c);
    if n == 1 {
        assert(bfs_iter(s0, 0) == s0);
        assert(s0.queue[0] == c);
        lemma_visit_all_restore(v, c, t, d, deps_of(v, c), s0.queue, s0.changed);
    } else {
        lemma_bfs_restore(v, c, t, d, (n - 1) as nat);
        let p = bfs_iter(s0, (n - 1) as nat);
        if !bfs_done(p) {
            lemma_visit_all_restore(p.net, c, t, d, deps_of(p.net, p.queue[p.head as int]), p.queue, p.changed);
        }
    }
}

} // verus!

verus! {

/// A premise computes to its own value, so a visit never changes it.
pub proof fn lemma_visit_keeps_premise(v: TmsView, x: Seq<char>, d: Seq<char>, q: Seq<Seq<char>>, ch: Seq<Seq<char>>)
    requires
        node_idx(v, x) >= 0,
        justs_of(v, x).len() == 0,
    ensures
        node_idx(visit(v, d, q, ch).0, x) == node_idx(v, x),
        justs_of(visit(v, d, q, ch).0, x).len() == 0,
        visit(v, d, q, ch).0.nodes[node_idx(v, x)].truth == v.nodes[node_idx(v, x)].truth,
{
    let i = node_idx(v, d);
    let xi = node_idx(v, x);
    lemma_first_index(node_keys(v), d);
    lemma_first_index(node_keys(v), x);
    if !(i >= 0 && v.nodes[i].retracted) {
        let tv = compute(v, d);
        if i >= 0 && v.nodes[i].truth != tv {
            let w = set_truth(v, i, tv);
            assert(node_keys(w) =~= node_keys(v));
            assert(just_keys(w) == just_keys(v));
            assert(justs_of(w, x) == justs_of(v, x));
            if i == xi {
                assert(node_keys(v)[i] == d);
                assert(d == x);
            }
        }
    }
}

pub proof fn lemma_visit_all_keeps_premise(
    v: TmsView,
    x: Seq<char>,
    ds: Seq<Seq<char>>,
    q: Seq<Seq<char>>,
    ch: Seq<Seq<char>>,
)
    requires
        node_idx(v, x) >= 0,
        justs_of(v, x).len() == 0,
    ensures
        node_idx(visit_all(v, ds, q, ch).0, x) == node_idx(v, x),
        justs_of(visit_all(v, ds, q, ch).0, x).len() == 0,
        visit_all(v, ds, q, ch).0.nodes[node_idx(v, x)].truth == v.nodes[node_idx(v, x)].truth,
    decreases ds.len(),
{
    if ds.len() > 0 {
        let r = visit(v, ds[0], q, ch);
        lemma_visit_keeps_premise(v, x, ds[0], q, ch);
        lemma_visit_all_keeps_premise(r.0, x, ds.drop_first(), r.1, r.2);
    }
}

/// Propagation never changes the truth value of a premise.
pub proof fn lemma_bfs_keeps_premise(s: BfsState, x: Seq<char>, n: nat)
    requires
        node_idx(s.net, x) >= 0,
        justs_of(s.net, x).len() == 0,
    ensures
        node_idx(bfs_iter(s, n).net, x) == node_idx(s.net, x),
        justs_of(bfs_iter(s, n).net, x).len() == 0,
        bfs_iter(s, n).net.nodes[node_idx(s.net, x)].truth == s.net.nodes[node_idx(s.net, x)].truth,
    decreases n,
{
    if n > 0 {
        lemma_bfs_keeps_premise(s, x, (n - 1) as nat);
        let p = bfs_iter(s, (n - 1) as nat);
        if !bfs_done(p) {
            lemma_visit_all_keeps_premise(p.net, x, deps_of(p.net, p.queue[p.head as int]), p.queue, p.changed);
        }
    }
}

} // verus!

verus! {

/// `c` is a premise and OUT.
pub open spec fn out_premise(v: TmsView, c: Seq<char>) -> bool {
    &&& node_idx(v, c) >= 0
    &&& justs_of(v, c).len() == 0
    &&& v.nodes[node_idx(v, c)].truth == crate::model::out_tv()
}

/// `c` exists, is OUT, and stays OUT under propagation: it is a premise,
/// or it is retracted.
pub open spec fn held_down(v: TmsView, c: Seq<char>) -> bool {
    &&& node_idx(v, c) >= 0
    &&& v.nodes[node_idx(v, c)].truth == crate::model::out_tv()
    &&& (justs_of(v, c).len() == 0 || v.nodes[node_idx(v, c)].retracted)
}

/// A visit keeps a node held down.
pub proof fn lemma_visit_keeps_down(v: TmsView, c: Seq<char>, x: Seq<char>, q: Seq<Seq<char>>, ch: Seq<Seq<char>>)
    requires
        held_down(v, c),
    ensures
        held_down(visit(v, x, q, ch).0, c),
{
    let ci = node_idx(v, c);
    if justs_of(v, c).len() == 0 {
        lemma_visit_keeps_premise(v, c, x, q, ch);
    } else {
        let i = node_idx(v, x);
        lemma_first_index(node_keys(v), x);
        lemma_first_index(node_keys(v), c);
        if !(i >= 0 && v.nodes[i].retracted) {
            let tv = compute(v, x);
            if i >= 0 && v.nodes[i].truth != tv {
                let w = set_truth(v, i, tv);
                assert(node_keys(w) =~= node_keys(v));
                assert(just_keys(w) == just_keys(v));
                assert(justs_of(w, c) == justs_of(v, c));
                assert(i != ci);
                assert(w.nodes[ci] == v.nodes[ci]);
            }
        }
    }
}

/// While `c` is OUT, a node it alone held OUT computes to IN.
pub proof fn lemma_freed_by_out(v: TmsView, c: Seq<char>, t: Seq<char>)
    requires
        freed(v, c, t),
        held_down(v, c),
    ensures
        compute(v, t) == crate::model::in_tv(),
{
    let j = justs_of(v, t)[0];
    assert(j.outs[0] == c);
    assert(out_ok(v, j.outs[0]));
    assert(just_valid(v, j));
    assert(some_valid(v, justs_of(v, t)));
}

/// One visit keeps `c` held down and `t` freed; it leaves `t` IN
/// once `t` is the node visited, and keeps it IN.
pub proof fn lemma_visit_release(
    v: TmsView,
    c: Seq<char>,
    t: Seq<char>,
    x: Seq<char>,
    q: Seq<Seq<char>>,
    ch: Seq<Seq<char>>,
)
    requires
        held_down(v, c),
        freed(v, c, t),
    ensures
        held_down(visit(v, x, q, ch).0, c),
        freed(visit(v, x, q, ch).0, c, t),
        node_idx(visit(v, x, q, ch).0, t) == node_idx(v, t),
        (x == t || v.nodes[node_idx(v, t)].truth == crate::model::in_tv()) ==> visit(v, x, q, ch).0.nodes[node_idx(
            v,
            t,
        )].truth == crate::model::in_tv(),
{
    lemma_visit_keeps_down(v, c, x, q, ch);
    let i = node_idx(v, x);
    let ti = node_idx(v, t);
    lemma_first_index(node_keys(v), x);
    lemma_first_index(node_keys(v), t);
    lemma_freed_by_out(v, c, t);
    if !(i >= 0 && v.nodes[i].retracted) {
        let tv = compute(v, x);
        if i >= 0 && v.nodes[i].truth != tv {
            lemma_set_freed(v, c, t, i, tv);
            let w = set_truth(v, i, tv);
            assert(node_keys(w) =~= node_keys(v));
            if i == ti {
                assert(node_keys(v)[i] == x);
                assert(x == t);
            }
        }
    } else {
        if x == t {
            assert(node_keys(v)[i] == x);
            assert(i == ti);
        }
    }
}

/// Visiting the dependents `ds` keeps the same, and leaves `t` IN when it
/// is among them or was IN already.
pub proof fn lemma_visit_all_release(
    v: TmsView,
    c: Seq<char>,
    t: Seq<char>,
    ds: Seq<Seq<char>>,
    q: Seq<Seq<char>>,
    ch: Seq<Seq<char>>,
)
    requires
        held_down(v, c),
        freed(v, c, t),
    ensures
        held_down(visit_all(v, ds, q, ch).0, c),
        freed(visit_all(v, ds, q, ch).0, c, t),
        node_idx(visit_all(v, ds, q, ch).0, t) == node_idx(v, t),
        (ds.contains(t) || v.nodes[node_idx(v, t)].truth == crate::model::in_tv()) ==> visit_all(
            v,
            ds,
            q,
            ch,
        ).0.nodes[node_idx(v, t)].truth == crate::model::in_tv(),
    decreases ds.len(),
{
    if ds.len() > 0 {
        let r = visit(v, ds[0], q, ch);
        lemma_visit_release(v, c, t, ds[0], q, ch);
        lemma_visit_all_release(r.0, c, t, ds.drop_first(), r.1, r.2);
        if ds.contains(t) && ds[0] != t {
            let k = choose|k: int| 0 <= k < ds.len() && ds[k] == t;
            assert(ds.drop_first()[k - 1] == t);
        }
    }
}

/// From the first step on, propagation from `c`, held down, keeps `t`,
/// which `c` alone held OUT and which depends on `c`, IN.
pub proof fn lemma_bfs_release(v: TmsView, c: Seq<char>, t: Seq<char>, n: nat)
    requires
        held_down(v, c),
        freed(v, c, t),
        deps_of(v, c).contains(t),
        n >= 1,
    ensures
        held_down(bfs_iter(bfs_init(v, c), n).net, c),
        freed(bfs_iter(bfs_init(v, c), n).net, c, t),
        node_idx(bfs_iter(bfs_init(v, c), n).net, t) == node_idx(v, t),
        bfs_iter(bfs_init(v, c), n).net.nodes[node_idx(v, t)].truth == crate::model::in_tv(),
    decreases n,
{
    let s0 = bfs_init(v, c);
    if n == 1 {
        assert(bfs_iter(s0, 0) == s0);
        assert(s0.queue[0] == c);
        lemma_visit_all_release(v, c, t, deps_of(v, c), s0.queue, s0.changed);
    } else {
        lemma_bfs_release(v, c, t, (n - 1) as nat);
        let p = bfs_iter(s0, (n - 1) as nat);
        if !bfs_done(p) {
            lemma_visit_all_release(p.net, c, t, deps_of(p.net, p.queue[p.head as int]), p.queue, p.changed);
        }
    }
}

} // verus!

verus! {

/// `t` exists, is not retracted, has justifications, and every one of
/// them needs `c` IN.
pub open spec fn needs_in(v: TmsView, c: Seq<char>, t: Seq<char>) -> bool {
    let ti = node_idx(v, t);
    &&& ti >= 0
    &&& !v.nodes[ti].retracted
    &&& justs_of(v, t).len() > 0
    &&& forall|k: int| 0 <= k < justs_of(v, t).len() ==> (#[trigger] justs_of(v, t)[k]).ants.contains(c)
}

/// While `c` is OUT, no justification of a node that needs it holds.
pub proof fn lemma_needs_compute(v: TmsView, c: Seq<char>, t: Seq<char>)
    requires
        needs_in(v, c, t),
        out_premise(v, c),
    ensures
        compute(v, t) == crate::model::out_tv(),
{
    let js = justs_of(v, t);
    assert(!is_in(v, c)) by {
        reveal_strlit("IN");
        reveal_strlit("OUT");
        assert("IN"@.len() != "OUT"@.len());
    }
    assert forall|k: int| 0 <= k < js.len() implies !just_valid(v, #[trigger] js[k]) by {
        assert(js[k].ants.contains(c));
        let a = choose|a: int| 0 <= a < js[k].ants.len() && js[k].ants[a] == c;
        assert(!is_in(v, js[k].ants[a]));
    }
    assert(!some_valid(v, js));
}

/// Setting a truth value keeps `needs_in`.
pub proof fn lemma_set_needs(v: TmsView, c: Seq<char>, t: Seq<char>, i: int, tv: Seq<char>)
    requires
        needs_in(v, c, t),
        0 <= i < v.nodes.len(),
    ensures
        needs_in(set_truth(v, i, tv), c, t),
        set_truth(v, i, tv).nodes[node_idx(v, t)].truth == if i == node_idx(v, t) {
            tv
        } else {
            v.nodes[node_idx(v, t)].truth
        },
{
    let w = set_truth(v, i, tv);
    assert(node_keys(w) =~= node_keys(v));
    assert(just_keys(w) == just_keys(v));
    assert(justs_of(w, t) == justs_of(v, t));
    lemma_first_index(node_keys(v), t);
}

/// One visit keeps `c` an OUT premise and `t` needing it; it leaves `t`
/// OUT once `t` is the node visited, and keeps it OUT.
pub proof fn lemma_visit_cut(
    v: TmsView,
    c: Seq<char>,
    t: Seq<char>,
    x: Seq<char>,
    q: Seq<Seq<char>>,
    ch: Seq<Seq<char>>,
)
    requires
        out_premise(v, c),
        needs_in(v, c, t),
    ensures
        out_premise(visit(v, x, q, ch).0, c),
        needs_in(visit(v, x, q, ch).0, c, t),
        node_idx(visit(v, x, q, ch).0, t) == node_idx(v, t),
        (x == t || v.nodes[node_idx(v, t)].truth == crate::model::out_tv()) ==> visit(v, x, q, ch).0.nodes[node_idx(
            v,
            t,
        )].truth == crate::model::out_tv(),
{
    lemma_visit_keeps_premise(v, c, x, q, ch);
    let i = node_idx(v, x);
    let ti = node_idx(v, t);
    lemma_first_index(node_keys(v), x);
    lemma_first_index(node_keys(v), t);
    lemma_needs_compute(v, c, t);
    if !(i >= 0 && v.nodes[i].retracted) {
        let tv = compute(v, x);
        if i >= 0 && v.nodes[i].truth != tv {
            lemma_set_needs(v, c, t, i, tv);
            let w = set_truth(v, i, tv);
            assert(node_keys(w) =~= node_keys(v));
            if i == ti {
                assert(node_keys(v)[i] == x);
                assert(x == t);
            }
        }
    } else {
        if x == t {
            assert(node_keys(v)[i] == x);
            assert(i == ti);
        }
    }
}

/// Visiting the dependents `ds` keeps the same, and leaves `t` OUT when it
/// is among them or was OUT already.
pub proof fn lemma_visit_all_cut(
    v: TmsView,
    c: Seq<char>,
    t: Seq<char>,
    ds: Seq<Seq<char>>,
    q: Seq<Seq<char>>,
    ch: Seq<Seq<char>>,
)
    requires
        out_premise(v, c),
        needs_in(v, c, t),
    ensures
        out_premise(visit_all(v, ds, q, ch).0, c),
        needs_in(visit_all(v, ds, q, ch).0, c, t),
        node_idx(visit_all(v, ds, q, ch).0, t) == node_idx(v, t),
        (ds.contains(t) || v.nodes[node_idx(v, t)].truth == crate::model::out_tv()) ==> visit_all(
            v,
            ds,
            q,
            ch,
        ).0.nodes[node_idx(v, t)].truth == crate::model::out_tv(),
    decreases ds.len(),
{
    if ds.len() > 0 {
        let r = visit(v, ds[0], q, ch);
        lemma_visit_cut(v, c, t, ds[0], q, ch);
        lemma_visit_all_cut(r.0, c, t, ds.drop_first(), r.1, r.2);
        if ds.contains(t) && ds[0] != t {
            let k = choose|k: int| 0 <= k < ds.len() && ds[k] == t;
            assert(ds.drop_first()[k - 1] == t);
        }
    }
}

/// From the first step on, propagation from an OUT premise `c` keeps a
/// dependent `t` that needs `c` IN OUT.
pub proof fn lemma_bfs_cut(v: TmsView, c: Seq<char>, t: Seq<char>, n: nat)
    requires
        out_premise(v, c),
        needs_in(v, c, t),
        deps_of(v, c).contains(t),
        n >= 1,
    ensures
        out_premise(bfs_iter(bfs_init(v, c), n).net, c),
        needs_in(bfs_iter(bfs_init(v, c), n).net, c, t),
        node_idx(bfs_iter(bfs_init(v, c), n).net, t) == node_idx(v, t),
        bfs_iter(bfs_init(v, c), n).net.nodes[node_idx(v, t)].truth == crate::model::out_tv(),
    decreases n,
{
    let s0 = bfs_init(v, c);
    if n == 1 {
        assert(bfs_iter(s0, 0) == s0);
        assert(s0.queue[0] == c);
        lemma_visit_all_cut(v, c, t, deps_of(v, c), s0.queue, s0.changed);
    } else {
        lemma_bfs_cut(v, c, t, (n - 1) as nat);
        let p = bfs_iter(s0, (n - 1) as nat);
        if !bfs_done(p) {
            lemma_visit_all_cut(p.net, c, t, deps_of(p.net, p.queue[p.head as int]), p.queue, p.changed);
        }
    }
}

} // verus!

verus! {

/// A node whose justifications all need `y` IN computes to OUT while `y`
/// is not IN.
pub proof fn lemma_needs_out(v: TmsView, y: Seq<char>, x: Seq<char>)
    requires
        needs_in(v, y, x),
        !is_in(v, y),
    ensures
        compute(v, x) == crate::model::out_tv(),
{
    let js = justs_of(v, x);
    assert forall|k: int| 0 <= k < js.len() implies !just_valid(v, #[trigger] js[k]) by {
        assert(js[k].ants.contains(y));
        let a = choose|a: int| 0 <= a < js[k].ants.len() && js[k].ants[a] == y;
        assert(!is_in(v, js[k].ants[a]));
    }
    assert(!some_valid(v, js));
}

/// Where the dependents index covers the justifications, a node that
/// needs `y` is recorded among the dependents of `y`.
pub proof fn lemma_needs_dep(v: TmsView, y: Seq<char>, x: Seq<char>)
    requires
        needs_in(v, y, x),
        deps_cover(v),
    ensures
        deps_of(v, y).contains(x),
{
    let g = first_index(just_keys(v), x);
    lemma_first_index(just_keys(v), x);
    assert(g >= 0);
    assert(v.justs[g].1[0] == justs_of(v, x)[0]);
    assert(justs_of(v, x)[0].ants.contains(y));
    assert(crate::model::mentions(v.justs[g].1[0], y));
    assert(v.justs[g].0 == just_keys(v)[g]);
}

/// Visiting the dependents `ds` only adds nodes of `ds` to the changed
/// list.
pub proof fn lemma_visit_all_changed(v: TmsView, ds: Seq<Seq<char>>, q: Seq<Seq<char>>, ch: Seq<Seq<char>>)
    ensures
        visit_all(v, ds, q, ch).2.len() >= ch.len(),
        forall|k: int| 0 <= k < ch.len() ==> #[trigger] visit_all(v, ds, q, ch).2[k] == ch[k],
        forall|k: int| ch.len() <= k < visit_all(v, ds, q, ch).2.len() ==> ds.contains(#[trigger] visit_all(v, ds, q, ch).2[k]),
    decreases ds.len(),
{
    if ds.len() > 0 {
        let r = visit(v, ds[0], q, ch);
        assert(r.2 == ch || r.2 == ch.push(ds[0]));
        lemma_visit_all_changed(r.0, ds.drop_first(), r.1, r.2);
        let f = visit_all(r.0, ds.drop_first(), r.1, r.2).2;
        assert forall|k: int| ch.len() <= k < f.len() implies ds.contains(#[trigger] f[k]) by {
            if k < r.2.len() {
                assert(f[k] == r.2[k]);
                assert(r.2[k] == ds[0]);
                assert(ds[0] == f[k]);
            } else {
                assert(ds.drop_first().contains(f[k]));
                let j = choose|j: int| 0 <= j < ds.drop_first().len() && ds.drop_first()[j] == f[k];
                assert(ds[j + 1] == f[k]);
            }
        }
    }
}

/// Every node propagation changed is a dependent of a queue entry already
/// taken.
pub proof fn lemma_bfs_changed_reached(v0: TmsView, id: Seq<char>, n: nat)
    ensures
        ({
            let s = bfs_iter(bfs_init(v0, id), n);
            forall|k: int| 0 <= k < s.changed.len() ==> reached_before(v0, s.queue, s.head as int, #[trigger] s.changed[k])
        }),
    decreases n,
{
    let s = bfs_iter(bfs_init(v0, id), n);
    if n > 0 {
        lemma_bfs_changed_reached(v0, id, (n - 1) as nat);
        let p = bfs_iter(bfs_init(v0, id), (n - 1) as nat);
        lemma_bfs_iter(v0, id, (n - 1) as nat);
        lemma_bfs_iter(v0, id, n);
        if !bfs_done(p) {
            let h = p.head as int;
            lemma_frame_keys(v0, p.net);
            let ds = deps_of(p.net, p.queue[h]);
            assert(ds == deps_of(v0, p.queue[h]));
            lemma_visit_all_changed(p.net, ds, p.queue, p.changed);
            assert(s.changed == visit_all(p.net, ds, p.queue, p.changed).2);
            assert(s.head == h + 1);
            assert forall|k: int| 0 <= k < s.changed.len() implies reached_before(
                v0,
                s.queue,
                s.head as int,
                #[trigger] s.changed[k],
            ) by {
                if k < p.changed.len() {
                    assert(s.changed[k] == p.changed[k]);
                    assert(reached_before(v0, p.queue, h, p.changed[k]));
                    let pp = choose|pp: int|
                        0 <= pp < h && pp < p.queue.len() && #[trigger] deps_of(v0, p.queue[pp]).contains(p.changed[k]);
                    if pp > 0 {
                        assert(p.queue[pp] == p.changed[pp - 1]);
                        assert(s.queue[pp] == s.changed[pp - 1]);
                    }
                    assert(s.queue[pp] == p.queue[pp]);
                    assert(deps_of(v0, s.queue[pp]).contains(s.changed[k]));
                } else {
                    assert(ds.contains(s.changed[k]));
                    if h > 0 {
                        assert(p.queue[h] == p.changed[h - 1]);
                        assert(s.queue[h] == s.changed[h - 1]);
                    }
                    assert(s.queue[h] == p.queue[h]);
                    assert(deps_of(v0, s.queue[h]).contains(s.changed[k]));
                }
            }
        }
    }
}

/// `x` rests on `c` through `n` links, each a node all of whose
/// justifications need the one before it IN.
pub open spec fn rests_on(v: TmsView, c: Seq<char>, x: Seq<char>, n: nat) -> bool
    decreases n,
{
    if n == 0 {
        x == c
    } else {
        exists|y: Seq<char>| #[trigger] needs_in(v, y, x) && rests_on(v, c, y, (n - 1) as nat)
    }
}

/// When propagation from a premise `c` set OUT in a network whose nodes
/// all satisfy their justifications runs to its end, every node resting
/// on `c` is OUT.
pub proof fn lemma_cascade_out(orig: TmsView, c: Seq<char>, r: bool, x: Seq<char>, n: nat)
    requires
        node_idx(orig, c) >= 0,
        justs_of(orig, c).len() == 0,
        deps_cover(orig),
        forall|y: Seq<char>| #[trigger] consistent(orig, y),
        bfs_done(propagation(crate::model::mark_node(orig, c, crate::model::out_tv(), r), c)),
        rests_on(orig, c, x, n),
        n >= 1,
    ensures
        node_idx(orig, x) >= 0,
        propagation(crate::model::mark_node(orig, c, crate::model::out_tv(), r), c).net.nodes[node_idx(orig, x)].truth
            == crate::model::out_tv(),
    decreases n,
{
    let mid = crate::model::mark_node(orig, c, crate::model::out_tv(), r);
    let s = propagation(mid, c);
    let ci = node_idx(orig, c);
    lemma_first_index(node_keys(orig), c);
    assert(node_keys(mid) =~= node_keys(orig));
    assert(just_keys(mid) == just_keys(orig));
    assert forall|z: Seq<char>| #[trigger] justs_of(mid, z) == justs_of(orig, z) by {}
    assert forall|z: Seq<char>| #[trigger] node_idx(mid, z) == node_idx(orig, z) by {}
    assert forall|z: Seq<char>| #[trigger] deps_of(mid, z) == deps_of(orig, z) by {}
    assert(deps_cover(mid) == deps_cover(orig)) by {
        assert(mid.justs == orig.justs && mid.deps == orig.deps);
    }
    lemma_bfs_iter(mid, c, crate::model::step_cap());
    let e = s.net;
    lemma_frame_keys(mid, e);
    // the link before `x`
    let y = choose|y: Seq<char>| #[trigger] needs_in(orig, y, x) && rests_on(orig, c, y, (n - 1) as nat);
    let xi = node_idx(orig, x);
    lemma_first_index(node_keys(orig), x);
    assert(x != c);
    assert(xi != ci);
    assert(needs_in(e, y, x)) by {
        assert(e.nodes[xi].retracted == mid.nodes[xi].retracted);
        assert(mid.nodes[xi] == orig.nodes[xi]);
    }
    // `y` ends OUT
    assert(!is_in(e, y)) by {
        if n == 1 {
            assert(y == c);
            lemma_bfs_keeps_premise(bfs_init(mid, c), c, crate::model::step_cap());
            reveal_strlit("IN");
            reveal_strlit("OUT");
            assert("IN"@.len() != "OUT"@.len());
        } else {
            lemma_cascade_out(orig, c, r, y, (n - 1) as nat);
            reveal_strlit("IN");
            reveal_strlit("OUT");
            assert("IN"@.len() != "OUT"@.len());
        }
    }
    lemma_needs_out(e, y, x);
    lemma_needs_dep(orig, y, x);
    let reached = deps_of(mid, c).contains(x) || exists|z: Seq<char>|
        s.changed.contains(z) && #[trigger] deps_of(mid, z).contains(x);
    if reached {
        lemma_bfs_consistent(mid, c, crate::model::step_cap());
        assert(consistent(e, x));
        assert(e.nodes[xi].retracted == orig.nodes[xi].retracted);
    } else {
        lemma_bfs_changed_reached(mid, c, crate::model::step_cap());
        // neither `x` nor `y` changed
        assert(!s.changed.contains(x)) by {
            if s.changed.contains(x) {
                let k = choose|k: int| 0 <= k < s.changed.len() && s.changed[k] == x;
                assert(reached_before(mid, s.queue, s.head as int, s.changed[k]));
                let pp = choose|pp: int|
                    0 <= pp < s.head && pp < s.queue.len() && #[trigger] deps_of(mid, s.queue[pp]).contains(x);
                if pp == 0 {
                    assert(s.queue[0] == c);
                } else {
                    assert(s.queue[pp] == s.changed[pp - 1]);
                    assert(s.changed.contains(s.changed[pp - 1]));
                }
            }
        }
        assert(e.nodes[xi].truth == mid.nodes[xi].truth);
        assert(y != c);
        assert(!s.changed.contains(y)) by {
            assert(deps_of(mid, y).contains(x));
        }
        let yi = node_idx(orig, y);
        lemma_first_index(node_keys(orig), y);
        if yi >= 0 {
            assert(yi != ci);
            assert(e.nodes[yi].truth == mid.nodes[yi].truth);
            assert(mid.nodes[yi] == orig.nodes[yi]);
        }
        assert(!is_in(orig, y));
        lemma_needs_out(orig, y, x);
        assert(consistent(orig, x));
    }
}

} // verus!

verus! {

/// Some justification of `y` names `a` (in its in-list or out-list).
pub open spec fn mentioned_by(v: TmsView, y: Seq<char>, a: Seq<char>) -> bool {
    exists|k: int| 0 <= k < justs_of(v, y).len() && #[trigger] mentions(justs_of(v, y)[k], a)
}

/// Every node satisfies its justifications (or is retracted).
pub open spec fn all_consistent(v: TmsView) -> bool {
    forall|y: Seq<char>| #[trigger] consistent(v, y)
}

/// `r` ranks the nodes so that every node a justification of `y` names
/// ranks below `y`: the justifications form no cycle.
pub open spec fn ranked(v: TmsView, r: spec_fn(Seq<char>) -> nat) -> bool {
    forall|y: Seq<char>, a: Seq<char>| #[trigger] mentioned_by(v, y, a) ==> r(a) < r(y)
}

/// `y` computes to the same value in two views with the same ids and
/// justifications where every node its justifications name (and, for a
/// premise, `y` itself) has the same truth value.
pub proof fn lemma_compute_same(v: TmsView, w: TmsView, y: Seq<char>)
    requires
        node_keys(w) == node_keys(v),
        w.justs == v.justs,
        forall|a: Seq<char>| #[trigger] mentioned_by(v, y, a) && has_node(v, a) ==> w.nodes[node_idx(v, a)].truth
            == v.nodes[node_idx(v, a)].truth,
        justs_of(v, y).len() == 0 && has_node(v, y) ==> w.nodes[node_idx(v, y)].truth == v.nodes[node_idx(v, y)].truth,
    ensures
        compute(w, y) == compute(v, y),
{
    assert(just_keys(w) == just_keys(v));
    let js = justs_of(v, y);
    assert(justs_of(w, y) == js);
    if js.len() > 0 {
        assert forall|k: int| 0 <= k < js.len() implies just_valid(w, #[trigger] js[k]) == just_valid(v, js[k]) by {
            assert forall|i: int| 0 <= i < js[k].ants.len() implies is_in(w, #[trigger] js[k].ants[i]) == is_in(
                v,
                js[k].ants[i],
            ) by {
                assert(mentions(js[k], js[k].ants[i]));
                assert(mentioned_by(v, y, js[k].ants[i]));
            }
            assert forall|i: int| 0 <= i < js[k].outs.len() implies out_ok(w, #[trigger] js[k].outs[i]) == out_ok(
                v,
                js[k].outs[i],
            ) by {
                assert(mentions(js[k], js[k].outs[i]));
                assert(mentioned_by(v, y, js[k].outs[i]));
            }
        }
        if some_valid(v, js) {
            let k = choose|k: int| 0 <= k < js.len() && just_valid(v, #[trigger] js[k]);
            assert(just_valid(w, js[k]));
        }
        if some_valid(w, js) {
            let k = choose|k: int| 0 <= k < js.len() && just_valid(w, #[trigger] js[k]);
            assert(just_valid(v, js[k]));
        }
    }
}

/// Where the dependents index covers the justifications, a node that a
/// justification of `y` names records `y` among its dependents.
pub proof fn lemma_mentioned_dep(v: TmsView, y: Seq<char>, a: Seq<char>)
    requires
        mentioned_by(v, y, a),
        deps_cover(v),
    ensures
        deps_of(v, a).contains(y),
{
    let g = first_index(just_keys(v), y);
    lemma_first_index(just_keys(v), y);
    let k = choose|k: int| 0 <= k < justs_of(v, y).len() && #[trigger] mentions(justs_of(v, y)[k], a);
    assert(g >= 0);
    assert(v.justs[g].1[k] == justs_of(v, y)[k]);
    assert(mentions(v.justs[g].1[k], a));
    assert(v.justs[g].0 == just_keys(v)[g]);
}

/// A propagation that runs to its end from a network in which every node
/// but the dependents of `id` satisfies its justifications leaves every
/// node satisfying them.
pub proof fn lemma_completed_consistent(v0: TmsView, id: Seq<char>)
    requires
        deps_cover(v0),
        forall|y: Seq<char>| #[trigger] consistent(v0, y) || deps_of(v0, id).contains(y),
        bfs_done(propagation(v0, id)),
    ensures
        all_consistent(propagation(v0, id).net),
{
    let s = propagation(v0, id);
    let e = s.net;
    lemma_bfs_iter(v0, id, crate::model::step_cap());
    lemma_frame_keys(v0, e);
    lemma_bfs_consistent(v0, id, crate::model::step_cap());
    lemma_bfs_changed_reached(v0, id, crate::model::step_cap());
    assert forall|y: Seq<char>| #[trigger] consistent(e, y) by {
        let reached = deps_of(v0, id).contains(y) || exists|z: Seq<char>|
            s.changed.contains(z) && #[trigger] deps_of(v0, z).contains(y);
        if !reached {
            assert(consistent(v0, y));
            let yi = node_idx(v0, y);
            lemma_first_index(node_keys(v0), y);
            if yi >= 0 && !v0.nodes[yi].retracted {
                assert(e.nodes[yi].retracted == v0.nodes[yi].retracted);
                // a node that changed is a dependent of a queue entry taken
                assert forall|a: Seq<char>| #[trigger] has_node(v0, a) && !s.changed.contains(a) implies e.nodes[node_idx(
                    v0,
                    a,
                )].truth == v0.nodes[node_idx(v0, a)].truth by {
                    let ai = node_idx(v0, a);
                    lemma_first_index(node_keys(v0), a);
                    assert(v0.nodes[ai].id == a) by {
                        assert(node_keys(v0)[ai] == a);
                    }
                }
                assert(!s.changed.contains(y)) by {
                    if s.changed.contains(y) {
                        let k = choose|k: int| 0 <= k < s.changed.len() && s.changed[k] == y;
                        assert(reached_before(v0, s.queue, s.head as int, s.changed[k]));
                        let pp = choose|pp: int|
                            0 <= pp < s.head && pp < s.queue.len() && #[trigger] deps_of(v0, s.queue[pp]).contains(y);
                        if pp == 0 {
                            assert(s.queue[0] == id);
                        } else {
                            assert(s.queue[pp] == s.changed[pp - 1]);
                            assert(s.changed.contains(s.changed[pp - 1]));
                        }
                    }
                }
                assert forall|a: Seq<char>| #[trigger] mentioned_by(v0, y, a) && has_node(v0, a) implies e.nodes[node_idx(
                    v0,
                    a,
                )].truth == v0.nodes[node_idx(v0, a)].truth by {
                    lemma_mentioned_dep(v0, y, a);
                    if s.changed.contains(a) {
                        assert(deps_of(v0, a).contains(y));
                    }
                }
                lemma_compute_same(v0, e, y);
            }
        }
    }
}

/// In an acyclic network two assignments of truth values that satisfy
/// every justification, and agree on the premises and on the retracted
/// nodes, agree everywhere.
pub proof fn lemma_unique(v: TmsView, w: TmsView, r: spec_fn(Seq<char>) -> nat, y: Seq<char>)
    requires
        node_keys(w) == node_keys(v),
        w.nodes.len() == v.nodes.len(),
        w.justs == v.justs,
        forall|i: int| 0 <= i < v.nodes.len() ==> (#[trigger] w.nodes[i]).retracted == v.nodes[i].retracted,
        forall|i: int|
            0 <= i < v.nodes.len() && (v.nodes[i].retracted || justs_of(v, v.nodes[i].id).len() == 0) ==> (#[trigger] w.nodes[i]).truth
                == v.nodes[i].truth,
        all_consistent(v),
        all_consistent(w),
        ranked(v, r),
    ensures
        has_node(v, y) ==> w.nodes[node_idx(v, y)].truth == v.nodes[node_idx(v, y)].truth,
    decreases r(y),
{
    let yi = node_idx(v, y);
    lemma_first_index(node_keys(v), y);
    if yi >= 0 {
        assert(node_keys(v)[yi] == y);
        assert(v.nodes[yi].id == y);
        if !(v.nodes[yi].retracted || justs_of(v, y).len() == 0) {
            assert(consistent(v, y));
            assert(consistent(w, y));
            assert forall|a: Seq<char>| #[trigger] mentioned_by(v, y, a) && has_node(v, a) implies w.nodes[node_idx(
                v,
                a,
            )].truth == v.nodes[node_idx(v, a)].truth by {
                assert(r(a) < r(y));
                lemma_unique(v, w, r, a);
            }
            lemma_compute_same(v, w, y);
        }
    }
}

} // verus!

verus! {

/// Every node ranked below `p` has its computed value (or is a premise or
/// retracted).
pub open spec fn settled_below(v: TmsView, r: spec_fn(Seq<char>) -> nat, p: nat) -> bool {
    forall|i: int| 0 <= i < v.nodes.len() && r(v.nodes[i].id) < p ==> !#[trigger] stale_at(v, i)
}

/// Setting the truth value of a node ranked at least `p` leaves a node
/// ranked at most `p` with its computed value.
proof fn lemma_set_keeps(v: TmsView, r: spec_fn(Seq<char>) -> nat, p: nat, m: int, t: Seq<char>, j: int)
    requires
        unique_keys(node_keys(v)),
        ranked(v, r),
        0 <= m < v.nodes.len(),
        r(v.nodes[m].id) >= p,
        0 <= j < v.nodes.len(),
        j != m,
        r(v.nodes[j].id) <= p,
        !stale_at(v, j),
    ensures
        !stale_at(set_truth(v, m, t), j),
{
    let w = set_truth(v, m, t);
    let y = v.nodes[j].id;
    assert(node_keys(w) =~= node_keys(v));
    assert(node_keys(v)[j] == y);
    assert(node_keys(v)[m] == v.nodes[m].id);
    assert(node_idx(v, y) == j) by {
        crate::model::lemma_first_index_at(node_keys(v), y, j);
    }
    assert forall|a: Seq<char>| #[trigger] mentioned_by(v, y, a) && has_node(v, a) implies w.nodes[node_idx(v, a)].truth
        == v.nodes[node_idx(v, a)].truth by {
        lemma_first_index(node_keys(v), a);
        assert(r(a) < r(y));
        if node_idx(v, a) == m {
            assert(node_keys(v)[m] == a);
        }
    }
    lemma_compute_same(v, w, y);
    assert(just_keys(w) == just_keys(v));
    assert(justs_of(w, y) == justs_of(v, y));
    assert(w.nodes[j] == v.nodes[j]);
}

/// A pass from position `k`, where every node ranked below `p` and every
/// node before `k` ranked at most `p` has its computed value, leaves every
/// node ranked at most `p` with its computed value.
proof fn lemma_pass_settles(v: TmsView, r: spec_fn(Seq<char>) -> nat, p: nat, k: int, ch: Seq<Seq<char>>)
    requires
        unique_keys(node_keys(v)),
        ranked(v, r),
        settled_below(v, r, p),
        0 <= k <= v.nodes.len(),
        forall|j: int| 0 <= j < k && r(v.nodes[j].id) <= p ==> !#[trigger] stale_at(v, j),
    ensures
        settled_below(pass_from(v, k, ch).0, r, p + 1),
    decreases v.nodes.len() - k,
{
    if k < v.nodes.len() {
        if stale_at(v, k) {
            let y = v.nodes[k].id;
            let t = compute(v, y);
            let w = set_truth(v, k, t);
            assert(r(y) >= p);
            assert(node_keys(w) =~= node_keys(v));
            assert(just_keys(w) == just_keys(v));
            assert forall|z: Seq<char>, a: Seq<char>| #[trigger] mentioned_by(w, z, a) implies r(a) < r(z) by {
                assert(justs_of(w, z) == justs_of(v, z));
                assert(mentioned_by(v, z, a));
            }
            assert forall|i: int| 0 <= i < w.nodes.len() && r(w.nodes[i].id) < p implies !#[trigger] stale_at(w, i) by {
                assert(w.nodes[i].id == v.nodes[i].id);
                lemma_set_keeps(v, r, p, k, t, i);
            }
            assert forall|j: int| 0 <= j < k + 1 && r(w.nodes[j].id) <= p implies !#[trigger] stale_at(w, j) by {
                assert(w.nodes[j].id == v.nodes[j].id);
                if j < k {
                    lemma_set_keeps(v, r, p, k, t, j);
                } else {
                    assert(node_keys(v)[k] == y);
                    assert(node_idx(v, y) == k) by {
                        crate::model::lemma_first_index_at(node_keys(v), y, k);
                    }
                    assert forall|a: Seq<char>| #[trigger] mentioned_by(v, y, a) && has_node(v, a) implies w.nodes[node_idx(
                        v,
                        a,
                    )].truth == v.nodes[node_idx(v, a)].truth by {
                        lemma_first_index(node_keys(v), a);
                        assert(r(a) < r(y));
                        if node_idx(v, a) == k {
                            assert(node_keys(v)[k] == a);
                        }
                    }
                    lemma_compute_same(v, w, y);
                    assert(justs_of(w, y) == justs_of(v, y));
                }
            }
            lemma_pass_settles(w, r, p, k + 1, ch.push(y));
        } else {
            lemma_pass_settles(v, r, p, k + 1, ch);
        }
    }
}

/// A pass over a network with no stale node changes nothing.
proof fn lemma_pass_still(v: TmsView, k: int, ch: Seq<Seq<char>>)
    requires
        fixpoint(v),
        0 <= k,
    ensures
        pass_from(v, k, ch) == (v, ch),
    decreases v.nodes.len() - k,
{
    if k < v.nodes.len() {
        assert(!stale_at(v, k));
        lemma_pass_still(v, k + 1, ch);
    }
}

/// Passes from a network settled below `p`, enough of them for every
/// rank, end at a fixpoint.
proof fn lemma_passes_fix(v: TmsView, r: spec_fn(Seq<char>) -> nat, p: nat, n: nat, ch: Seq<Seq<char>>)
    requires
        unique_keys(node_keys(v)),
        ranked(v, r),
        settled_below(v, r, p),
        forall|i: int| 0 <= i < v.nodes.len() ==> r(#[trigger] v.nodes[i].id) < p + n,
    ensures
        fixpoint(passes(v, n, ch).0),
    decreases n,
{
    if n == 0 {
        assert forall|i: int| 0 <= i < v.nodes.len() implies !#[trigger] stale_at(v, i) by {
            assert(r(v.nodes[i].id) < p);
        }
    } else {
        let res = pass_from(v, 0, ch);
        lemma_pass_from(v, 0, ch);
        if res.1.len() != ch.len() {
            lemma_pass_settles(v, r, p, 0, ch);
            let w = res.0;
            assert(recompute_frame(v, w, res.1));
            lemma_frame_keys(v, w);
            assert(w.justs == v.justs);
            assert forall|z: Seq<char>, a: Seq<char>| #[trigger] mentioned_by(w, z, a) implies r(a) < r(z) by {
                assert(justs_of(w, z) == justs_of(v, z));
                assert(mentioned_by(v, z, a));
            }
            assert forall|i: int| 0 <= i < w.nodes.len() implies r(#[trigger] w.nodes[i].id) < (p + 1) + (n - 1) by {
                assert(w.nodes[i].id == v.nodes[i].id);
            }
            lemma_passes_fix(w, r, p + 1, (n - 1) as nat, res.1);
        }
    }
}

/// Full recomputation of a network whose justifications form no cycle
/// (ranked by `r`, with no rank above the number of nodes) reaches a
/// fixpoint, and recomputing that again changes nothing.
pub proof fn law_recompute_converges(v: TmsView, r: spec_fn(Seq<char>) -> nat)
    requires
        unique_keys(node_keys(v)),
        ranked(v, r),
        forall|i: int| 0 <= i < v.nodes.len() ==> r(#[trigger] v.nodes[i].id) <= v.nodes.len(),
    ensures
        fixpoint(recomputation(v).0),
        recomputation(recomputation(v).0) == (recomputation(v).0, Seq::<Seq<char>>::empty()),
{
    lemma_passes_fix(v, r, 0, (v.nodes.len() + 1) as nat, Seq::empty());
    let w = recomputation(v).0;
    lemma_pass_still(w, 0, Seq::empty());
}

} // verus!
