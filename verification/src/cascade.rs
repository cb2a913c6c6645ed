//! What retracting a premise does to the nodes that rest on it.
use vstd::prelude::*;
use crate::laws::{
    all_consistent, lemma_bfs_iter, lemma_bfs_keeps_premise, lemma_cascade_out, lemma_compute_same, lemma_completed_consistent,
    lemma_frame_keys, lemma_mentioned_dep, lemma_unique, mentioned_by, ranked, rests_on,
};
use crate::model::{
    bfs_done, bfs_init, consistent, deps_cover, deps_of, first_index, has_node, in_tv, just_keys, justs_of, lemma_first_index,
    mark_node, node_idx, node_keys, out_tv, propagation, step_cap, TmsView,
};
use crate::network::Network;
use crate::types::views;

verus! {

/// Retracting a premise turns OUT every node whose justifications all
/// need it IN (a node that is not itself retracted and that the
/// dependents index records under the premise, as it records every
/// dependent when it covers the justifications).
pub proof fn law_retraction_outs_dependents(net: Network, after: Network, c: Seq<char>, t: Seq<char>)
    requires
        Network::retraction(net, after, c),
        deps_cover(net.tms()),
        c != t,
        net.node(c) is Some,
        net.justs_named(c).len() == 0,
        net.node(t) matches Some(n) && !n.metadata.flag("_retracted"@),
        net.justs_named(t).len() > 0,
        forall|k: int| 0 <= k < net.justs_named(t).len() ==> views(#[trigger] net.justs_named(t)[k].antecedents@).contains(c),
    ensures
        after.node(t) matches Some(n) && n.truth_value@ == out_tv(),
        after.node(c) matches Some(n) && n.truth_value@ == out_tv(),
{
    let nt = net.tms();
    net.lemma_tms_keys();
    after.lemma_tms_keys();
    crate::revise::lemma_justs_seen(net, c);
    crate::revise::lemma_justs_seen(net, t);
    lemma_first_index(node_keys(nt), c);
    lemma_first_index(node_keys(nt), t);
    let ci = node_idx(nt, c);
    let ti = node_idx(nt, t);
    assert(ci != ti);
    let rf = match net.node(c) {
        Some(n) => n.metadata is Object,
        None => false,
    };
    let mid = mark_node(nt, c, out_tv(), rf);
    assert(node_keys(mid) =~= node_keys(nt));
    assert(just_keys(mid) == just_keys(nt));
    assert(justs_of(mid, c) == justs_of(nt, c));
    assert(justs_of(mid, t) == justs_of(nt, t));
    assert(deps_of(mid, c) == deps_of(nt, c));
    assert(mid.nodes[ti] == nt.nodes[ti]);
    assert(crate::laws::out_premise(mid, c));
    let js = justs_of(mid, t);
    assert forall|k: int| 0 <= k < js.len() implies (#[trigger] js[k]).ants.contains(c) by {
        assert(js[k] == net.justs_named(t)[k].jview());
    }
    assert(crate::laws::needs_in(mid, c, t));
    // the dependents index records `t` under `c`
    let g = first_index(just_keys(nt), t);
    lemma_first_index(just_keys(nt), t);
    assert(g >= 0);
    assert(nt.justs[g].1[0] == js[0]);
    assert(crate::model::mentions(nt.justs[g].1[0], c));
    assert(nt.justs[g].0 == t);
    assert(deps_of(nt, c).contains(t));
    crate::laws::lemma_bfs_cut(mid, c, t, crate::model::step_cap());
    let at = after.tms();
    assert(at == propagation(mid, c).net);
    lemma_first_index(node_keys(at), t);
    lemma_first_index(node_keys(at), c);
    assert(after.nodes@[node_idx(at, t)].truth_value@ == at.nodes[node_idx(at, t)].truth);
    assert(after.nodes@[node_idx(at, c)].truth_value@ == at.nodes[node_idx(at, c)].truth);
}

} // verus!

verus! {

/// Retracting a premise cascades: in a network whose nodes all satisfy
/// their justifications and whose dependents index covers them, once the
/// propagation the retraction starts has run to its end, every node that
/// rests on the premise through a chain of nodes each needing the one
/// before it IN is OUT.
pub proof fn law_retraction_cascades(net: Network, after: Network, c: Seq<char>, x: Seq<char>, n: nat)
    requires
        Network::retraction(net, after, c),
        deps_cover(net.tms()),
        forall|y: Seq<char>| #[trigger] consistent(net.tms(), y),
        net.node(c) is Some,
        net.justs_named(c).len() == 0,
        rests_on(net.tms(), c, x, n),
        n >= 1,
        bfs_done(propagation(Network::retraction_start(net, c), c)),
    ensures
        after.node(x) matches Some(nd) && nd.truth_value@ == out_tv(),
{
    let nt = net.tms();
    net.lemma_tms_keys();
    after.lemma_tms_keys();
    crate::revise::lemma_justs_seen(net, c);
    lemma_first_index(node_keys(nt), c);
    let rf = match net.node(c) {
        Some(nd) => nd.metadata is Object,
        None => false,
    };
    lemma_cascade_out(nt, c, rf, x, n);
    let mid = mark_node(nt, c, out_tv(), rf);
    let at = after.tms();
    assert(at == propagation(mid, c).net);
    lemma_bfs_iter(mid, c, step_cap());
    lemma_frame_keys(mid, at);
    assert(node_keys(mid) =~= node_keys(nt));
    let xi = node_idx(nt, x);
    assert(node_idx(at, x) == xi);
    lemma_first_index(node_keys(at), x);
    assert(after.nodes@[xi].truth_value@ == at.nodes[xi].truth);
}

} // verus!

verus! {

/// Marking premise `x` with a truth value (and a retraction flag) in a
/// network where every node satisfies its justifications leaves every node
/// but the dependents of `x` satisfying them.
proof fn lemma_mark_premise(v: TmsView, x: Seq<char>, t: Seq<char>, r: bool)
    requires
        all_consistent(v),
        deps_cover(v),
        node_idx(v, x) >= 0,
        justs_of(v, x).len() == 0,
    ensures
        ({
            let m = mark_node(v, x, t, r);
            forall|y: Seq<char>| #[trigger] consistent(m, y) || deps_of(m, x).contains(y)
        }),
        node_keys(mark_node(v, x, t, r)) == node_keys(v),
        mark_node(v, x, t, r).justs == v.justs,
        mark_node(v, x, t, r).deps == v.deps,
{
    let m = mark_node(v, x, t, r);
    let xi = node_idx(v, x);
    lemma_first_index(node_keys(v), x);
    assert(node_keys(m) =~= node_keys(v));
    assert(just_keys(m) == just_keys(v));
    assert forall|y: Seq<char>| #[trigger] consistent(m, y) || deps_of(m, x).contains(y) by {
        assert(deps_of(m, x) == deps_of(v, x));
        assert(justs_of(m, y) == justs_of(v, y));
        if !deps_of(v, x).contains(y) {
            assert(consistent(v, y));
            let yi = node_idx(v, y);
            lemma_first_index(node_keys(v), y);
            if y != x && yi >= 0 {
                assert(yi != xi);
                assert(m.nodes[yi] == v.nodes[yi]);
                assert forall|a: Seq<char>| #[trigger] mentioned_by(v, y, a) && has_node(v, a) implies m.nodes[node_idx(
                    v,
                    a,
                )].truth == v.nodes[node_idx(v, a)].truth by {
                    if a == x {
                        lemma_mentioned_dep(v, y, x);
                    }
                    lemma_first_index(node_keys(v), a);
                    if node_idx(v, a) != xi {
                        assert(m.nodes[node_idx(v, a)] == v.nodes[node_idx(v, a)]);
                    }
                }
                lemma_compute_same(v, m, y);
            }
        }
    }
}

/// Asserting a premise after retracting it gives every node back its truth
/// value, in a network whose justifications form no cycle (ranked by `r`),
/// whose nodes all satisfy their justifications and whose dependents index
/// covers them, when both propagations run to their end.
pub proof fn law_assert_restores_truth(a: Network, b: Network, c: Network, x: Seq<char>, r: spec_fn(Seq<char>) -> nat)
    requires
        a.wf(),
        Network::retraction(a, b, x),
        Network::assertion(b, c, x),
        deps_cover(a.tms()),
        all_consistent(a.tms()),
        ranked(a.tms(), r),
        a.node(x) matches Some(n) && n.truth_value@ == "IN"@ && !n.metadata.flag("_retracted"@),
        a.justs_named(x).len() == 0,
        bfs_done(propagation(Network::retraction_start(a, x), x)),
        bfs_done(propagation(Network::assertion_start(b, x), x)),
    ensures
        c.nodes@.len() == a.nodes@.len(),
        forall|k: int| 0 <= k < a.nodes@.len() ==> (#[trigger] c.nodes@[k]).truth_value@ == a.nodes@[k].truth_value@,
{
    let v = a.tms();
    a.lemma_tms_keys();
    crate::revise::lemma_justs_seen(a, x);
    lemma_first_index(node_keys(v), x);
    let xi = node_idx(v, x);
    // the retraction
    let m1 = Network::retraction_start(a, x);
    let rf = match a.node(x) {
        Some(n) => n.metadata is Object,
        None => false,
    };
    assert(m1 == mark_node(v, x, out_tv(), rf));
    lemma_mark_premise(v, x, out_tv(), rf);
    assert(deps_cover(m1) == deps_cover(v)) by {
        assert(m1.justs == v.justs && m1.deps == v.deps);
    }
    lemma_completed_consistent(m1, x);
    let e1 = b.tms();
    lemma_bfs_iter(m1, x, step_cap());
    lemma_frame_keys(m1, e1);
    assert(node_idx(m1, x) == xi);
    assert(justs_of(m1, x) == justs_of(v, x));
    lemma_bfs_keeps_premise(bfs_init(m1, x), x, step_cap());
    // the assertion
    let m2 = Network::assertion_start(b, x);
    assert(node_idx(e1, x) == xi);
    assert(justs_of(e1, x).len() == 0);
    assert(deps_cover(e1) == deps_cover(v)) by {
        assert(e1.justs == v.justs && e1.deps == v.deps);
    }
    lemma_mark_premise(e1, x, in_tv(), false);
    assert(deps_cover(m2) == deps_cover(v)) by {
        assert(m2.justs == v.justs && m2.deps == v.deps);
    }
    lemma_completed_consistent(m2, x);
    let e2 = c.tms();
    lemma_bfs_iter(m2, x, step_cap());
    lemma_frame_keys(m2, e2);
    assert(node_idx(m2, x) == xi);
    lemma_bfs_keeps_premise(bfs_init(m2, x), x, step_cap());
    c.lemma_tms_keys();
    // premises and retracted nodes keep their values throughout
    assert forall|i: int|
        0 <= i < v.nodes.len() && (v.nodes[i].retracted || justs_of(v, v.nodes[i].id).len() == 0) implies (#[trigger] e2.nodes[i]).truth
            == v.nodes[i].truth by {
        if i != xi {
            assert(m1.nodes[i] == v.nodes[i]);
            assert(m2.nodes[i] == e1.nodes[i]);
            let id = v.nodes[i].id;
            assert(node_keys(v)[i] == id);
            lemma_first_index(node_keys(v), id);
            if !v.nodes[i].retracted {
                assert(node_idx(v, id) == i) by {
                    crate::model::lemma_first_index_at(node_keys(v), id, i);
                }
                lemma_bfs_keeps_premise(bfs_init(m1, x), id, step_cap());
                assert(node_idx(m1, id) == i);
                assert(justs_of(e1, id) == justs_of(v, id));
                lemma_bfs_keeps_premise(bfs_init(m2, x), id, step_cap());
            }
        } else {
            assert(e2.nodes[xi].truth == in_tv());
        }
    }
    assert forall|i: int| 0 <= i < v.nodes.len() implies (#[trigger] e2.nodes[i]).retracted == v.nodes[i].retracted by {
        assert(e1.nodes[i].id == m1.nodes[i].id);
        assert(e2.nodes[i].id == m2.nodes[i].id);
        if i != xi {
            assert(m1.nodes[i] == v.nodes[i]);
            assert(m2.nodes[i] == e1.nodes[i]);
        } else {
            assert(!v.nodes[xi].retracted);
            assert(m2.nodes[xi].retracted == false);
        }
    }
    assert forall|k: int| 0 <= k < a.nodes@.len() implies (#[trigger] c.nodes@[k]).truth_value@ == a.nodes@[k].truth_value@ by {
        let id = v.nodes[k].id;
        assert(node_keys(v)[k] == id);
        assert(node_idx(v, id) == k) by {
            crate::model::lemma_first_index_at(node_keys(v), id, k);
        }
        lemma_unique(v, e2, r, id);
        assert(e2.nodes[k].truth == c.nodes@[k].truth_value@);
    }
}

} // verus!
