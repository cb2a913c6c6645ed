//! The `list` command: nodes filtered by status, premise-hood and
//! dependents, optionally ordered by how many nodes depend on them.
use vstd::prelude::*;
use crate::export::dedup;
use crate::format::{can_truncate, format_node_line, node_line, truncatable};
use crate::query::owners;
use crate::text::{contains_str, str_eq};
use crate::types::{views, Justification, Node, TmsError};

verus! {

/// The nodes whose justifications name `id` (in the in-list or the
/// out-list), one entry per such justification, in order.
pub open spec fn mentioners(js: Seq<Justification>, id: Seq<char>) -> Seq<Seq<char>>
    decreases js.len(),
{
    if js.len() == 0 {
        Seq::empty()
    } else {
        let r = mentioners(js.drop_last(), id);
        if views(js.last().antecedents@).contains(id) || views(js.last().outlist@).contains(id) {
            r.push(js.last().node_id@)
        } else {
            r
        }
    }
}

/// The number of nodes that depend on `id`: the distinct nodes whose
/// justifications name it.
pub open spec fn dependent_count(js: Seq<Justification>, id: Seq<char>) -> nat {
    dedup(mentioners(js, id)).len()
}

/// Node `n` passes the filters: the given status, no justifications when
/// only premises are asked for, named by some justification when only
/// nodes with dependents are asked for.
pub open spec fn list_filter(
    n: Node,
    js: Seq<Justification>,
    status: Option<&str>,
    premises: bool,
    has_deps: bool,
) -> bool {
    &&& match status {
        Some(s) => n.truth_value@ == s@,
        None => true,
    }
    &&& !(premises && owners(js).contains(n.id@))
    &&& !(has_deps && dependent_count(js, n.id@) == 0)
}

/// The positions of the nodes that pass the filters, in order.
pub open spec fn kept(ns: Seq<Node>, js: Seq<Justification>, status: Option<&str>, premises: bool, has_deps: bool) -> Seq<
    int,
>
    decreases ns.len(),
{
    if ns.len() == 0 {
        Seq::empty()
    } else {
        let r = kept(ns.drop_last(), js, status, premises, has_deps);
        if list_filter(ns.last(), js, status, premises, has_deps) {
            r.push(ns.len() - 1)
        } else {
            r
        }
    }
}

/// `a` comes before `b` by impact: more dependents, or as many and
/// earlier.
pub open spec fn before_by_impact(a: (usize, usize), b: (usize, usize)) -> bool {
    a.1 > b.1 || (a.1 == b.1 && a.0 < b.0)
}

/// Strictly ordered by impact.
pub open spec fn impact_sorted(s: Seq<(usize, usize)>) -> bool {
    forall|i: int, j: int| 0 <= i < j < s.len() ==> before_by_impact(s[i], s[j])
}

/// `order` lists the kept nodes with their numbers of dependents: in
/// their own order, or, `by_impact`, most dependents first and otherwise
/// in their own order.
pub open spec fn list_order(
    ns: Seq<Node>,
    js: Seq<Justification>,
    status: Option<&str>,
    premises: bool,
    has_deps: bool,
    by_impact: bool,
    order: Seq<(usize, usize)>,
) -> bool {
    let ks = kept(ns, js, status, premises, has_deps);
    &&& forall|k: int|
        0 <= k < order.len() ==> 0 <= (#[trigger] order[k]).0 < ns.len() && order[k].1 == dependent_count(
            js,
            ns[order[k].0 as int].id@,
        )
    &&& if by_impact {
        &&& impact_sorted(order)
        &&& order.len() == ks.len()
        &&& forall|i: int| #[trigger] ks.contains(i) <==> exists|k: int| 0 <= k < order.len() && order[k].0 == i
    } else {
        order.map_values(|p: (usize, usize)| p.0 as int) == ks
    }
}

/// The lines for `order`, or nothing when a text would be cut inside a
/// character.
pub open spec fn list_rows(ns: Seq<Node>, order: Seq<(usize, usize)>) -> Option<Seq<Seq<char>>> {
    if forall|k: int| 0 <= k < order.len() ==> truncatable(#[trigger] ns[order[k].0 as int].text@, 80) {
        Some(order.map_values(|p: (usize, usize)| node_line(ns[p.0 as int])))
    } else {
        None
    }
}

/// The number of nodes that depend on `id` (see `dependent_count`).
pub fn dependents_count(js: &Vec<Justification>, id: &str) -> (r: usize)
    ensures
        r == dependent_count(js@, id@),
{
    let mut seen: Vec<String> = Vec::new();
    let mut k: usize = 0;
    while k < js.len()
        invariant
            k <= js@.len(),
            views(seen@) == dedup(mentioners(js@.take(k as int), id@)),
        decreases js@.len() - k,
    {
        let ghost before = views(seen@);
        assert(js@.take(k + 1).drop_last() =~= js@.take(k as int));
        assert(js@.take(k + 1).last() == js@[k as int]);
        let j = &js[k];
        if contains_str(&j.antecedents, id) || contains_str(&j.outlist, id) {
            let ghost m = mentioners(js@.take(k as int), id@);
            assert(mentioners(js@.take(k + 1), id@) == m.push(j.node_id@));
            assert(m.push(j.node_id@).drop_last() =~= m);
            if !contains_str(&seen, j.node_id.as_str()) {
                seen.push(j.node_id.clone());
                assert(views(seen@) =~= before.push(j.node_id@));
            }
        }
        k = k + 1;
    }
    assert(js@.take(js@.len() as int) =~= js@);
    seen.len()
}

/// Some justification belongs to `id`.
pub fn has_justifications(js: &Vec<Justification>, id: &str) -> (r: bool)
    ensures
        r == owners(js@).contains(id@),
{
    let ghost ids = js@.map_values(|j: Justification| j.node_id@);
    let mut k: usize = 0;
    while k < js.len()
        invariant
            k <= js@.len(),
            ids == js@.map_values(|j: Justification| j.node_id@),
            !ids.take(k as int).contains(id@),
        decreases js@.len() - k,
    {
        if str_eq(js[k].node_id.as_str(), id) {
            proof {
                assert(ids[k as int] == id@);
                crate::query::lemma_dedup_contains(ids, id@);
            }
            return true;
        }
        assert(ids.take(k + 1) =~= ids.take(k as int).push(ids[k as int]));
        proof {
            crate::model::lemma_push_contains(ids.take(k as int), ids[k as int], id@);
        }
        k = k + 1;
    }
    assert(ids.take(js@.len() as int) =~= ids);
    proof {
        crate::query::lemma_dedup_contains(ids, id@);
    }
    false
}

} // verus!

verus! {

/// Insert `e`, whose position comes after all others, keeping the order by
/// impact.
fn insert_by_impact(s: &mut Vec<(usize, usize)>, e: (usize, usize))
    requires
        impact_sorted(old(s)@),
        forall|k: int| 0 <= k < old(s)@.len() ==> (#[trigger] old(s)@[k]).0 < e.0,
    ensures
        impact_sorted(final(s)@),
        final(s)@.len() == old(s)@.len() + 1,
        forall|x: (usize, usize)| #[trigger] final(s)@.contains(x) <==> old(s)@.contains(x) || x == e,
{
    let mut p: usize = 0;
    while p < s.len() && s[p].1 >= e.1
        invariant
            p <= s@.len(),
            s@ == old(s)@,
            forall|q: int| 0 <= q < p ==> (#[trigger] s@[q]).1 >= e.1,
        decreases s@.len() - p,
    {
        p = p + 1;
    }
    let ghost before = s@;
    s.insert(p, e);
    proof {
        assert(s@ == before.insert(p as int, e));
        assert forall|i: int, j: int| 0 <= i < j < s@.len() implies before_by_impact(s@[i], s@[j]) by {
            if j < p {
                assert(s@[i] == before[i] && s@[j] == before[j]);
            } else if j == p {
                assert(s@[i] == before[i]);
            } else if i == p {
                assert(s@[j] == before[j - 1]);
                assert(before[p as int].1 < e.1);
                if j - 1 > p {
                    assert(before_by_impact(before[p as int], before[j - 1]));
                }
            } else if i < p {
                assert(s@[i] == before[i] && s@[j] == before[j - 1]);
            } else {
                assert(s@[i] == before[i - 1] && s@[j] == before[j - 1]);
            }
        }
        assert forall|x: (usize, usize)| #[trigger] s@.contains(x) <==> before.contains(x) || x == e by {
            if s@.contains(x) {
                let k = choose|k: int| 0 <= k < s@.len() && s@[k] == x;
                if k < p {
                    assert(before[k] == x);
                } else if k > p {
                    assert(before[k - 1] == x);
                }
            }
            if before.contains(x) {
                let k = choose|k: int| 0 <= k < before.len() && before[k] == x;
                if k < p {
                    assert(s@[k] == x);
                } else {
                    assert(s@[k + 1] == x);
                }
            }
            if x == e {
                assert(s@[p as int] == e);
            }
        }
    }
}

/// The lines `list` prints: the nodes that pass the filters, in their
/// order or by impact (see `list_order`); refused when a text would be cut
/// inside a character.
pub fn list_lines(
    nodes: &Vec<Node>,
    justs: &Vec<Justification>,
    status: Option<&str>,
    premises: bool,
    has_dependents: bool,
    by_impact: bool,
) -> (r: Result<Vec<String>, TmsError>)
    ensures
        exists|order: Seq<(usize, usize)>|
            #![trigger list_rows(nodes@, order)]
            list_order(nodes@, justs@, status, premises, has_dependents, by_impact, order) && match list_rows(
                nodes@,
                order,
            ) {
                Some(ls) => r matches Ok(v) && views(v@) == ls,
                None => r matches Err(TmsError::CutInsideChar),
            },
{
    let mut order: Vec<(usize, usize)> = Vec::new();
    let mut k: usize = 0;
    while k < nodes.len()
        invariant
            k <= nodes@.len(),
            forall|m: int|
                0 <= m < order@.len() ==> (#[trigger] order@[m]).0 < k && order@[m].1 == dependent_count(
                    justs@,
                    nodes@[order@[m].0 as int].id@,
                ),
            by_impact ==> {
                &&& impact_sorted(order@)
                &&& order@.len() == kept(nodes@.take(k as int), justs@, status, premises, has_dependents).len()
                &&& forall|i: int|
                    #[trigger] kept(nodes@.take(k as int), justs@, status, premises, has_dependents).contains(i) <==> exists|
                        m: int,
                    | 0 <= m < order@.len() && order@[m].0 == i
            },
            !by_impact ==> order@.map_values(|p: (usize, usize)| p.0 as int) == kept(
                nodes@.take(k as int),
                justs@,
                status,
                premises,
                has_dependents,
            ),
        decreases nodes@.len() - k,
    {
        let n = &nodes[k];
        let c = dependents_count(justs, n.id.as_str());
        let status_ok = match status {
            Some(s) => str_eq(n.truth_value.as_str(), s),
            None => true,
        };
        let pass = status_ok && !(premises && has_justifications(justs, n.id.as_str())) && !(has_dependents && c == 0);
        let ghost ks = kept(nodes@.take(k as int), justs@, status, premises, has_dependents);
        proof {
            assert(nodes@.take(k + 1).drop_last() =~= nodes@.take(k as int));
            assert(nodes@.take(k + 1).last() == nodes@[k as int]);
            assert(pass == list_filter(nodes@[k as int], justs@, status, premises, has_dependents));
        }
        if pass {
            let ghost old_order = order@;
            if by_impact {
                insert_by_impact(&mut order, (k, c));
                proof {
                    let ks2 = kept(nodes@.take(k + 1), justs@, status, premises, has_dependents);
                    assert(ks2 == ks.push(k as int));
                    assert forall|m: int| 0 <= m < order@.len() implies (#[trigger] order@[m]).0 < k + 1 && order@[m].1
                        == dependent_count(justs@, nodes@[order@[m].0 as int].id@) by {
                        assert(order@.contains(order@[m]));
                        if order@[m] != (k, c) {
                            let j = choose|j: int| 0 <= j < old_order.len() && old_order[j] == order@[m];
                        }
                    }
                    assert forall|i: int| #[trigger] ks2.contains(i) <==> exists|m: int|
                        0 <= m < order@.len() && order@[m].0 == i by {
                        crate::model::lemma_push_contains(ks, k as int, i);
                        if ks2.contains(i) {
                            if i == k {
                                assert(order@.contains((k, c)));
                                let m = choose|m: int| 0 <= m < order@.len() && order@[m] == (k, c);
                                assert(order@[m].0 == i);
                            } else {
                                assert(ks.contains(i));
                                let m0 = choose|m0: int| 0 <= m0 < old_order.len() && old_order[m0].0 == i;
                                assert(old_order.contains(old_order[m0]));
                                assert(order@.contains(old_order[m0]));
                                let m = choose|m: int| 0 <= m < order@.len() && order@[m] == old_order[m0];
                                assert(order@[m].0 == i);
                            }
                        }
                        if exists|m: int| 0 <= m < order@.len() && order@[m].0 == i {
                            let m = choose|m: int| 0 <= m < order@.len() && order@[m].0 == i;
                            assert(order@.contains(order@[m]));
                            if order@[m] != (k, c) {
                                let j = choose|j: int| 0 <= j < old_order.len() && old_order[j] == order@[m];
                                assert(ks.contains(i));
                            }
                        }
                    }
                }
            } else {
                order.push((k, c));
                proof {
                    assert(order@.map_values(|p: (usize, usize)| p.0 as int) =~= old_order.map_values(
                        |p: (usize, usize)| p.0 as int,
                    ).push(k as int));
                }
            }
        } else {
            proof {
                assert(kept(nodes@.take(k + 1), justs@, status, premises, has_dependents) == ks);
            }
        }
        k = k + 1;
    }
    assert(nodes@.take(nodes@.len() as int) =~= nodes@);
    assert(list_order(nodes@, justs@, status, premises, has_dependents, by_impact, order@));
    let mut out: Vec<String> = Vec::new();
    let mut m: usize = 0;
    while m < order.len()
        invariant
            m <= order@.len(),
            list_order(nodes@, justs@, status, premises, has_dependents, by_impact, order@),
            forall|q: int| 0 <= q < order@.len() ==> (#[trigger] order@[q]).0 < nodes@.len(),
            forall|q: int| 0 <= q < m ==> truncatable(#[trigger] nodes@[order@[q].0 as int].text@, 80),
            views(out@) == order@.take(m as int).map_values(|p: (usize, usize)| node_line(nodes@[p.0 as int])),
        decreases order@.len() - m,
    {
        let n = &nodes[order[m].0];
        if !can_truncate(n.text.as_str(), 80) {
            proof {
                assert(list_rows(nodes@, order@) is None);
            }
            return Err(TmsError::CutInsideChar);
        }
        let ghost before = views(out@);
        out.push(format_node_line(n));
        proof {
            assert(views(out@) =~= before.push(node_line(nodes@[order@[m as int].0 as int])));
            assert(order@.take(m + 1).map_values(|p: (usize, usize)| node_line(nodes@[p.0 as int])) =~= order@.take(
                m as int,
            ).map_values(|p: (usize, usize)| node_line(nodes@[p.0 as int])).push(node_line(nodes@[order@[m as int].0 as int])));
        }
        m = m + 1;
    }
    proof {
        assert(order@.take(order@.len() as int) =~= order@);
        assert(list_rows(nodes@, order@) == Some(views(out@)));
    }
    Ok(out)
}

} // verus!
