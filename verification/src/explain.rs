//! Why a node is IN or OUT, traced back through the justifications.
use vstd::prelude::*;
use crate::model::{just_valid, lemma_unvisited_le, lemma_unvisited_mono, lemma_unvisited_strict, node_keys, unvisited, TmsView};
use crate::network::Network;
use crate::text::{contains_str, join, join_seq, owned, repeat, repeat_seq, str_eq};
use crate::types::{views, Justification, Node};

verus! {

/// The indentation of a line at `depth`: two spaces per level.
pub open spec fn indent(depth: nat) -> Seq<char> {
    repeat_seq("  "@, depth)
}

/// How a valid justification is described.
pub open spec fn just_desc(j: Justification) -> Seq<char> {
    "Justified by "@ + j.jtype@ + ": "@ + join_seq(views(j.antecedents@), ", "@) + (if j.outlist@.len() > 0 {
        " (unless: "@ + join_seq(views(j.outlist@), ", "@) + ")"@
    } else {
        Seq::empty()
    })
}

/// Why the antecedents fail: each OUT one, and each that names no node.
pub open spec fn ant_reasons(net: Network, ants: Seq<Seq<char>>) -> Seq<Seq<char>>
    decreases ants.len(),
{
    if ants.len() == 0 {
        Seq::empty()
    } else {
        let r = ant_reasons(net, ants.drop_last());
        let a = ants.last();
        match net.node(a) {
            Some(n) => if n.truth_value@ == "OUT"@ {
                r.push(a + " is OUT"@)
            } else {
                r
            },
            None => r.push(a + " not found"@),
        }
    }
}

/// Why the out-list fails: each node in it that is IN.
pub open spec fn out_reasons(net: Network, outs: Seq<Seq<char>>) -> Seq<Seq<char>>
    decreases outs.len(),
{
    if outs.len() == 0 {
        Seq::empty()
    } else {
        let r = out_reasons(net, outs.drop_last());
        let o = outs.last();
        match net.node(o) {
            Some(n) => if n.truth_value@ == "IN"@ {
                r.push(o + " is IN (in outlist)"@)
            } else {
                r
            },
            None => r,
        }
    }
}

/// The line explaining why justification `j` does not hold.
pub open spec fn failure_line(net: Network, j: Justification) -> Seq<char> {
    let rs = ant_reasons(net, views(j.antecedents@)) + out_reasons(net, views(j.outlist@));
    let shown = if rs.len() == 0 {
        seq!["unknown reason"@]
    } else {
        rs
    };
    "  "@ + j.jtype@ + ": "@ + join_seq(views(j.antecedents@), ", "@) + " — "@ + join_seq(shown, "; "@)
}

/// Position of the first justification that holds, or -1.
pub open spec fn first_valid(v: TmsView, js: Seq<Justification>) -> int
    decreases js.len(),
{
    if js.len() == 0 {
        -1
    } else if just_valid(v, js[0].jview()) {
        0
    } else {
        let r = first_valid(v, js.drop_first());
        if r < 0 {
            -1
        } else {
            r + 1
        }
    }
}

pub proof fn lemma_first_valid_at(v: TmsView, js: Seq<Justification>, k: int)
    requires
        0 <= k < js.len(),
        just_valid(v, js[k].jview()),
        forall|m: int| 0 <= m < k ==> !just_valid(v, #[trigger] js[m].jview()),
    ensures
        first_valid(v, js) == k,
    decreases k,
{
    if k > 0 {
        let t = js.drop_first();
        assert forall|m: int| 0 <= m < k - 1 implies !just_valid(v, #[trigger] t[m].jview()) by {
            assert(t[m] == js[m + 1]);
        }
        lemma_first_valid_at(v, t, k - 1);
    }
}

pub proof fn lemma_first_valid_none(v: TmsView, js: Seq<Justification>)
    requires
        forall|m: int| 0 <= m < js.len() ==> !just_valid(v, #[trigger] js[m].jview()),
    ensures
        first_valid(v, js) == -1,
    decreases js.len(),
{
    if js.len() > 0 {
        let t = js.drop_first();
        assert forall|m: int| 0 <= m < t.len() implies !just_valid(v, #[trigger] t[m].jview()) by {
            assert(t[m] == js[m + 1]);
        }
        lemma_first_valid_none(v, t);
    }
}

/// The explanation of `id` at `depth`, given the ids already explained:
/// its lines and the ids explained after it. A node seen before is marked
/// circular; a premise gives its value; an IN node the first justification
/// that holds and, in turn, its antecedents; an OUT node why each of its
/// justifications fails. `fuel` bounds the nesting.
pub open spec fn explain(net: Network, id: Seq<char>, vis: Set<Seq<char>>, depth: nat, fuel: nat) -> (
    Seq<Seq<char>>,
    Set<Seq<char>>,
)
    decreases fuel, 0nat,
{
    if fuel == 0 {
        (Seq::empty(), vis)
    } else if vis.contains(id) {
        (seq![indent(depth) + id + " (circular)"@], vis)
    } else {
        let vis1 = vis.insert(id);
        match net.node(id) {
            None => (seq![indent(depth) + id + " (not found)"@], vis1),
            Some(n) => {
                let js = net.justs_named(id);
                if js.len() == 0 {
                    (seq![indent(depth) + id + " is "@ + n.truth_value@ + " (premise)"@], vis1)
                } else if n.truth_value@ == "IN"@ {
                    let k = first_valid(net.tms(), js);
                    if k >= 0 {
                        let head = seq![
                            indent(depth) + id + " is IN because:"@,
                            indent(depth) + "  "@ + just_desc(js[k]),
                        ];
                        let r = explain_all(net, views(js[k].antecedents@), vis1, depth + 2, (fuel - 1) as nat);
                        (head + r.0, r.1)
                    } else {
                        (Seq::empty(), vis1)
                    }
                } else {
                    (
                        seq![indent(depth) + id + " is OUT because:"@] + js.map_values(
                            |j: Justification| indent(depth) + failure_line(net, j),
                        ),
                        vis1,
                    )
                }
            },
        }
    }
}

/// The explanations of `ids` in turn.
pub open spec fn explain_all(net: Network, ids: Seq<Seq<char>>, vis: Set<Seq<char>>, depth: nat, fuel: nat) -> (
    Seq<Seq<char>>,
    Set<Seq<char>>,
)
    decreases fuel, ids.len(),
{
    if ids.len() == 0 {
        (Seq::empty(), vis)
    } else {
        let r1 = explain(net, ids[0], vis, depth, fuel);
        let r2 = explain_all(net, ids.drop_first(), r1.1, depth, fuel);
        (r1.0 + r2.0, r2.1)
    }
}

} // verus!

verus! {

impl Network {
    fn failure_text(&self, j: &Justification) -> (r: String)
        ensures
            r@ == failure_line(*self, *j),
    {
        let mut reasons: Vec<String> = Vec::new();
        let mut k: usize = 0;
        while k < j.antecedents.len()
            invariant
                k <= j.antecedents@.len(),
                views(reasons@) == ant_reasons(*self, views(j.antecedents@).take(k as int)),
            decreases j.antecedents@.len() - k,
        {
            let a = &j.antecedents[k];
            assert(views(j.antecedents@).take(k + 1).drop_last() =~= views(j.antecedents@).take(k as int));
            assert(views(j.antecedents@).take(k + 1).last() == a@);
            let ghost before = views(reasons@);
            match self.node_index(a.as_str()) {
                Some(i) => {
                    if str_eq(self.nodes[i].truth_value.as_str(), "OUT") {
                        let mut s = a.clone();
                        s.append(" is OUT");
                        reasons.push(s);
                        assert(views(reasons@) =~= before.push(a@ + " is OUT"@));
                    }
                },
                None => {
                    let mut s = a.clone();
                    s.append(" not found");
                    reasons.push(s);
                    assert(views(reasons@) =~= before.push(a@ + " not found"@));
                },
            }
            k = k + 1;
        }
        assert(views(j.antecedents@).take(j.antecedents@.len() as int) =~= views(j.antecedents@));
        let ghost ar = views(reasons@);
        let mut k: usize = 0;
        assert(ar + out_reasons(*self, views(j.outlist@).take(0)) =~= ar);
        while k < j.outlist.len()
            invariant
                k <= j.outlist@.len(),
                views(reasons@) == ar + out_reasons(*self, views(j.outlist@).take(k as int)),
            decreases j.outlist@.len() - k,
        {
            let o = &j.outlist[k];
            assert(views(j.outlist@).take(k + 1).drop_last() =~= views(j.outlist@).take(k as int));
            assert(views(j.outlist@).take(k + 1).last() == o@);
            let ghost before = views(reasons@);
            match self.node_index(o.as_str()) {
                Some(i) => {
                    if str_eq(self.nodes[i].truth_value.as_str(), "IN") {
                        let mut s = o.clone();
                        s.append(" is IN (in outlist)");
                        reasons.push(s);
                        assert(views(reasons@) =~= before.push(o@ + " is IN (in outlist)"@));
                    }
                },
                None => {},
            }
            k = k + 1;
        }
        assert(views(j.outlist@).take(j.outlist@.len() as int) =~= views(j.outlist@));
        if reasons.len() == 0 {
            reasons.push(owned("unknown reason"));
            assert(views(reasons@) =~= seq!["unknown reason"@]);
        }
        let mut r = owned("  ");
        r.append(j.jtype.as_str());
        r.append(": ");
        let ants = join(&j.antecedents, ", ");
        r.append(ants.as_str());
        r.append(" — ");
        let rs = join(&reasons, "; ");
        r.append(rs.as_str());
        r
    }

    fn desc_text(j: &Justification) -> (r: String)
        ensures
            r@ == just_desc(*j),
    {
        let mut r = owned("Justified by ");
        r.append(j.jtype.as_str());
        r.append(": ");
        let ants = join(&j.antecedents, ", ");
        r.append(ants.as_str());
        if j.outlist.len() > 0 {
            r.append(" (unless: ");
            let outs = join(&j.outlist, ", ");
            r.append(outs.as_str());
            r.append(")");
        } else {
            assert(r@ + Seq::<char>::empty() =~= r@);
        }
        r
    }
}

} // verus!

verus! {

impl Network {
    fn explain_rec(
        &self,
        id: &String,
        visited: &mut Vec<String>,
        depth: usize,
        out: &mut Vec<String>,
        Ghost(fuel): Ghost<nat>,
    )
        requires
            fuel > unvisited(node_keys(self.tms()), views(old(visited)@).to_set()),
            depth + 2 * fuel <= 2 * (self.nodes@.len() + 1),
            2 * (self.nodes@.len() + 1) <= usize::MAX,
        ensures
            ({
                let r = explain(*self, id@, views(old(visited)@).to_set(), depth as nat, fuel);
                &&& views(final(out)@) == views(old(out)@) + r.0
                &&& views(final(visited)@).to_set() == r.1
            }),
            views(old(visited)@).to_set().subset_of(views(final(visited)@).to_set()),
        decreases fuel,
    {
        let ghost vis0 = views(visited@).to_set();
        let ghost out0 = views(out@);
        let ind = repeat("  ", depth);
        if contains_str(visited, id.as_str()) {
            let mut l = ind;
            l.append(id.as_str());
            l.append(" (circular)");
            out.push(l);
            proof {
                assert(views(visited@).contains(id@));
                assert(views(out@) =~= out0 + seq![indent(depth as nat) + id@ + " (circular)"@]);
            }
            return;
        }
        visited.push(id.clone());
        let ghost vis1 = vis0.insert(id@);
        proof {
            let vb = views(old(visited)@);
            assert(views(visited@) =~= vb.push(id@));
            assert forall|y: Seq<char>| #[trigger] views(visited@).contains(y) <==> vb.contains(y) || y == id@ by {
                crate::model::lemma_push_contains(vb, id@, y);
            }
            assert(views(visited@).to_set() =~= vis1);
        }
        let i = match self.node_index(id.as_str()) {
            Some(i) => i,
            None => {
                let mut l = ind;
                l.append(id.as_str());
                l.append(" (not found)");
                out.push(l);
                proof {
                    assert(views(out@) =~= out0 + seq![indent(depth as nat) + id@ + " (not found)"@]);
                }
                return;
            },
        };
        proof {
            self.lemma_tms_keys();
            crate::model::lemma_first_index(node_keys(self.tms()), id@);
            assert(self.node(id@) == Some(self.nodes@[i as int]));
        }
        let n = &self.nodes[i];
        let g = self.group_index(id.as_str());
        let ghost js = self.justs_named(id@);
        let js_len = match g {
            Some(g) => self.justifications[g].justs.len(),
            None => 0,
        };
        assert(js_len == js.len());
        if js_len == 0 {
            let mut l = ind;
            l.append(id.as_str());
            l.append(" is ");
            l.append(n.truth_value.as_str());
            l.append(" (premise)");
            out.push(l);
            proof {
                assert(views(out@) =~= out0 + seq![indent(depth as nat) + id@ + " is "@ + n.truth_value@ + " (premise)"@]);
            }
            return;
        }
        let g = match g {
            Some(g) => g,
            None => {
                return;
            },
        };
        if str_eq(n.truth_value.as_str(), "IN") {
            let mut k: usize = 0;
            let mut found: Option<usize> = None;
            while k < js_len
                invariant_except_break
                    k <= js_len,
                    js_len == js.len(),
                    g < self.justifications@.len(),
                    js == self.justifications@[g as int].justs@,
                    forall|m: int| 0 <= m < k ==> !just_valid(self.tms(), #[trigger] js[m].jview()),
                    found is None,
                ensures
                    match found {
                        Some(f) => f < js.len() && first_valid(self.tms(), js) == f,
                        None => forall|m: int| 0 <= m < js.len() ==> !just_valid(self.tms(), #[trigger] js[m].jview()),
                    },
                decreases js_len - k,
            {
                assert(self.justifications@[g as int].justs@[k as int] == js[k as int]);
                if self.justification_valid(&self.justifications[g].justs[k]) {
                    proof {
                        lemma_first_valid_at(self.tms(), js, k as int);
                    }
                    found = Some(k);
                    break;
                }
                k = k + 1;
            }
            if found.is_none() {
                proof {
                    lemma_first_valid_none(self.tms(), js);
                }
            }
            match found {
                Some(k) => {
                    let j = &self.justifications[g].justs[k];
                    let mut l1 = repeat("  ", depth);
                    l1.append(id.as_str());
                    l1.append(" is IN because:");
                    out.push(l1);
                    let mut l2 = repeat("  ", depth);
                    l2.append("  ");
                    let d = Self::desc_text(j);
                    l2.append(d.as_str());
                    out.push(l2);
                    let ghost base = views(out@);
                    proof {
                        assert(base =~= out0 + seq![
                            indent(depth as nat) + id@ + " is IN because:"@,
                            indent(depth as nat) + "  "@ + just_desc(js[k as int]),
                        ]);
                    }
                    let ghost ants = views(j.antecedents@);
                    let ghost d2 = (depth + 2) as nat;
                    let ghost f1 = (fuel - 1) as nat;
                    let ghost total = explain_all(*self, ants, vis1, d2, f1);
                    proof {
                        let u = node_keys(self.tms());
                        assert(u[i as int] == id@);
                        assert(u.contains(id@));
                        assert(vis0.subset_of(vis1));
                        lemma_unvisited_strict(u, vis0, vis1, id@);
                        assert(ants.skip(0) =~= ants);
                    }
                    let mut a: usize = 0;
                    while a < j.antecedents.len()
                        invariant
                            a <= j.antecedents@.len(),
                            ants == views(j.antecedents@),
                            vis1.subset_of(views(visited@).to_set()),
                            unvisited(node_keys(self.tms()), vis1) < unvisited(node_keys(self.tms()), vis0),
                            fuel > unvisited(node_keys(self.tms()), vis0),
                            depth + 2 * fuel <= 2 * (self.nodes@.len() + 1),
                            2 * (self.nodes@.len() + 1) <= usize::MAX,
                            d2 == depth + 2,
                            f1 == fuel - 1,
                            explain_all(*self, ants.skip(a as int), views(visited@).to_set(), d2, f1).1 == total.1,
                            base + total.0 == views(out@) + explain_all(
                                *self,
                                ants.skip(a as int),
                                views(visited@).to_set(),
                                d2,
                                f1,
                            ).0,
                        decreases j.antecedents@.len() - a,
                    {
                        let ghost cur = views(visited@).to_set();
                        let ghost before = views(out@);
                        proof {
                            lemma_unvisited_mono(node_keys(self.tms()), vis1, cur);
                            assert(ants.skip(a as int)[0] == ants[a as int]);
                            assert(ants.skip(a as int).drop_first() =~= ants.skip(a + 1));
                        }
                        self.explain_rec(&j.antecedents[a], visited, depth + 2, out, Ghost(f1));
                        proof {
                            let r1 = explain(*self, ants[a as int], cur, d2, f1);
                            let r2 = explain_all(*self, ants.skip(a + 1), r1.1, d2, f1);
                            assert(views(out@) + r2.0 =~= before + (r1.0 + r2.0));
                        }
                        a = a + 1;
                    }
                    proof {
                        assert(ants.skip(j.antecedents@.len() as int) =~= Seq::<Seq<char>>::empty());
                        assert(views(out@) =~= out0 + (seq![
                            indent(depth as nat) + id@ + " is IN because:"@,
                            indent(depth as nat) + "  "@ + just_desc(js[k as int]),
                        ] + total.0));
                    }
                },
                None => {},
            }
        } else {
            let mut l = repeat("  ", depth);
            l.append(id.as_str());
            l.append(" is OUT because:");
            out.push(l);
            let ghost base = views(out@);
            let mut k: usize = 0;
            while k < js_len
                invariant
                    k <= js_len,
                    js_len == js.len(),
                    g < self.justifications@.len(),
                    js == self.justifications@[g as int].justs@,
                    views(out@) == base + js.take(k as int).map_values(
                        |j: Justification| indent(depth as nat) + failure_line(*self, j),
                    ),
                decreases js_len - k,
            {
                let mut l = repeat("  ", depth);
                let f = self.failure_text(&self.justifications[g].justs[k]);
                l.append(f.as_str());
                let ghost before = views(out@);
                out.push(l);
                proof {
                    assert(js.take(k + 1).map_values(|j: Justification| indent(depth as nat) + failure_line(*self, j))
                        =~= js.take(k as int).map_values(|j: Justification| indent(depth as nat) + failure_line(*self, j)).push(
                        indent(depth as nat) + failure_line(*self, js[k as int]),
                    ));
                    assert(views(out@) =~= before.push(indent(depth as nat) + failure_line(*self, js[k as int])));
                }
                k = k + 1;
            }
            proof {
                assert(js.take(js.len() as int) =~= js);
                assert(views(out@) =~= out0 + (seq![indent(depth as nat) + id@ + " is OUT because:"@] + js.map_values(
                    |j: Justification| indent(depth as nat) + failure_line(*self, j),
                )));
            }
        }
    }

    /// Why `node_id` is IN or OUT, line by line (see `explain`); nothing
    /// when the node does not exist.
    pub fn explain_lines(&self, node_id: &str) -> (r: Option<Vec<String>>)
        requires
            2 * (self.nodes@.len() + 1) <= usize::MAX,
        ensures
            match r {
                None => self.node(node_id@) is None,
                Some(ls) => self.node(node_id@) is Some && views(ls@) == explain(
                    *self,
                    node_id@,
                    Set::empty(),
                    0,
                    (self.nodes@.len() + 1) as nat,
                ).0,
            },
    {
        if self.node_index(node_id).is_none() {
            return None;
        }
        let mut visited: Vec<String> = Vec::new();
        let mut out: Vec<String> = Vec::new();
        let id = owned(node_id);
        proof {
            self.lemma_tms_keys();
            lemma_unvisited_le(node_keys(self.tms()), Set::empty());
            assert(views(visited@).to_set() =~= Set::<Seq<char>>::empty());
            assert(views(out@) =~= Seq::<Seq<char>>::empty());
        }
        self.explain_rec(&id, &mut visited, 0, &mut out, Ghost((self.nodes@.len() + 1) as nat));
        Some(out)
    }
}

} // verus!

verus! {

/// An IN node of the out-list is named in the out-list reasons.
proof fn lemma_out_reason(net: Network, outs: Seq<Seq<char>>, k: int)
    requires
        0 <= k < outs.len(),
        net.node(outs[k]) is Some,
        net.node(outs[k])->0.truth_value@ == "IN"@,
    ensures
        out_reasons(net, outs).contains(outs[k] + " is IN (in outlist)"@),
    decreases outs.len(),
{
    let r = out_reasons(net, outs.drop_last());
    if k == outs.len() - 1 {
        assert(out_reasons(net, outs) == r.push(outs[k] + " is IN (in outlist)"@));
        assert(out_reasons(net, outs)[r.len() as int] == outs[k] + " is IN (in outlist)"@);
    } else {
        assert(outs.drop_last()[k] == outs[k]);
        lemma_out_reason(net, outs.drop_last(), k);
        let m = choose|m: int| 0 <= m < r.len() && r[m] == outs[k] + " is IN (in outlist)"@;
        assert(out_reasons(net, outs)[m] == r[m]);
    }
}

/// An OUT or absent antecedent is named in the antecedent reasons.
proof fn lemma_ant_reason(net: Network, ants: Seq<Seq<char>>, k: int)
    requires
        0 <= k < ants.len(),
    ensures
        net.node(ants[k]) is None ==> ant_reasons(net, ants).contains(ants[k] + " not found"@),
        net.node(ants[k]) is Some && net.node(ants[k])->0.truth_value@ == "OUT"@ ==> ant_reasons(net, ants).contains(
            ants[k] + " is OUT"@,
        ),
    decreases ants.len(),
{
    let r = ant_reasons(net, ants.drop_last());
    if k == ants.len() - 1 {
        if net.node(ants[k]) is None {
            assert(ant_reasons(net, ants)[r.len() as int] == ants[k] + " not found"@);
        } else if net.node(ants[k])->0.truth_value@ == "OUT"@ {
            assert(ant_reasons(net, ants)[r.len() as int] == ants[k] + " is OUT"@);
        }
    } else {
        assert(ants.drop_last()[k] == ants[k]);
        lemma_ant_reason(net, ants.drop_last(), k);
        if net.node(ants[k]) is None {
            let m = choose|m: int| 0 <= m < r.len() && r[m] == ants[k] + " not found"@;
            assert(ant_reasons(net, ants)[m] == r[m]);
        } else if net.node(ants[k])->0.truth_value@ == "OUT"@ {
            let m = choose|m: int| 0 <= m < r.len() && r[m] == ants[k] + " is OUT"@;
            assert(ant_reasons(net, ants)[m] == r[m]);
        }
    }
}

/// With every antecedent present and not OUT there is no antecedent
/// reason.
proof fn lemma_no_ant_reason(net: Network, ants: Seq<Seq<char>>)
    requires
        forall|k: int| 0 <= k < ants.len() ==> net.node(#[trigger] ants[k]) is Some && net.node(ants[k])->0.truth_value@ != "OUT"@,
    ensures
        ant_reasons(net, ants).len() == 0,
    decreases ants.len(),
{
    if ants.len() > 0 {
        assert forall|k: int| 0 <= k < ants.drop_last().len() implies net.node(#[trigger] ants.drop_last()[k]) is Some
            && net.node(ants.drop_last()[k])->0.truth_value@ != "OUT"@ by {
            assert(ants.drop_last()[k] == ants[k]);
        }
        lemma_no_ant_reason(net, ants.drop_last());
        assert(ants.last() == ants[ants.len() - 1]);
    }
}

/// With no out-list node present and IN there is no out-list reason.
proof fn lemma_no_out_reason(net: Network, outs: Seq<Seq<char>>)
    requires
        forall|k: int| 0 <= k < outs.len() ==> !(net.node(#[trigger] outs[k]) is Some && net.node(outs[k])->0.truth_value@
            == "IN"@),
    ensures
        out_reasons(net, outs).len() == 0,
    decreases outs.len(),
{
    if outs.len() > 0 {
        assert forall|k: int| 0 <= k < outs.drop_last().len() implies !(net.node(#[trigger] outs.drop_last()[k]) is Some
            && net.node(outs.drop_last()[k])->0.truth_value@ == "IN"@) by {
            assert(outs.drop_last()[k] == outs[k]);
        }
        lemma_no_out_reason(net, outs.drop_last());
        assert(outs.last() == outs[outs.len() - 1]);
    }
}

/// The line explaining a failing justification names what fails: it is
/// the type, the antecedents and then reasons, among which every out-list
/// node that is IN (`x is IN (in outlist)`), every antecedent that is OUT
/// (`a is OUT`) and every one that names no node (`a not found`); the only
/// reason is `unknown reason` when every antecedent is present and not OUT
/// and no out-list node is present and IN.
pub proof fn law_failure_line_names_failures(net: Network, j: Justification)
    ensures
        exists|rs: Seq<Seq<char>>|
            {
                &&& failure_line(net, j) == "  "@ + j.jtype@ + ": "@ + join_seq(views(j.antecedents@), ", "@) + " — "@
                    + join_seq(rs, "; "@)
                &&& forall|k: int|
                    0 <= k < j.outlist@.len() && net.node(#[trigger] j.outlist@[k]@) is Some && net.node(
                        j.outlist@[k]@,
                    )->0.truth_value@ == "IN"@ ==> rs.contains(j.outlist@[k]@ + " is IN (in outlist)"@)
                &&& forall|k: int|
                    0 <= k < j.antecedents@.len() && net.node(#[trigger] j.antecedents@[k]@) is None ==> rs.contains(
                        j.antecedents@[k]@ + " not found"@,
                    )
                &&& forall|k: int|
                    0 <= k < j.antecedents@.len() && net.node(#[trigger] j.antecedents@[k]@) is Some && net.node(
                        j.antecedents@[k]@,
                    )->0.truth_value@ == "OUT"@ ==> rs.contains(j.antecedents@[k]@ + " is OUT"@)
                &&& (forall|k: int|
                    0 <= k < j.antecedents@.len() ==> net.node(#[trigger] j.antecedents@[k]@) is Some && net.node(
                        j.antecedents@[k]@,
                    )->0.truth_value@ != "OUT"@) && (forall|k: int|
                    0 <= k < j.outlist@.len() ==> !(net.node(#[trigger] j.outlist@[k]@) is Some && net.node(
                        j.outlist@[k]@,
                    )->0.truth_value@ == "IN"@)) ==> rs == seq!["unknown reason"@]
            },
{
    let ants = views(j.antecedents@);
    let outs = views(j.outlist@);
    let ar = ant_reasons(net, ants);
    let or = out_reasons(net, outs);
    let rs0 = ar + or;
    let rs = if rs0.len() == 0 {
        seq!["unknown reason"@]
    } else {
        rs0
    };
    assert forall|k: int|
        0 <= k < j.outlist@.len() && net.node(#[trigger] j.outlist@[k]@) is Some && net.node(j.outlist@[k]@)->0.truth_value@
            == "IN"@ implies rs.contains(j.outlist@[k]@ + " is IN (in outlist)"@) by {
        assert(outs[k] == j.outlist@[k]@);
        lemma_out_reason(net, outs, k);
        let m = choose|m: int| 0 <= m < or.len() && or[m] == outs[k] + " is IN (in outlist)"@;
        assert(rs0[ar.len() + m] == or[m]);
    }
    assert forall|k: int|
        0 <= k < j.antecedents@.len() && net.node(#[trigger] j.antecedents@[k]@) is None implies rs.contains(
            j.antecedents@[k]@ + " not found"@,
        ) by {
        assert(ants[k] == j.antecedents@[k]@);
        lemma_ant_reason(net, ants, k);
        let m = choose|m: int| 0 <= m < ar.len() && ar[m] == ants[k] + " not found"@;
        assert(rs0[m] == ar[m]);
    }
    assert forall|k: int|
        0 <= k < j.antecedents@.len() && net.node(#[trigger] j.antecedents@[k]@) is Some && net.node(
            j.antecedents@[k]@,
        )->0.truth_value@ == "OUT"@ implies rs.contains(j.antecedents@[k]@ + " is OUT"@) by {
        assert(ants[k] == j.antecedents@[k]@);
        lemma_ant_reason(net, ants, k);
        let m = choose|m: int| 0 <= m < ar.len() && ar[m] == ants[k] + " is OUT"@;
        assert(rs0[m] == ar[m]);
    }
    if (forall|k: int|
        0 <= k < j.antecedents@.len() ==> net.node(#[trigger] j.antecedents@[k]@) is Some && net.node(
            j.antecedents@[k]@,
        )->0.truth_value@ != "OUT"@) && (forall|k: int|
        0 <= k < j.outlist@.len() ==> !(net.node(#[trigger] j.outlist@[k]@) is Some && net.node(
            j.outlist@[k]@,
        )->0.truth_value@ == "IN"@)) {
        assert forall|k: int| 0 <= k < ants.len() implies net.node(#[trigger] ants[k]) is Some && net.node(ants[k])->0.truth_value@
            != "OUT"@ by {
            assert(ants[k] == j.antecedents@[k]@);
        }
        assert forall|k: int| 0 <= k < outs.len() implies !(net.node(#[trigger] outs[k]) is Some && net.node(outs[k])->0.truth_value@
            == "IN"@) by {
            assert(outs[k] == j.outlist@[k]@);
        }
        lemma_no_ant_reason(net, ants);
        lemma_no_out_reason(net, outs);
    }
    assert(failure_line(net, j) == "  "@ + j.jtype@ + ": "@ + join_seq(ants, ", "@) + " — "@ + join_seq(rs, "; "@));
}

} // verus!
