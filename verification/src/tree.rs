//! A node's antecedents or dependents drawn as a tree.
use vstd::prelude::*;
use crate::export::{ants_of, dedup};
use crate::format::{can_truncate, truncate, truncatable, truncated};
use crate::model::{deps_of, lemma_unvisited_le, lemma_unvisited_mono, lemma_unvisited_strict, node_keys, unvisited};
use crate::network::Network;
use crate::text::{contains_str, owned, repeat, repeat_seq, str_eq};
use crate::types::{views, TmsError};

verus! {

/// The prefix of the rows at `depth` below the top level.
pub open spec fn prefix_of(depth: nat) -> Seq<char> {
    repeat_seq("│   "@, depth)
}

/// The prefix of the rows at `depth`: one bar per level above.
pub fn build_prefix(depth: usize, _is_last: bool) -> (r: String)
    ensures
        r@ == prefix_of(depth as nat),
{
    repeat("│   ", depth)
}

/// ` (premise)` for a node without justifications.
pub open spec fn premise_tag(net: Network, id: Seq<char>) -> Seq<char> {
    if net.justs_named(id).len() == 0 {
        " (premise)"@
    } else {
        Seq::empty()
    }
}

/// The next level of the tree below `id`: the antecedents of its
/// justifications (each once) going up, its dependents going down.
pub open spec fn next_level(net: Network, id: Seq<char>, up: bool) -> Seq<Seq<char>> {
    if up {
        dedup(ants_of(net.justs_named(id)))
    } else {
        deps_of(net.tms(), id)
    }
}

/// The connector before a row.
pub open spec fn connector(last: bool) -> Seq<char> {
    if last {
        "└── "@
    } else {
        "├── "@
    }
}

/// What continues a row's prefix for the rows below it.
pub open spec fn continuation(last: bool) -> Seq<char> {
    if last {
        "    "@
    } else {
        "│   "@
    }
}

/// `d` followed by the rows of `o`, if there are any.
pub open spec fn prepend(d: Seq<Seq<char>>, o: Option<Seq<Seq<char>>>) -> Option<Seq<Seq<char>>> {
    match o {
        Some(r) => Some(d + r),
        None => None,
    }
}

/// The rows for `children` at `depth` (none below `max`), with the ids on
/// the path `vis` marked circular; nothing when a text would be cut inside
/// a character. `fuel` bounds the nesting.
pub open spec fn subtree(
    net: Network,
    cs: Seq<Seq<char>>,
    up: bool,
    depth: nat,
    max: Option<usize>,
    vis: Seq<Seq<char>>,
    prefix: Seq<char>,
    fuel: nat,
) -> Option<Seq<Seq<char>>>
    decreases fuel, cs.len() + 1,
{
    if fuel == 0 {
        Some(Seq::empty())
    } else if (match max {
        Some(m) => depth > m,
        None => false,
    }) {
        Some(Seq::empty())
    } else {
        rows(net, cs, 0, up, depth, max, vis, prefix, fuel)
    }
}

/// The rows for `cs[i..]`.
pub open spec fn rows(
    net: Network,
    cs: Seq<Seq<char>>,
    i: nat,
    up: bool,
    depth: nat,
    max: Option<usize>,
    vis: Seq<Seq<char>>,
    prefix: Seq<char>,
    fuel: nat,
) -> Option<Seq<Seq<char>>>
    decreases fuel, cs.len() - i,
{
    if i >= cs.len() || fuel == 0 {
        Some(Seq::empty())
    } else {
        let c = cs[i as int];
        let last = i + 1 == cs.len();
        let conn = connector(last);
        let here: Option<Seq<Seq<char>>> = if vis.contains(c) {
            Some(seq![prefix + conn + c + " (circular)"@])
        } else {
            match net.node(c) {
                None => Some(Seq::empty()),
                Some(n) => if !truncatable(n.text@, 60) {
                    None
                } else {
                    let line = prefix + conn + c + " ["@ + n.truth_value@ + "]: "@ + truncated(n.text@, 60)
                        + premise_tag(net, c);
                    let gc = next_level(net, c, up);
                    if gc.len() > 0 {
                        prepend(
                            seq![line],
                            subtree(net, gc, up, depth + 1, max, vis.push(c), prefix + continuation(last), (fuel - 1) as nat),
                        )
                    } else {
                        Some(seq![line])
                    }
                },
            }
        };
        match here {
            None => None,
            Some(h) => prepend(h, rows(net, cs, i + 1, up, depth, max, vis, prefix, fuel)),
        }
    }
}

} // verus!

verus! {

impl Network {
    /// The antecedents of `id`'s justifications, each once, in order.
    pub fn antecedents_of(&self, id: &str) -> (r: Vec<String>)
        ensures
            views(r@) == dedup(ants_of(self.justs_named(id@))),
    {
        let mut seen: Vec<String> = Vec::new();
        proof {
            self.lemma_tms_keys();
        }
        match self.group_index(id) {
            Some(g) => {
                let ghost js = self.justifications@[g as int].justs@;
                assert(js == self.justs_named(id@));
                let mut k: usize = 0;
                assert(views(seen@) =~= dedup(ants_of(js.take(0))));
                while k < self.justifications[g].justs.len()
                    invariant
                        g < self.justifications@.len(),
                        js == self.justifications@[g as int].justs@,
                        k <= js.len(),
                        views(seen@) == dedup(ants_of(js.take(k as int))),
                    decreases js.len() - k,
                {
                    assert(js.take(k + 1).drop_last() =~= js.take(k as int));
                    assert(js.take(k + 1).last() == js[k as int]);
                    crate::export::add_unseen(&mut seen, &self.justifications[g].justs[k].antecedents);
                    k = k + 1;
                }
                assert(js.take(js.len() as int) =~= js);
            },
            None => {
                assert(self.justs_named(id@) =~= Seq::<crate::types::Justification>::empty());
                assert(views(seen@) =~= dedup(ants_of(Seq::empty())));
            },
        }
        seen
    }

    /// The recorded dependents of `id`, in order.
    pub fn dependents_of(&self, id: &str) -> (r: Vec<String>)
        ensures
            views(r@) == deps_of(self.tms(), id@),
    {
        proof {
            self.lemma_tms_keys();
        }
        match self.dep_index(id) {
            Some(d) => crate::text::copy_strings(&self.dependents[d].dependents),
            None => {
                let v: Vec<String> = Vec::new();
                assert(views(v@) =~= deps_of(self.tms(), id@));
                v
            },
        }
    }

    fn next_level_of(&self, id: &str, up: bool) -> (r: Vec<String>)
        ensures
            views(r@) == next_level(*self, id@, up),
    {
        if up {
            self.antecedents_of(id)
        } else {
            self.dependents_of(id)
        }
    }

    #[verifier::spinoff_prover]
    #[verifier::rlimit(60)]
    fn subtree_rec(
        &self,
        cs: &Vec<String>,
        up: bool,
        depth: usize,
        max: Option<usize>,
        visited: &mut Vec<String>,
        prefix: &String,
        out: &mut Vec<String>,
        Ghost(fuel): Ghost<nat>,
    ) -> (ok: bool)
        requires
            fuel > unvisited(node_keys(self.tms()), views(old(visited)@).to_set()),
            depth + fuel <= self.nodes@.len() + 2,
            self.nodes@.len() + 2 <= usize::MAX,
        ensures
            final(visited)@ == old(visited)@,
            match subtree(*self, views(cs@), up, depth as nat, max, views(old(visited)@), prefix@, fuel) {
                Some(ls) => ok && views(final(out)@) == views(old(out)@) + ls,
                None => !ok,
            },
        decreases fuel,
    {
        let ghost cv = views(cs@);
        let ghost vis = views(visited@);
        let ghost base = views(out@);
        match max {
            Some(m) => {
                if depth > m {
                    assert(views(out@) =~= base + Seq::<Seq<char>>::empty());
                    return true;
                }
            },
            None => {},
        }
        let ghost total = rows(*self, cv, 0, up, depth as nat, max, vis, prefix@, fuel);
        assert(subtree(*self, cv, up, depth as nat, max, vis, prefix@, fuel) == total);
        let ghost mut done: Seq<Seq<char>> = Seq::empty();
        let mut i: usize = 0;
        assert(base + done =~= base);
        while i < cs.len()
            invariant
                i <= cs@.len(),
                cv == views(cs@),
                visited@ == old(visited)@,
                vis == views(visited@),
                fuel > unvisited(node_keys(self.tms()), vis.to_set()),
                fuel >= 1,
                depth + fuel <= self.nodes@.len() + 2,
                self.nodes@.len() + 2 <= usize::MAX,
                views(out@) == base + done,
                base == views(old(out)@),
                subtree(*self, cv, up, depth as nat, max, vis, prefix@, fuel) == total,
                total == prepend(done, rows(*self, cv, i as nat, up, depth as nat, max, vis, prefix@, fuel)),
            decreases cs@.len() - i,
        {
            let c = &cs[i];
            let last = i + 1 == cs.len();
            let mut row = prefix.clone();
            if last {
                row.append("└── ");
            } else {
                row.append("├── ");
            }
            assert(row@ == prefix@ + connector(last));
            let ghost here_done = done;
            if contains_str(visited, c.as_str()) {
                row.append(c.as_str());
                row.append(" (circular)");
                let ghost before = views(out@);
                let ghost rv = row@;
                out.push(row);
                proof {
                    assert(views(out@) =~= before.push(rv));
                    assert(cv[i as int] == c@);
                    done = done + seq![prefix@ + connector(last) + c@ + " (circular)"@];
                    assert(views(out@) =~= base + done);
                    assert(prepend(here_done, prepend(seq![prefix@ + connector(last) + c@ + " (circular)"@], rows(*self, cv, (i + 1) as nat, up, depth as nat, max, vis, prefix@, fuel))) == prepend(done, rows(*self, cv, (i + 1) as nat, up, depth as nat, max, vis, prefix@, fuel))) by {
                        assert(here_done + (seq![prefix@ + connector(last) + c@ + " (circular)"@]) =~= done);
                        match rows(*self, cv, (i + 1) as nat, up, depth as nat, max, vis, prefix@, fuel) {
                            Some(r) => {
                                assert(here_done + (seq![prefix@ + connector(last) + c@ + " (circular)"@] + r) =~= done + r);
                            },
                            None => {},
                        }
                    }
                }
            } else {
                match self.node_index(c.as_str()) {
                    None => {
                        proof {
                            assert(cv[i as int] == c@);
                            assert(self.node(c@) is None);
                            assert(prepend(here_done, prepend(Seq::empty(), rows(*self, cv, (i + 1) as nat, up, depth as nat, max, vis, prefix@, fuel))) == prepend(done, rows(*self, cv, (i + 1) as nat, up, depth as nat, max, vis, prefix@, fuel))) by {
                                match rows(*self, cv, (i + 1) as nat, up, depth as nat, max, vis, prefix@, fuel) {
                                    Some(r) => {
                                        assert(Seq::<Seq<char>>::empty() + r =~= r);
                                    },
                                    None => {},
                                }
                            }
                        }
                    },
                    Some(ni) => {
                        proof {
                            assert(cv[i as int] == c@);
                            assert(self.node(c@) == Some(self.nodes@[ni as int]));
                        }
                        let n = &self.nodes[ni];
                        if !can_truncate(n.text.as_str(), 60) {
                            assert(rows(*self, cv, i as nat, up, depth as nat, max, vis, prefix@, fuel) is None);
                            assert(total is None);
                            return false;
                        }
                        row.append(c.as_str());
                        row.append(" [");
                        row.append(n.truth_value.as_str());
                        row.append("]: ");
                        let t = truncate(n.text.as_str(), 60);
                        row.append(t.as_str());
                        let premise = match self.group_index(c.as_str()) {
                            Some(g) => self.justifications[g].justs.len() == 0,
                            None => true,
                        };
                        proof {
                            self.lemma_tms_keys();
                        }
                        if premise {
                            row.append(" (premise)");
                        } else {
                            assert(row@ + Seq::<char>::empty() =~= row@);
                        }
                        let ghost line = row@;
                        assert(line == prefix@ + connector(last) + c@ + " ["@ + n.truth_value@ + "]: "@ + truncated(n.text@, 60)
                            + premise_tag(*self, c@));
                        let ghost before = views(out@);
                        out.push(row);
                        assert(views(out@) =~= before.push(line));
                        let gc = self.next_level_of(c.as_str(), up);
                        if gc.len() > 0 {
                            let mut child_prefix = prefix.clone();
                            if last {
                                child_prefix.append("    ");
                            } else {
                                child_prefix.append("│   ");
                            }
                            let ghost vis_before = views(visited@);
                            visited.push(c.clone());
                            proof {
                                let u = node_keys(self.tms());
                                self.lemma_tms_keys();
                                crate::model::lemma_first_index(u, c@);
                                assert(u[ni as int] == c@);
                                assert(u.contains(c@));
                                assert(views(visited@) =~= vis_before.push(c@));
                                assert forall|y: Seq<char>| #[trigger] views(visited@).contains(y) <==> vis_before.contains(y) || y == c@ by {
                                    crate::model::lemma_push_contains(vis_before, c@, y);
                                }
                                assert(!vis_before.contains(c@));
                                assert(vis_before.to_set().subset_of(views(visited@).to_set()));
                                assert(views(visited@).to_set().contains(c@));
                                lemma_unvisited_strict(u, vis_before.to_set(), views(visited@).to_set(), c@);
                            }
                            let ghost out_mid = views(out@);
                            let ok = self.subtree_rec(&gc, up, depth + 1, max, visited, &child_prefix, out, Ghost((fuel - 1) as nat));
                            visited.pop();
                            proof {
                                assert(visited@ =~= old(visited)@);
                            }
                            if !ok {
                                proof {
                                    assert(views(gc@) == next_level(*self, c@, up));
                                    assert(subtree(*self, views(gc@), up, (depth + 1) as nat, max, vis.push(c@), prefix@ + continuation(last), (fuel - 1) as nat) is None);
                                    assert(rows(*self, cv, i as nat, up, depth as nat, max, vis, prefix@, fuel) is None);
                                    assert(total is None);
                                }
                                return false;
                            }
                            proof {
                                let sub = subtree(*self, views(gc@), up, (depth + 1) as nat, max, vis.push(c@), prefix@ + continuation(last), (fuel - 1) as nat);
                                let ls = sub->Some_0;
                                assert(views(out@) == out_mid + ls);
                                done = done + (seq![line] + ls);
                                assert(views(out@) =~= base + done);
                                match rows(*self, cv, (i + 1) as nat, up, depth as nat, max, vis, prefix@, fuel) {
                                    Some(r) => {
                                        assert(here_done + ((seq![line] + ls) + r) =~= done + r);
                                    },
                                    None => {},
                                }
                            }
                        } else {
                            proof {
                                done = done + seq![line];
                                assert(views(out@) =~= base + done);
                                match rows(*self, cv, (i + 1) as nat, up, depth as nat, max, vis, prefix@, fuel) {
                                    Some(r) => {
                                        assert(here_done + (seq![line] + r) =~= done + r);
                                    },
                                    None => {},
                                }
                            }
                        }
                    },
                }
            }
            i = i + 1;
        }
        proof {
            assert(done + Seq::<Seq<char>>::empty() =~= done);
        }
        true
    }
}

} // verus!

verus! {

/// The tree of `id`, a node of `net`: its own row, then the rows of its
/// antecedents (direction `up` or `both`) and of its dependents (`down` or
/// `both`), to depth `max`; nothing when a text would be cut inside a
/// character.
pub open spec fn tree_spec(net: Network, id: Seq<char>, direction: Seq<char>, max: Option<usize>) -> Option<
    Seq<Seq<char>>,
> {
    let n = net.node(id)->Some_0;
    let fuel = (net.nodes@.len() + 1) as nat;
    if !truncatable(n.text@, 70) {
        None
    } else {
        let root = n.id@ + " ["@ + n.truth_value@ + "]: "@ + truncated(n.text@, 70) + premise_tag(net, id);
        let upward = if direction == "up"@ || direction == "both"@ {
            subtree(net, next_level(net, id, true), true, 1, max, seq![id], prefix_of(0), fuel)
        } else {
            Some(Seq::empty())
        };
        let downward = if direction == "down"@ || direction == "both"@ {
            subtree(net, next_level(net, id, false), false, 1, max, seq![id], prefix_of(0), fuel)
        } else {
            Some(Seq::empty())
        };
        match (upward, downward) {
            (Some(a), Some(b)) => Some(seq![root] + a + b),
            _ => None,
        }
    }
}

impl Network {
    /// The tree of `node_id` (see `tree_spec`), line by line; refused when
    /// the node does not exist or a text would be cut inside a character.
    pub fn tree_lines(&self, node_id: &str, direction: &str, max_depth: Option<usize>) -> (r: Result<
        Vec<String>,
        TmsError,
    >)
        requires
            self.nodes@.len() + 2 <= usize::MAX,
        ensures
            self.node(node_id@) is None ==> (r matches Err(TmsError::NodeNotFound(s)) && s@ == node_id@),
            self.node(node_id@) is Some ==> match tree_spec(*self, node_id@, direction@, max_depth) {
                Some(ls) => r matches Ok(v) && views(v@) == ls,
                None => r matches Err(TmsError::CutInsideChar),
            },
    {
        let i = match self.node_index(node_id) {
            Some(i) => i,
            None => {
                return Err(TmsError::NodeNotFound(owned(node_id)));
            },
        };
        proof {
            self.lemma_tms_keys();
            assert(self.node(node_id@) == Some(self.nodes@[i as int]));
        }
        let n = &self.nodes[i];
        if !can_truncate(n.text.as_str(), 70) {
            return Err(TmsError::CutInsideChar);
        }
        let mut root = n.id.clone();
        root.append(" [");
        root.append(n.truth_value.as_str());
        root.append("]: ");
        let t = truncate(n.text.as_str(), 70);
        root.append(t.as_str());
        let premise = match self.group_index(node_id) {
            Some(g) => self.justifications[g].justs.len() == 0,
            None => true,
        };
        if premise {
            root.append(" (premise)");
        } else {
            assert(root@ + Seq::<char>::empty() =~= root@);
        }
        let mut out: Vec<String> = Vec::new();
        out.push(root);
        let mut visited: Vec<String> = Vec::new();
        visited.push(owned(node_id));
        let top = build_prefix(0, false);
        let ghost fuel = (self.nodes@.len() + 1) as nat;
        proof {
            assert(views(visited@) =~= seq![node_id@]);
            lemma_unvisited_le(node_keys(self.tms()), views(visited@).to_set());
        }
        let up_dir = str_eq(direction, "up") || str_eq(direction, "both");
        let down_dir = str_eq(direction, "down") || str_eq(direction, "both");
        let ghost o1 = views(out@);
        if up_dir {
            let cs = self.antecedents_of(node_id);
            let ok = self.subtree_rec(&cs, true, 1, max_depth, &mut visited, &top, &mut out, Ghost(fuel));
            if !ok {
                return Err(TmsError::CutInsideChar);
            }
        } else {
            assert(views(out@) =~= o1 + Seq::<Seq<char>>::empty());
        }
        let ghost o2 = views(out@);
        if down_dir {
            let cs = self.dependents_of(node_id);
            let ok = self.subtree_rec(&cs, false, 1, max_depth, &mut visited, &top, &mut out, Ghost(fuel));
            if !ok {
                return Err(TmsError::CutInsideChar);
            }
        } else {
            assert(views(out@) =~= o2 + Seq::<Seq<char>>::empty());
        }
        Ok(out)
    }
}

} // verus!
