//! What the beliefs reader gives back of the markdown registry that export
//! writes.
use vstd::prelude::*;
use crate::export::{
    ants_of, dedup, markdown_doc, md_header, md_kind, md_status, node_section, node_sections, nogood_section, nogood_sections,
    outs_of, repo_lines,
};
use crate::network::justs_for;
use crate::types::{views, Justification, Node, Nogood};
use crate::beliefs::{parsed, body_lines, fence_end, start_state, pair_from, repo_entry, add_text, after, claim_line, flushed, header_claim, run, step, strip_close, strip_open, ClaimView, ReadState};
use crate::text::{starts, comma_list, nonempty_trimmed, decimal_seq, is_sep, is_ws, join_seq, trim_end_seq, trim_start_seq, trimmed, lines_of, split_acc, split_seq, strip_cr};

verus! {

/// The lines, each followed by a newline.
pub open spec fn line_block(ls: Seq<Seq<char>>) -> Seq<char>
    decreases ls.len(),
{
    if ls.len() == 0 {
        Seq::empty()
    } else {
        line_block(ls.drop_last()) + ls.last() + "\n"@
    }
}

/// `s` has no character that separates.
pub open spec fn free_of(s: Seq<char>, sep: Option<char>) -> bool {
    forall|i: int| 0 <= i < s.len() ==> !is_sep(#[trigger] s[i], sep)
}

pub proof fn lemma_split_free(a: Seq<char>, sep: Option<char>, cur: Seq<char>)
    requires
        free_of(a, sep),
    ensures
        split_acc(a, sep, cur) == seq![cur + a],
    decreases a.len(),
{
    if a.len() > 0 {
        assert(free_of(a.drop_first(), sep)) by {
            assert forall|i: int| 0 <= i < a.drop_first().len() implies !is_sep(#[trigger] a.drop_first()[i], sep) by {
                assert(a.drop_first()[i] == a[i + 1]);
            }
        }
        assert(!is_sep(a[0], sep));
        lemma_split_free(a.drop_first(), sep, cur.push(a[0]));
        assert(cur.push(a[0]) + a.drop_first() =~= cur + a);
    } else {
        assert(cur + a =~= cur);
    }
}

/// Splitting at a separator between two parts splits each part.
pub proof fn lemma_split_cat(a: Seq<char>, c: char, b: Seq<char>, sep: Option<char>, cur: Seq<char>)
    requires
        is_sep(c, sep),
    ensures
        split_acc(a + seq![c] + b, sep, cur) == split_acc(a, sep, cur) + split_acc(b, sep, Seq::empty()),
    decreases a.len(),
{
    let s = a + seq![c] + b;
    if a.len() == 0 {
        assert(s =~= seq![c] + b);
        assert(s[0] == c);
        assert(s.drop_first() =~= b);
    } else {
        assert(s[0] == a[0]);
        assert(s.drop_first() =~= a.drop_first() + seq![c] + b);
        if is_sep(a[0], sep) {
            lemma_split_cat(a.drop_first(), c, b, sep, Seq::empty());
            assert(split_acc(a, sep, cur) == seq![cur] + split_acc(a.drop_first(), sep, Seq::empty()));
            assert(split_acc(s, sep, cur) =~= split_acc(a, sep, cur) + split_acc(b, sep, Seq::empty()));
        } else {
            lemma_split_cat(a.drop_first(), c, b, sep, cur.push(a[0]));
        }
    }
}

/// Lines free of newlines, each followed by a newline, split back into
/// those lines, then whatever follows.
pub proof fn lemma_split_block(ls: Seq<Seq<char>>, b: Seq<char>)
    requires
        forall|k: int| 0 <= k < ls.len() ==> free_of(#[trigger] ls[k], Some('\n')),
    ensures
        split_seq(line_block(ls) + b, Some('\n')) == ls + split_seq(b, Some('\n')),
    decreases ls.len(),
{
    if ls.len() > 0 {
        let init = ls.drop_last();
        let last = ls.last();
        let b2 = last + seq!['\n'] + b;
        assert(line_block(ls) + b =~= line_block(init) + b2) by {
            assert("\n"@ =~= seq!['\n']) by {
                reveal_strlit("\n");
            }
        }
        assert forall|k: int| 0 <= k < init.len() implies free_of(#[trigger] init[k], Some('\n')) by {
            assert(init[k] == ls[k]);
        }
        lemma_split_block(init, b2);
        lemma_split_cat(last, '\n', b, Some('\n'), Seq::empty());
        lemma_split_free(last, Some('\n'), Seq::empty());
        assert(Seq::<char>::empty() + last =~= last);
        assert(split_seq(b2, Some('\n')) == seq![last] + split_seq(b, Some('\n')));
        assert(ls =~= init.push(last));
        assert(init + (seq![last] + split_seq(b, Some('\n'))) =~= ls + split_seq(b, Some('\n')));
    } else {
        assert(line_block(ls) + b =~= b);
        assert(ls + split_seq(b, Some('\n')) =~= split_seq(b, Some('\n')));
    }
}

/// The lines of a block of lines free of newlines are those lines, each
/// without a carriage return at its end.
pub proof fn lemma_lines_of_block(ls: Seq<Seq<char>>)
    requires
        forall|k: int| 0 <= k < ls.len() ==> free_of(#[trigger] ls[k], Some('\n')),
    ensures
        lines_of(line_block(ls)) == stripped(ls),
{
    lemma_split_block(ls, Seq::empty());
    assert(line_block(ls) + Seq::<char>::empty() =~= line_block(ls));
    assert(split_seq(Seq::<char>::empty(), Some('\n')) == seq![Seq::<char>::empty()]);
    let ps = split_seq(line_block(ls), Some('\n'));
    assert(ps =~= ls.push(Seq::<char>::empty()));
    assert(ps.drop_last() =~= ls);
}

/// Blocks of lines concatenate.
pub proof fn lemma_block_cat(a: Seq<Seq<char>>, b: Seq<Seq<char>>)
    ensures
        line_block(a + b) == line_block(a) + line_block(b),
    decreases b.len(),
{
    if b.len() == 0 {
        assert(a + b =~= a);
        assert(line_block(a) + line_block(b) =~= line_block(a));
    } else {
        lemma_block_cat(a, b.drop_last());
        assert((a + b).drop_last() =~= a + b.drop_last());
        assert((a + b).last() == b.last());
        assert(line_block(a + b) =~= line_block(a) + line_block(b));
    }
}

/// The lines of the front matter and headings before the first node.
pub open spec fn header_lines(project: Seq<char>, updated: Seq<char>, count: nat, version: Seq<char>) -> Seq<Seq<char>> {
    seq![
        "---"@,
        "schema_version: \"1.0\""@,
        "project_name: \""@ + project + "\""@,
        "updated_at: \""@ + updated + "\""@,
        "node_count: "@ + decimal_seq(count),
        "generator: \"reasons/"@ + version + "\""@,
        "---"@,
        Seq::empty(),
        "# Belief Registry"@,
        Seq::empty(),
        "## Claims"@,
        Seq::empty(),
    ]
}

#[verifier::spinoff_prover]
pub proof fn lemma_header_block(project: Seq<char>, updated: Seq<char>, count: nat, version: Seq<char>)
    ensures
        md_header(project, updated, count, version) == line_block(header_lines(project, updated, count, version)),
{
    reveal_with_fuel(line_block, 13);
    reveal_strlit("---\n");
    reveal_strlit("---");
    reveal_strlit("\n");
    reveal_strlit("schema_version: \"1.0\"\n");
    reveal_strlit("schema_version: \"1.0\"");
    reveal_strlit("\"\n");
    reveal_strlit("\"");
    reveal_strlit("---\n\n");
    reveal_strlit("# Belief Registry\n\n");
    reveal_strlit("# Belief Registry");
    reveal_strlit("## Claims\n\n");
    reveal_strlit("## Claims");
    let ls = header_lines(project, updated, count, version);
    assert(line_block(ls) =~= md_header(project, updated, count, version));
}

/// The line `label value` when the value is not empty.
pub open spec fn field_line(label: Seq<char>, value: Seq<char>) -> Seq<Seq<char>> {
    if value.len() > 0 {
        seq![label + value]
    } else {
        Seq::empty()
    }
}

/// The line `label a, b, c` when there are items.
pub open spec fn list_line(label: Seq<char>, items: Seq<Seq<char>>) -> Seq<Seq<char>> {
    if items.len() > 0 {
        seq![label + join_seq(items, ", "@)]
    } else {
        Seq::empty()
    }
}

/// The heading line of a node's section.
pub open spec fn heading_line(n: Node, js: Seq<Justification>) -> Seq<char> {
    "### "@ + n.id@ + " ["@ + md_status(n) + "] "@ + md_kind(n, js)
}

/// The lines of one node's section.
pub open spec fn section_lines(n: Node, js: Seq<Justification>) -> Seq<Seq<char>> {
    seq![heading_line(n, js), n.text@, Seq::empty()] + field_line("- Source: "@, n.source@) + field_line(
        "- Source URL: "@,
        n.source_url@,
    ) + list_line("- Depends on: "@, dedup(ants_of(js))) + list_line("- Unless: "@, dedup(outs_of(js)))
        + seq![Seq::<char>::empty()]
}

/// The lines of the nodes' sections, in order.
pub open spec fn sections_lines(ns: Seq<Node>, all: Seq<Justification>) -> Seq<Seq<char>>
    decreases ns.len(),
{
    if ns.len() == 0 {
        Seq::empty()
    } else {
        sections_lines(ns.drop_last(), all) + section_lines(ns.last(), justs_for(all, ns.last().id@))
    }
}

pub proof fn lemma_block_one(x: Seq<char>)
    ensures
        line_block(seq![x]) == x + "\n"@,
{
    reveal_with_fuel(line_block, 2);
    assert(seq![x].drop_last() =~= Seq::<Seq<char>>::empty());
    assert(line_block(seq![x]) =~= x + "\n"@);
}

#[verifier::spinoff_prover]
#[verifier::rlimit(40)]
pub proof fn lemma_section_block(n: Node, js: Seq<Justification>)
    ensures
        node_section(n, js) == line_block(section_lines(n, js)),
{
    let a = seq![heading_line(n, js), n.text@, Seq::empty()];
    let f1 = field_line("- Source: "@, n.source@);
    let f2 = field_line("- Source URL: "@, n.source_url@);
    let l1 = list_line("- Depends on: "@, dedup(ants_of(js)));
    let l2 = list_line("- Unless: "@, dedup(outs_of(js)));
    let z = seq![Seq::<char>::empty()];
    lemma_block_cat(a, f1);
    lemma_block_cat(a + f1, f2);
    lemma_block_cat(a + f1 + f2, l1);
    lemma_block_cat(a + f1 + f2 + l1, l2);
    lemma_block_cat(a + f1 + f2 + l1 + l2, z);
    if n.source@.len() > 0 {
        lemma_block_one("- Source: "@ + n.source@);
    } else {
        assert(line_block(f1) == Seq::<char>::empty());
    }
    if n.source_url@.len() > 0 {
        lemma_block_one("- Source URL: "@ + n.source_url@);
    } else {
        assert(line_block(f2) == Seq::<char>::empty());
    }
    if dedup(ants_of(js)).len() > 0 {
        lemma_block_one("- Depends on: "@ + join_seq(dedup(ants_of(js)), ", "@));
    } else {
        assert(line_block(l1) == Seq::<char>::empty());
    }
    if dedup(outs_of(js)).len() > 0 {
        lemma_block_one("- Unless: "@ + join_seq(dedup(outs_of(js)), ", "@));
    } else {
        assert(line_block(l2) == Seq::<char>::empty());
    }
    lemma_block_one(Seq::<char>::empty());
    reveal_with_fuel(line_block, 4);
    reveal_strlit("\n\n");
    reveal_strlit("\n");
    assert(line_block(a) =~= heading_line(n, js) + "\n"@ + n.text@ + "\n\n"@);
    assert(section_lines(n, js) == a + f1 + f2 + l1 + l2 + z);
    assert(line_block(section_lines(n, js)) =~= node_section(n, js));
}

pub proof fn lemma_sections_block(ns: Seq<Node>, all: Seq<Justification>)
    ensures
        node_sections(ns, all) == line_block(sections_lines(ns, all)),
    decreases ns.len(),
{
    if ns.len() > 0 {
        lemma_sections_block(ns.drop_last(), all);
        let js = justs_for(all, ns.last().id@);
        lemma_section_block(ns.last(), js);
        lemma_block_cat(sections_lines(ns.drop_last(), all), section_lines(ns.last(), js));
    }
}

/// One `- name: path` line per repository.
pub open spec fn repo_line_list(rs: Seq<(String, String)>) -> Seq<Seq<char>> {
    rs.map_values(|r: (String, String)| "- "@ + r.0@ + ": "@ + r.1@)
}

/// The lines of one recorded contradiction's section.
pub open spec fn nogood_lines(ng: Nogood) -> Seq<Seq<char>> {
    seq!["### "@ + ng.id@] + field_line("- Discovered: "@, ng.discovered@) + field_line("- Resolution: "@, ng.resolution@)
        + seq!["- Affects: "@ + join_seq(views(ng.nodes@), ", "@), Seq::<char>::empty()]
}

pub open spec fn nogoods_lines(ngs: Seq<Nogood>) -> Seq<Seq<char>>
    decreases ngs.len(),
{
    if ngs.len() == 0 {
        Seq::empty()
    } else {
        nogoods_lines(ngs.drop_last()) + nogood_lines(ngs.last())
    }
}

/// The lines of the whole registry.
pub open spec fn doc_lines(
    project: Seq<char>,
    updated: Seq<char>,
    version: Seq<char>,
    nodes: Seq<Node>,
    justs: Seq<Justification>,
    nogoods: Seq<Nogood>,
    repos: Seq<(String, String)>,
) -> Seq<Seq<char>> {
    header_lines(project, updated, nodes.len(), version) + sections_lines(nodes, justs) + (if repos.len() > 0 {
        seq!["## Repos"@, Seq::empty()] + repo_line_list(repos) + seq![Seq::<char>::empty()]
    } else {
        Seq::empty()
    }) + (if nogoods.len() > 0 {
        seq!["## Nogoods"@, Seq::<char>::empty()] + nogoods_lines(nogoods)
    } else {
        Seq::empty()
    })
}

pub proof fn lemma_repos_block(rs: Seq<(String, String)>)
    ensures
        repo_lines(rs) == line_block(repo_line_list(rs)),
    decreases rs.len(),
{
    if rs.len() > 0 {
        lemma_repos_block(rs.drop_last());
        let x = "- "@ + rs.last().0@ + ": "@ + rs.last().1@;
        assert(repo_line_list(rs) =~= repo_line_list(rs.drop_last()) + seq![x]);
        lemma_block_cat(repo_line_list(rs.drop_last()), seq![x]);
        lemma_block_one(x);
        assert(repo_lines(rs) =~= line_block(repo_line_list(rs)));
    } else {
        assert(repo_line_list(rs) =~= Seq::<Seq<char>>::empty());
    }
}

#[verifier::spinoff_prover]
pub proof fn lemma_nogood_block(ng: Nogood)
    ensures
        nogood_section(ng) == line_block(nogood_lines(ng)),
{
    let a = seq!["### "@ + ng.id@];
    let f1 = field_line("- Discovered: "@, ng.discovered@);
    let f2 = field_line("- Resolution: "@, ng.resolution@);
    let last = "- Affects: "@ + join_seq(views(ng.nodes@), ", "@);
    let z = seq![last, Seq::<char>::empty()];
    lemma_block_cat(a, f1);
    lemma_block_cat(a + f1, f2);
    lemma_block_cat(a + f1 + f2, z);
    lemma_block_one("### "@ + ng.id@);
    if ng.discovered@.len() > 0 {
        lemma_block_one("- Discovered: "@ + ng.discovered@);
    } else {
        assert(line_block(f1) == Seq::<char>::empty());
    }
    if ng.resolution@.len() > 0 {
        lemma_block_one("- Resolution: "@ + ng.resolution@);
    } else {
        assert(line_block(f2) == Seq::<char>::empty());
    }
    reveal_with_fuel(line_block, 3);
    assert(line_block(z) =~= last + "\n"@ + "\n"@);
    assert(nogood_lines(ng) == a + f1 + f2 + z);
    assert(line_block(nogood_lines(ng)) =~= nogood_section(ng));
}

pub proof fn lemma_nogoods_block(ngs: Seq<Nogood>)
    ensures
        nogood_sections(ngs) == line_block(nogoods_lines(ngs)),
    decreases ngs.len(),
{
    if ngs.len() > 0 {
        lemma_nogoods_block(ngs.drop_last());
        lemma_nogood_block(ngs.last());
        lemma_block_cat(nogoods_lines(ngs.drop_last()), nogood_lines(ngs.last()));
    }
}

/// The registry is the block of its lines.
#[verifier::spinoff_prover]
#[verifier::rlimit(40)]
pub proof fn lemma_doc_block(
    project: Seq<char>,
    updated: Seq<char>,
    version: Seq<char>,
    nodes: Seq<Node>,
    justs: Seq<Justification>,
    nogoods: Seq<Nogood>,
    repos: Seq<(String, String)>,
)
    ensures
        markdown_doc(project, updated, version, nodes, justs, nogoods, repos) == line_block(
            doc_lines(project, updated, version, nodes, justs, nogoods, repos),
        ),
{
    let h = header_lines(project, updated, nodes.len(), version);
    let sl = sections_lines(nodes, justs);
    let rl = if repos.len() > 0 {
        seq!["## Repos"@, Seq::empty()] + repo_line_list(repos) + seq![Seq::<char>::empty()]
    } else {
        Seq::empty()
    };
    let gl = if nogoods.len() > 0 {
        seq!["## Nogoods"@, Seq::<char>::empty()] + nogoods_lines(nogoods)
    } else {
        Seq::empty()
    };
    lemma_header_block(project, updated, nodes.len(), version);
    lemma_sections_block(nodes, justs);
    lemma_block_cat(h, sl);
    lemma_block_cat(h + sl, rl);
    lemma_block_cat(h + sl + rl, gl);
    reveal_with_fuel(line_block, 3);
    reveal_strlit("## Repos\n\n");
    reveal_strlit("## Repos");
    reveal_strlit("## Nogoods\n\n");
    reveal_strlit("## Nogoods");
    reveal_strlit("\n");
    if repos.len() > 0 {
        let r0 = seq!["## Repos"@, Seq::<char>::empty()];
        lemma_repos_block(repos);
        lemma_block_cat(r0, repo_line_list(repos));
        lemma_block_cat(r0 + repo_line_list(repos), seq![Seq::<char>::empty()]);
        lemma_block_one(Seq::<char>::empty());
        assert(line_block(r0) =~= "## Repos\n\n"@);
        assert(line_block(rl) =~= "## Repos\n\n"@ + repo_lines(repos) + "\n"@);
    } else {
        assert(line_block(rl) == Seq::<char>::empty());
    }
    if nogoods.len() > 0 {
        let g0 = seq!["## Nogoods"@, Seq::<char>::empty()];
        lemma_nogoods_block(nogoods);
        lemma_block_cat(g0, nogoods_lines(nogoods));
        assert(line_block(g0) =~= "## Nogoods\n\n"@);
    } else {
        assert(line_block(gl) == Seq::<char>::empty());
    }
    assert(doc_lines(project, updated, version, nodes, justs, nogoods, repos) == h + sl + rl + gl);
    assert(line_block(h + sl + rl + gl) =~= markdown_doc(project, updated, version, nodes, justs, nogoods, repos));
}

pub proof fn lemma_free_cat(a: Seq<char>, b: Seq<char>, sep: Option<char>)
    requires
        free_of(a, sep),
        free_of(b, sep),
    ensures
        free_of(a + b, sep),
{
    assert forall|i: int| 0 <= i < (a + b).len() implies !is_sep(#[trigger] (a + b)[i], sep) by {
        if i < a.len() {
            assert((a + b)[i] == a[i]);
        } else {
            assert((a + b)[i] == b[i - a.len()]);
        }
    }
}

pub proof fn lemma_free_join(items: Seq<Seq<char>>, j: Seq<char>, sep: Option<char>)
    requires
        forall|k: int| 0 <= k < items.len() ==> free_of(#[trigger] items[k], sep),
        free_of(j, sep),
    ensures
        free_of(join_seq(items, j), sep),
    decreases items.len(),
{
    if items.len() == 1 {
        assert(free_of(items[0], sep));
    } else if items.len() > 1 {
        let init = items.drop_last();
        assert forall|k: int| 0 <= k < init.len() implies free_of(#[trigger] init[k], sep) by {
            assert(init[k] == items[k]);
        }
        lemma_free_join(init, j, sep);
        assert(free_of(items.last(), sep));
        lemma_free_cat(join_seq(init, j), j, sep);
        lemma_free_cat(join_seq(init, j) + j, items.last(), sep);
    } else {
        assert(free_of(join_seq(items, j), sep));
    }
}

/// Decimal digits hold no newline.
pub proof fn lemma_decimal_free(n: nat)
    ensures
        free_of(decimal_seq(n), Some('\n')),
        decimal_seq(n).len() > 0,
    decreases n,
{
    if n >= 10 {
        lemma_decimal_free(n / 10);
        let d = decimal_seq(n / 10);
        assert forall|i: int| 0 <= i < decimal_seq(n).len() implies !is_sep(#[trigger] decimal_seq(n)[i], Some('\n')) by {
            if i < d.len() {
                assert(decimal_seq(n)[i] == d[i]);
            }
        }
    }
}

/// Reading lines one after another.
pub proof fn lemma_run_cat(st: ReadState, a: Seq<Seq<char>>, b: Seq<Seq<char>>)
    ensures
        run(st, a + b) == run(run(st, a), b),
    decreases b.len(),
{
    if b.len() == 0 {
        assert(a + b =~= a);
    } else {
        lemma_run_cat(st, a, b.drop_last());
        assert((a + b).drop_last() =~= a + b.drop_last());
        assert((a + b).last() == b.last());
    }
}

/// The lines with a trailing carriage return taken off each.
pub open spec fn stripped(ls: Seq<Seq<char>>) -> Seq<Seq<char>> {
    ls.map_values(|p: Seq<char>| strip_cr(p))
}

pub proof fn lemma_stripped_cat(a: Seq<Seq<char>>, b: Seq<Seq<char>>)
    ensures
        stripped(a + b) == stripped(a) + stripped(b),
{
    assert(stripped(a + b) =~= stripped(a) + stripped(b));
}

/// `s` does not change when its surrounding whitespace is taken off when
/// it starts and ends with other characters.
pub proof fn lemma_trim_start_keeps(s: Seq<char>)
    requires
        s.len() > 0,
        !is_ws(s[0]),
    ensures
        trim_start_seq(s) == s,
{
}

pub proof fn lemma_trim_end_prefix(s: Seq<char>)
    ensures
        trim_end_seq(s).len() <= s.len(),
        trim_end_seq(s) == s.subrange(0, trim_end_seq(s).len() as int),
        s.len() > 0 && !is_ws(s[0]) ==> trim_end_seq(s).len() >= 1,
    decreases s.len(),
{
    if s.len() > 0 && is_ws(s.last()) {
        lemma_trim_end_prefix(s.drop_last());
        let t = trim_end_seq(s.drop_last());
        assert(s.drop_last().subrange(0, t.len() as int) =~= s.subrange(0, t.len() as int));
        if s.len() > 1 && !is_ws(s[0]) {
            assert(s.drop_last()[0] == s[0]);
        }
    } else {
        assert(s.subrange(0, s.len() as int) =~= s);
    }
}

/// A line starting with something other than whitespace keeps its first
/// character when trimmed.
pub proof fn lemma_trimmed_first(s: Seq<char>)
    requires
        s.len() > 0,
        !is_ws(s[0]),
    ensures
        trimmed(s).len() > 0,
        trimmed(s)[0] == s[0],
{
    lemma_trim_start_keeps(s);
    lemma_trim_end_prefix(s);
}

pub proof fn lemma_trim_start_len(s: Seq<char>)
    ensures
        trim_start_seq(s).len() <= s.len(),
        s.len() > 0 && is_ws(s[0]) ==> trim_start_seq(s).len() < s.len(),
    decreases s.len(),
{
    if s.len() > 0 && is_ws(s[0]) {
        lemma_trim_start_len(s.drop_first());
    }
}

/// A trimmed, non-empty string starts with no whitespace.
pub proof fn lemma_trimmed_start(x: Seq<char>)
    requires
        x.len() > 0,
        trimmed(x) == x,
    ensures
        !is_ws(x[0]),
        trim_start_seq(x) == x,
{
    lemma_trim_start_len(x);
    lemma_trim_end_prefix(trim_start_seq(x));
    if is_ws(x[0]) {
        assert(trimmed(x).len() < x.len());
    }
}

/// Items fit a comma-separated list: each non-empty, trimmed, without commas.
pub open spec fn list_safe(items: Seq<Seq<char>>) -> bool {
    forall|k: int|
        0 <= k < items.len() ==> {
            &&& (#[trigger] items[k]).len() > 0
            &&& free_of(items[k], Some(','))
            &&& trimmed(items[k]) == items[k]
        }
}

/// The pieces of a list joined by `, `: the first item, then each later
/// one after a space.
pub open spec fn comma_pieces(items: Seq<Seq<char>>) -> Seq<Seq<char>> {
    Seq::new(items.len(), |k: int| if k == 0 { items[0] } else { " "@ + items[k] })
}

pub proof fn lemma_split_join(items: Seq<Seq<char>>)
    requires
        items.len() > 0,
        forall|k: int| 0 <= k < items.len() ==> free_of(#[trigger] items[k], Some(',')),
    ensures
        split_seq(join_seq(items, ", "@), Some(',')) == comma_pieces(items),
    decreases items.len(),
{
    reveal_strlit(", ");
    reveal_strlit(" ");
    if items.len() == 1 {
        lemma_split_free(items[0], Some(','), Seq::empty());
        assert(Seq::<char>::empty() + items[0] =~= items[0]);
        assert(comma_pieces(items) =~= seq![items[0]]);
    } else {
        let init = items.drop_last();
        let last = items.last();
        assert forall|k: int| 0 <= k < init.len() implies free_of(#[trigger] init[k], Some(',')) by {
            assert(init[k] == items[k]);
        }
        lemma_split_join(init);
        let b = " "@ + last;
        assert(free_of(b, Some(','))) by {
            assert(free_of(" "@, Some(',')));
            assert(free_of(last, Some(',')));
            lemma_free_cat(" "@, last, Some(','));
        }
        assert(join_seq(items, ", "@) =~= join_seq(init, ", "@) + seq![','] + b);
        lemma_split_cat(join_seq(init, ", "@), ',', b, Some(','), Seq::empty());
        lemma_split_free(b, Some(','), Seq::empty());
        assert(Seq::<char>::empty() + b =~= b);
        assert(comma_pieces(items) =~= comma_pieces(init).push(b));
    }
}

pub proof fn lemma_trim_spaced(x: Seq<char>)
    requires
        x.len() > 0,
        trimmed(x) == x,
    ensures
        trimmed(" "@ + x) == x,
{
    reveal_strlit(" ");
    lemma_trimmed_start(x);
    let y = " "@ + x;
    assert(is_ws(y[0]));
    assert(y.drop_first() =~= x);
}

pub proof fn lemma_nonempty_trimmed_pieces(items: Seq<Seq<char>>)
    requires
        items.len() > 0,
        list_safe(items),
    ensures
        nonempty_trimmed(comma_pieces(items)) == items,
    decreases items.len(),
{
    let ps = comma_pieces(items);
    if items.len() == 1 {
        assert(ps.drop_last() =~= Seq::<Seq<char>>::empty());
        assert(ps.last() == items[0]);
        assert(items[0].len() > 0 && trimmed(items[0]) == items[0]);
        assert(nonempty_trimmed(ps.drop_last()) == Seq::<Seq<char>>::empty());
        assert(nonempty_trimmed(ps) =~= items);
    } else {
        let init = items.drop_last();
        assert(list_safe(init)) by {
            assert forall|k: int| 0 <= k < init.len() implies {
                &&& (#[trigger] init[k]).len() > 0
                &&& free_of(init[k], Some(','))
                &&& trimmed(init[k]) == init[k]
            } by {
                assert(init[k] == items[k]);
            }
        }
        lemma_nonempty_trimmed_pieces(init);
        assert(ps.drop_last() =~= comma_pieces(init));
        let last = items.last();
        assert(last.len() > 0 && trimmed(last) == last);
        lemma_trim_spaced(last);
        assert(ps.last() == " "@ + last);
        assert(nonempty_trimmed(ps) =~= items);
    }
}

/// A list written with `, ` reads back as the same items.
pub proof fn lemma_comma_round_trip(items: Seq<Seq<char>>)
    requires
        items.len() > 0,
        list_safe(items),
    ensures
        comma_list(join_seq(items, ", "@)) == items,
{
    assert forall|k: int| 0 <= k < items.len() implies free_of(#[trigger] items[k], Some(',')) by {}
    lemma_split_join(items);
    lemma_nonempty_trimmed_pieces(items);
}

/// The claim the reader makes of a node's section.
pub open spec fn claim_of(n: Node, js: Seq<Justification>) -> ClaimView {
    ClaimView {
        id: n.id@,
        status: Some(md_status(n)),
        text: n.text@,
        source: n.source@,
        source_url: n.source_url@,
        depends: dedup(ants_of(js)),
        unless: dedup(outs_of(js)),
    }
}

/// The status written is one word without brackets.
pub proof fn lemma_status_word(n: Node)
    ensures
        md_status(n).len() > 0,
        md_status(n)[0] != '[',
        md_status(n).last() != ']',
        free_of(md_status(n), Some(' ')),
{
    reveal_strlit("IN");
    reveal_strlit("OUT");
    reveal_strlit("STALE");
}

pub proof fn lemma_header_claim(id: Seq<char>, st: Seq<char>, x: Seq<char>)
    requires
        free_of(id, Some(' ')),
        free_of(st, Some(' ')),
        st.len() > 0,
        st[0] != '[',
        st.last() != ']',
    ensures
        header_claim(id + " ["@ + st + "] "@ + x) == (ClaimView {
            id: id,
            status: Some(st),
            text: Seq::empty(),
            source: Seq::empty(),
            source_url: Seq::empty(),
            depends: Seq::empty(),
            unless: Seq::empty(),
        }),
{
    reveal_strlit(" [");
    reveal_strlit("] ");
    let w = seq!['['] + st + seq![']'];
    let rest = w + seq![' '] + x;
    let h = id + " ["@ + st + "] "@ + x;
    assert(h =~= id + seq![' '] + rest);
    lemma_split_cat(id, ' ', rest, Some(' '), Seq::empty());
    lemma_split_free(id, Some(' '), Seq::empty());
    assert(Seq::<char>::empty() + id =~= id);
    assert(free_of(w, Some(' '))) by {
        assert forall|i: int| 0 <= i < w.len() implies !is_sep(#[trigger] w[i], Some(' ')) by {
            if 0 < i < w.len() - 1 {
                assert(w[i] == st[i - 1]);
            }
        }
    }
    lemma_split_cat(w, ' ', x, Some(' '), Seq::empty());
    lemma_split_free(w, Some(' '), Seq::empty());
    assert(Seq::<char>::empty() + w =~= w);
    let ps = split_seq(h, Some(' '));
    assert(ps[0] == id);
    assert(ps[1] == w);
    assert(w[0] == '[');
    assert(w.drop_first() =~= st + seq![']']);
    assert(strip_open(st + seq![']']) == st + seq![']']) by {
        assert((st + seq![']'])[0] == st[0]);
    }
    assert((st + seq![']']).drop_last() =~= st);
    assert(strip_close(st) == st);
}

/// A line that neither opens a section nor a claim changes only the claim
/// being read.
pub proof fn lemma_claim_step(st: ReadState, c: ClaimView, line: Seq<char>)
    requires
        st.in_claims,
        !st.in_repos,
        !st.in_nogoods,
        st.cur == Some(c),
        !starts(line, "## Claims"@),
        !starts(line, "## Repos"@),
        !starts(line, "## Nogoods"@),
        !starts(line, "### "@),
    ensures
        step(st, line) == (ReadState { cur: Some(claim_line(c, line)), ..st }),
{
}

/// An empty line leaves a claim as it is.
pub proof fn lemma_blank_line(c: ClaimView)
    ensures
        claim_line(c, Seq::empty()) == c,
        !starts(Seq::empty(), "## Claims"@),
        !starts(Seq::empty(), "## Repos"@),
        !starts(Seq::empty(), "## Nogoods"@),
        !starts(Seq::empty(), "### "@),
{
    reveal_strlit("- Source URL: ");
    reveal_strlit("- Source: ");
    reveal_strlit("- Depends on: ");
    reveal_strlit("- Unless: ");
    reveal_strlit("- ");
    reveal_strlit("## Claims");
    reveal_strlit("## Repos");
    reveal_strlit("## Nogoods");
    reveal_strlit("### ");
    assert(trimmed(Seq::<char>::empty()) == Seq::<char>::empty());
    assert(add_text(c.text, Seq::empty()) =~= c.text);
}

/// `t` does not start with `q` when it does not start with `q`'s first
/// `p.len()` characters `p`.
pub proof fn lemma_not_starts(t: Seq<char>, p: Seq<char>, q: Seq<char>)
    requires
        !starts(t, p),
        p.len() <= q.len(),
        q.subrange(0, p.len() as int) == p,
    ensures
        !starts(t, q),
{
    if starts(t, q) {
        assert(t.subrange(0, p.len() as int) =~= q.subrange(0, p.len() as int));
    }
}

/// The claim text after its first line, when that line is text.
pub proof fn lemma_text_line(c: ClaimView, t: Seq<char>)
    requires
        c.text.len() == 0,
        trimmed(t) == t,
        !starts(t, "- "@),
    ensures
        claim_line(c, t) == (ClaimView { text: t, ..c }),
{
    reveal_strlit("- Source URL: ");
    reveal_strlit("- Source: ");
    reveal_strlit("- Depends on: ");
    reveal_strlit("- Unless: ");
    reveal_strlit("- ");
    assert("- Source URL: "@.subrange(0, 2) =~= "- "@);
    assert("- Source: "@.subrange(0, 2) =~= "- "@);
    assert("- Depends on: "@.subrange(0, 2) =~= "- "@);
    assert("- Unless: "@.subrange(0, 2) =~= "- "@);
    lemma_not_starts(t, "- "@, "- Source URL: "@);
    lemma_not_starts(t, "- "@, "- Source: "@);
    lemma_not_starts(t, "- "@, "- Depends on: "@);
    lemma_not_starts(t, "- "@, "- Unless: "@);
    assert(add_text(c.text, t) =~= t);
}

/// An item line starts with a dash, so it opens nothing.
pub proof fn lemma_item_opens_nothing(label: Seq<char>, v: Seq<char>)
    requires
        label.len() >= 2,
        label[0] == '-',
    ensures
        !starts(label + v, "## Claims"@),
        !starts(label + v, "## Repos"@),
        !starts(label + v, "## Nogoods"@),
        !starts(label + v, "### "@),
{
    reveal_strlit("## Claims");
    reveal_strlit("## Repos");
    reveal_strlit("## Nogoods");
    reveal_strlit("### ");
    let l = label + v;
    assert(l[0] == '-');
    if starts(l, "## Claims"@) {
        assert(l.subrange(0, 9)[0] == l[0]);
    }
    if starts(l, "## Repos"@) {
        assert(l.subrange(0, 8)[0] == l[0]);
    }
    if starts(l, "## Nogoods"@) {
        assert(l.subrange(0, 10)[0] == l[0]);
    }
    if starts(l, "### "@) {
        assert(l.subrange(0, 4)[0] == l[0]);
    }
}

pub proof fn lemma_source_line(c: ClaimView, s: Seq<char>)
    ensures
        claim_line(c, "- Source: "@ + s) == (ClaimView { source: s, ..c }),
{
    reveal_strlit("- Source URL: ");
    reveal_strlit("- Source: ");
    let l = "- Source: "@ + s;
    if starts(l, "- Source URL: "@) {
        assert(l.subrange(0, 14)[8] == l[8]);
    }
    assert(l.subrange(0, 10) =~= "- Source: "@);
    assert(after(l, "- Source: "@) =~= s);
}

pub proof fn lemma_url_line(c: ClaimView, u: Seq<char>)
    ensures
        claim_line(c, "- Source URL: "@ + u) == (ClaimView { source_url: u, ..c }),
{
    reveal_strlit("- Source URL: ");
    let l = "- Source URL: "@ + u;
    assert(l.subrange(0, 14) =~= "- Source URL: "@);
    assert(after(l, "- Source URL: "@) =~= u);
}

pub proof fn lemma_depends_line(c: ClaimView, j: Seq<char>)
    ensures
        claim_line(c, "- Depends on: "@ + j) == (ClaimView { depends: comma_list(j), ..c }),
{
    reveal_strlit("- Source URL: ");
    reveal_strlit("- Source: ");
    reveal_strlit("- Depends on: ");
    let l = "- Depends on: "@ + j;
    if starts(l, "- Source URL: "@) {
        assert(l.subrange(0, 14)[2] == l[2]);
    }
    if starts(l, "- Source: "@) {
        assert(l.subrange(0, 10)[2] == l[2]);
    }
    assert(l.subrange(0, 14) =~= "- Depends on: "@);
    assert(after(l, "- Depends on: "@) =~= j);
}

pub proof fn lemma_unless_line(c: ClaimView, j: Seq<char>)
    ensures
        claim_line(c, "- Unless: "@ + j) == (ClaimView { unless: comma_list(j), ..c }),
{
    reveal_strlit("- Source URL: ");
    reveal_strlit("- Source: ");
    reveal_strlit("- Depends on: ");
    reveal_strlit("- Unless: ");
    let l = "- Unless: "@ + j;
    if starts(l, "- Source URL: "@) {
        assert(l.subrange(0, 14)[2] == l[2]);
    }
    if starts(l, "- Source: "@) {
        assert(l.subrange(0, 10)[2] == l[2]);
    }
    if starts(l, "- Depends on: "@) {
        assert(l.subrange(0, 14)[2] == l[2]);
    }
    assert(l.subrange(0, 10) =~= "- Unless: "@);
    assert(after(l, "- Unless: "@) =~= j);
}

/// Lines free of newlines.
pub open spec fn lines_free(ls: Seq<Seq<char>>) -> bool {
    forall|k: int| 0 <= k < ls.len() ==> free_of(#[trigger] ls[k], Some('\n'))
}

/// What a node must be for its section to read back as its claim: no line
/// breaks in what is written; an id without spaces; a trimmed text that
/// does not read as an item, a claim or a section; a source and source URL
/// not ending in a carriage return; and lists whose items fit a
/// comma-separated list.
pub open spec fn node_safe(n: Node, js: Seq<Justification>) -> bool {
    &&& free_of(n.id@, Some('\n'))
    &&& free_of(n.id@, Some(' '))
    &&& free_of(md_kind(n, js), Some('\n'))
    &&& free_of(n.text@, Some('\n'))
    &&& trimmed(n.text@) == n.text@
    &&& !starts(n.text@, "- "@)
    &&& !starts(n.text@, "### "@)
    &&& !starts(n.text@, "## Claims"@)
    &&& !starts(n.text@, "## Repos"@)
    &&& !starts(n.text@, "## Nogoods"@)
    &&& free_of(n.source@, Some('\n'))
    &&& strip_cr(n.source@) == n.source@
    &&& free_of(n.source_url@, Some('\n'))
    &&& strip_cr(n.source_url@) == n.source_url@
    &&& list_safe(dedup(ants_of(js)))
    &&& lines_free(dedup(ants_of(js)))
    &&& list_safe(dedup(outs_of(js)))
    &&& lines_free(dedup(outs_of(js)))
}

pub proof fn lemma_strip_cr_cat(p: Seq<char>, k: Seq<char>)
    requires
        k.len() > 0,
    ensures
        strip_cr(p + k) == p + strip_cr(k),
{
    assert((p + k).last() == k.last());
    if k.last() == '\r' {
        assert((p + k).drop_last() =~= p + k.drop_last());
    }
}

pub proof fn lemma_join_last(items: Seq<Seq<char>>, sep: Seq<char>)
    requires
        items.len() > 0,
        items.last().len() > 0,
    ensures
        join_seq(items, sep).len() > 0,
        join_seq(items, sep).last() == items.last().last(),
{
}

/// Reading one line.
pub proof fn lemma_run_one(st: ReadState, x: Seq<char>)
    ensures
        run(st, seq![x]) == step(st, x),
{
    reveal_with_fuel(run, 2);
    assert(seq![x].drop_last() =~= Seq::<Seq<char>>::empty());
}

/// Reading an item line that may be absent.
pub proof fn lemma_run_opt(st: ReadState, ls: Seq<Seq<char>>)
    requires
        ls.len() <= 1,
    ensures
        run(st, stripped(ls)) == if ls.len() == 1 {
            step(st, strip_cr(ls[0]))
        } else {
            st
        },
{
    if ls.len() == 1 {
        assert(stripped(ls) =~= seq![strip_cr(ls[0])]);
        lemma_run_one(st, strip_cr(ls[0]));
    } else {
        assert(stripped(ls) =~= Seq::<Seq<char>>::empty());
    }
}

/// Reading an item line while a claim is read.
pub proof fn lemma_item_run(st: ReadState, c: ClaimView, label: Seq<char>, v: Seq<char>, ls: Seq<Seq<char>>)
    requires
        st.in_claims,
        !st.in_repos,
        !st.in_nogoods,
        st.cur == Some(c),
        label.len() >= 2,
        label[0] == '-',
        ls == (if v.len() > 0 { seq![label + v] } else { Seq::<Seq<char>>::empty() }),
        v.len() > 0 ==> strip_cr(label + v) == label + v,
    ensures
        run(st, stripped(ls)) == if v.len() > 0 {
            ReadState { cur: Some(claim_line(c, label + v)), ..st }
        } else {
            st
        },
{
    lemma_run_opt(st, ls);
    if v.len() > 0 {
        lemma_item_opens_nothing(label, v);
        lemma_claim_step(st, c, label + v);
    }
}

/// A node's section reads back as its claim, the one before it stored.
#[verifier::spinoff_prover]
#[verifier::rlimit(60)]
pub proof fn lemma_section_run(st: ReadState, n: Node, js: Seq<Justification>)
    requires
        st.in_claims,
        !st.in_repos,
        !st.in_nogoods,
        node_safe(n, js),
    ensures
        run(st, stripped(section_lines(n, js))) == (ReadState {
            cur: Some(claim_of(n, js)),
            claims: flushed(st),
            ..st
        }),
{
    reveal_strlit("### ");
    reveal_strlit("## Claims");
    reveal_strlit("## Repos");
    reveal_strlit("## Nogoods");
    reveal_strlit("- Source: ");
    reveal_strlit("- Source URL: ");
    reveal_strlit("- Depends on: ");
    reveal_strlit("- Unless: ");
    reveal_strlit("] ");
    let sw = md_status(n);
    let k = md_kind(n, js);
    let h = heading_line(n, js);
    let x = if k.len() > 0 { strip_cr(k) } else { k };
    let rest = n.id@ + " ["@ + sw + "] "@ + x;
    // the heading
    assert(strip_cr(h) == "### "@ + rest) by {
        if k.len() > 0 {
            lemma_strip_cr_cat("### "@ + n.id@ + " ["@ + sw + "] "@, k);
        } else {
            assert(h =~= "### "@ + n.id@ + " ["@ + sw + "] "@);
            assert(h.last() == ' ');
        }
        assert("### "@ + rest =~= "### "@ + n.id@ + " ["@ + sw + "] "@ + x);
    }
    let hl = "### "@ + rest;
    assert(hl[2] == '#');
    if starts(hl, "## Claims"@) {
        assert(hl.subrange(0, 9)[2] == hl[2]);
    }
    if starts(hl, "## Repos"@) {
        assert(hl.subrange(0, 8)[2] == hl[2]);
    }
    if starts(hl, "## Nogoods"@) {
        assert(hl.subrange(0, 10)[2] == hl[2]);
    }
    assert(hl.subrange(0, 4) =~= "### "@);
    assert(after(hl, "### "@) =~= rest);
    lemma_status_word(n);
    lemma_header_claim(n.id@, sw, x);
    let c0 = ClaimView {
        id: n.id@,
        status: Some(sw),
        text: Seq::empty(),
        source: Seq::empty(),
        source_url: Seq::empty(),
        depends: Seq::empty(),
        unless: Seq::empty(),
    };
    let s1 = ReadState { cur: Some(c0), claims: flushed(st), ..st };
    assert(step(st, hl) == s1);
    // the text and the blank line after it
    let t = n.text@;
    assert(strip_cr(t) == t) by {
        if t.len() > 0 {
            lemma_trimmed_start(t);
            lemma_trim_end_prefix(t);
            assert(!is_ws(t.last())) by {
                if is_ws(t.last()) {
                    assert(trim_end_seq(t) == trim_end_seq(t.drop_last()));
                    lemma_trim_end_prefix(t.drop_last());
                }
            }
        }
    }
    lemma_claim_step(s1, c0, t);
    lemma_text_line(c0, t);
    let c1 = ClaimView { text: t, ..c0 };
    let s2 = ReadState { cur: Some(c1), ..s1 };
    lemma_blank_line(c1);
    lemma_claim_step(s2, c1, Seq::empty());
    reveal_with_fuel(run, 4);
    let a = seq![h, t, Seq::<char>::empty()];
    assert(stripped(a) =~= seq![hl, t, Seq::<char>::empty()]);
    assert(run(st, stripped(a)) == s2);
    // the optional item lines
    let f1 = field_line("- Source: "@, n.source@);
    let f2 = field_line("- Source URL: "@, n.source_url@);
    let items1 = dedup(ants_of(js));
    let items2 = dedup(outs_of(js));
    let l1 = list_line("- Depends on: "@, items1);
    let l2 = list_line("- Unless: "@, items2);
    let z = seq![Seq::<char>::empty()];
    let c2 = ClaimView { source: n.source@, ..c1 };
    let s3 = ReadState { cur: Some(c2), ..s2 };
    if n.source@.len() > 0 {
        lemma_strip_cr_cat("- Source: "@, n.source@);
        lemma_source_line(c1, n.source@);
    } else {
        assert(n.source@ =~= Seq::<char>::empty());
        assert(c2 == c1);
    }
    lemma_item_run(s2, c1, "- Source: "@, n.source@, f1);
    assert(run(s2, stripped(f1)) == s3);
    let c3 = ClaimView { source_url: n.source_url@, ..c2 };
    let s4 = ReadState { cur: Some(c3), ..s3 };
    if n.source_url@.len() > 0 {
        lemma_strip_cr_cat("- Source URL: "@, n.source_url@);
        lemma_url_line(c2, n.source_url@);
    } else {
        assert(n.source_url@ =~= Seq::<char>::empty());
        assert(c3 == c2);
    }
    lemma_item_run(s3, c2, "- Source URL: "@, n.source_url@, f2);
    assert(run(s3, stripped(f2)) == s4);
    let j1 = if items1.len() > 0 { join_seq(items1, ", "@) } else { Seq::<char>::empty() };
    let c4 = ClaimView { depends: items1, ..c3 };
    let s5 = ReadState { cur: Some(c4), ..s4 };
    if items1.len() > 0 {
        assert(items1.last().len() > 0 && trimmed(items1.last()) == items1.last());
        lemma_trimmed_start(items1.last());
        lemma_join_last(items1, ", "@);
        assert(!is_ws(j1.last())) by {
            lemma_trim_end_prefix(items1.last());
            if is_ws(items1.last().last()) {
                assert(trim_end_seq(items1.last()) == trim_end_seq(items1.last().drop_last()));
                lemma_trim_end_prefix(items1.last().drop_last());
            }
        }
        lemma_strip_cr_cat("- Depends on: "@, j1);
        lemma_depends_line(c3, j1);
        lemma_comma_round_trip(items1);
        assert(l1 == seq!["- Depends on: "@ + j1]);
    } else {
        assert(l1 == Seq::<Seq<char>>::empty());
        assert(items1 =~= Seq::<Seq<char>>::empty());
        assert(c4 == c3);
    }
    lemma_item_run(s4, c3, "- Depends on: "@, j1, l1);
    assert(run(s4, stripped(l1)) == s5);
    let j2 = if items2.len() > 0 { join_seq(items2, ", "@) } else { Seq::<char>::empty() };
    let c5 = ClaimView { unless: items2, ..c4 };
    let s6 = ReadState { cur: Some(c5), ..s5 };
    if items2.len() > 0 {
        assert(items2.last().len() > 0 && trimmed(items2.last()) == items2.last());
        lemma_trimmed_start(items2.last());
        lemma_join_last(items2, ", "@);
        assert(!is_ws(j2.last())) by {
            lemma_trim_end_prefix(items2.last());
            if is_ws(items2.last().last()) {
                assert(trim_end_seq(items2.last()) == trim_end_seq(items2.last().drop_last()));
                lemma_trim_end_prefix(items2.last().drop_last());
            }
        }
        lemma_strip_cr_cat("- Unless: "@, j2);
        lemma_unless_line(c4, j2);
        lemma_comma_round_trip(items2);
        assert(l2 == seq!["- Unless: "@ + j2]);
    } else {
        assert(l2 == Seq::<Seq<char>>::empty());
        assert(items2 =~= Seq::<Seq<char>>::empty());
        assert(c5 == c4);
    }
    lemma_item_run(s5, c4, "- Unless: "@, j2, l2);
    assert(run(s5, stripped(l2)) == s6);
    lemma_blank_line(c5);
    lemma_claim_step(s6, c5, Seq::empty());
    lemma_run_one(s6, Seq::empty());
    assert(stripped(z) =~= seq![Seq::<char>::empty()]);
    assert(run(s6, stripped(z)) == s6);
    // putting the lines together
    lemma_stripped_cat(a, f1);
    lemma_stripped_cat(a + f1, f2);
    lemma_stripped_cat(a + f1 + f2, l1);
    lemma_stripped_cat(a + f1 + f2 + l1, l2);
    lemma_stripped_cat(a + f1 + f2 + l1 + l2, z);
    lemma_run_cat(st, stripped(a), stripped(f1));
    lemma_run_cat(st, stripped(a) + stripped(f1), stripped(f2));
    lemma_run_cat(st, stripped(a) + stripped(f1) + stripped(f2), stripped(l1));
    lemma_run_cat(st, stripped(a) + stripped(f1) + stripped(f2) + stripped(l1), stripped(l2));
    lemma_run_cat(st, stripped(a) + stripped(f1) + stripped(f2) + stripped(l1) + stripped(l2), stripped(z));
    assert(section_lines(n, js) == a + f1 + f2 + l1 + l2 + z);
    assert(c5 == claim_of(n, js));
}

/// Reading the nodes' sections one after another.
pub proof fn lemma_sections_run(st: ReadState, ns: Seq<Node>, all: Seq<Justification>)
    requires
        st.in_claims,
        !st.in_repos,
        !st.in_nogoods,
        forall|i: int| 0 <= i < ns.len() ==> node_safe(#[trigger] ns[i], justs_for(all, ns[i].id@)),
    ensures
        ({
            let r = run(st, stripped(sections_lines(ns, all)));
            &&& r.in_claims
            &&& !r.in_repos
            &&& !r.in_nogoods
            &&& r.repos == st.repos
            &&& flushed(r) == flushed(st) + ns.map_values(|n: Node| claim_of(n, justs_for(all, n.id@)))
        }),
    decreases ns.len(),
{
    let cs = ns.map_values(|n: Node| claim_of(n, justs_for(all, n.id@)));
    if ns.len() == 0 {
        assert(stripped(sections_lines(ns, all)) =~= Seq::<Seq<char>>::empty());
        assert(cs =~= Seq::<ClaimView>::empty());
        assert(flushed(st) + cs =~= flushed(st));
    } else {
        let init = ns.drop_last();
        let last = ns.last();
        assert forall|i: int| 0 <= i < init.len() implies node_safe(#[trigger] init[i], justs_for(all, init[i].id@)) by {
            assert(init[i] == ns[i]);
        }
        lemma_sections_run(st, init, all);
        let js = justs_for(all, last.id@);
        lemma_stripped_cat(sections_lines(init, all), section_lines(last, js));
        lemma_run_cat(st, stripped(sections_lines(init, all)), stripped(section_lines(last, js)));
        let r0 = run(st, stripped(sections_lines(init, all)));
        assert(node_safe(ns[ns.len() - 1], justs_for(all, ns[ns.len() - 1].id@)));
        lemma_section_run(r0, last, js);
        assert(cs =~= init.map_values(|n: Node| claim_of(n, justs_for(all, n.id@))).push(claim_of(last, js)));
        assert(flushed(st) + cs =~= (flushed(st) + init.map_values(|n: Node| claim_of(n, justs_for(all, n.id@)))).push(
            claim_of(last, js),
        ));
    }
}

pub proof fn lemma_pair_from_at(s: Seq<char>, i: int, j: int)
    requires
        0 <= i <= j,
        j + 1 < s.len(),
        s[j] == ':' && s[j + 1] == ' ',
        forall|m: int| i <= m < j ==> !(#[trigger] s[m] == ':' && s[m + 1] == ' '),
    ensures
        pair_from(s, i) == j,
    decreases j - i,
{
    if i < j {
        lemma_pair_from_at(s, i + 1, j);
    }
}

/// A repository that reads back from its line: no line breaks, a trimmed
/// name without `": "` in it, and a trimmed path.
pub open spec fn repo_safe(r: (String, String)) -> bool {
    &&& free_of(r.0@, Some('\n'))
    &&& free_of(r.1@, Some('\n'))
    &&& trimmed(r.0@) == r.0@
    &&& trimmed(r.1@) == r.1@
    &&& forall|m: int| 0 <= m < r.0@.len() - 1 ==> !(#[trigger] r.0@[m] == ':' && r.0@[m + 1] == ' ')
}

pub proof fn lemma_repo_entry(r: (String, String))
    requires
        repo_safe(r),
    ensures
        repo_entry("- "@ + r.0@ + ": "@ + r.1@) == Some((r.0@, r.1@)),
        strip_cr("- "@ + r.0@ + ": "@ + r.1@) == "- "@ + r.0@ + ": "@ + r.1@,
{
    reveal_strlit("- ");
    reveal_strlit(": ");
    let n = r.0@;
    let p = r.1@;
    let line = "- "@ + n + ": "@ + p;
    assert(line.subrange(0, 2) =~= "- "@);
    let rest = after(line, "- "@);
    assert(rest =~= n + ": "@ + p);
    assert forall|m: int| 0 <= m < n.len() implies !(#[trigger] rest[m] == ':' && rest[m + 1] == ' ') by {
        if m < n.len() - 1 {
            assert(rest[m] == n[m] && rest[m + 1] == n[m + 1]);
        } else {
            assert(rest[m + 1] == ':');
        }
    }
    lemma_pair_from_at(rest, 0, n.len() as int);
    assert(rest.subrange(0, n.len() as int) =~= n);
    assert(rest.subrange(n.len() as int + 2, rest.len() as int) =~= p);
    if p.len() > 0 {
        lemma_trimmed_start(p);
        lemma_trim_end_prefix(p);
        assert(!is_ws(p.last())) by {
            if is_ws(p.last()) {
                assert(trim_end_seq(p) == trim_end_seq(p.drop_last()));
                lemma_trim_end_prefix(p.drop_last());
            }
        }
        assert(line.last() == p.last());
    } else {
        assert(line.last() == ' ');
    }
}

/// Reading the repository lines adds each repository.
pub proof fn lemma_repos_run(st: ReadState, rs: Seq<(String, String)>)
    requires
        st.in_repos,
        forall|i: int| 0 <= i < rs.len() ==> repo_safe(#[trigger] rs[i]),
    ensures
        run(st, stripped(repo_line_list(rs))) == (ReadState {
            repos: st.repos + rs.map_values(|r: (String, String)| (r.0@, r.1@)),
            ..st
        }),
    decreases rs.len(),
{
    reveal_strlit("## Claims");
    reveal_strlit("## Repos");
    reveal_strlit("## Nogoods");
    let rv = rs.map_values(|r: (String, String)| (r.0@, r.1@));
    if rs.len() == 0 {
        assert(stripped(repo_line_list(rs)) =~= Seq::<Seq<char>>::empty());
        assert(st.repos + rv =~= st.repos);
    } else {
        let init = rs.drop_last();
        assert forall|i: int| 0 <= i < init.len() implies repo_safe(#[trigger] init[i]) by {
            assert(init[i] == rs[i]);
        }
        lemma_repos_run(st, init);
        let last = rs.last();
        assert(repo_safe(rs[rs.len() - 1]));
        let line = "- "@ + last.0@ + ": "@ + last.1@;
        assert(repo_line_list(rs) =~= repo_line_list(init).push(line));
        assert(stripped(repo_line_list(rs)) =~= stripped(repo_line_list(init)).push(strip_cr(line)));
        lemma_repo_entry(last);
        reveal_strlit("- ");
        assert(line[0] == '-');
        let s0 = run(st, stripped(repo_line_list(init)));
        let ls = stripped(repo_line_list(rs));
        assert(ls.drop_last() =~= stripped(repo_line_list(init)));
        assert(ls.last() == line);
        assert(run(st, ls) == step(s0, line));
        if starts(line, "## Claims"@) {
            assert(line.subrange(0, 9)[0] == line[0]);
        }
        if starts(line, "## Repos"@) {
            assert(line.subrange(0, 8)[0] == line[0]);
        }
        if starts(line, "## Nogoods"@) {
            assert(line.subrange(0, 10)[0] == line[0]);
        }
        assert(rv =~= init.map_values(|r: (String, String)| (r.0@, r.1@)).push((last.0@, last.1@)));
        assert(st.repos + rv =~= (st.repos + init.map_values(|r: (String, String)| (r.0@, r.1@))).push(
            (last.0@, last.1@),
        ));
        assert(step(s0, line) == ReadState { repos: s0.repos.push((last.0@, last.1@)), ..s0 });
    }
}

pub proof fn lemma_decimal_digits(n: nat)
    ensures
        decimal_seq(n).len() > 0,
        decimal_seq(n).last() != '\r',
    decreases n,
{
    if n >= 10 {
        lemma_decimal_digits(n / 10);
    }
}

/// The header lines end in no carriage return.
pub proof fn lemma_header_stripped(project: Seq<char>, updated: Seq<char>, count: nat, version: Seq<char>)
    ensures
        stripped(header_lines(project, updated, count, version)) == header_lines(project, updated, count, version),
{
    reveal_strlit("---");
    reveal_strlit("schema_version: \"1.0\"");
    reveal_strlit("\"");
    reveal_strlit("# Belief Registry");
    reveal_strlit("## Claims");
    lemma_decimal_digits(count);
    let h = header_lines(project, updated, count, version);
    assert(("project_name: \""@ + project + "\""@).last() == '"');
    assert(("updated_at: \""@ + updated + "\""@).last() == '"');
    assert(("node_count: "@ + decimal_seq(count)).last() == decimal_seq(count).last());
    assert(("generator: \"reasons/"@ + version + "\""@).last() == '"');
    assert forall|k: int| 0 <= k < h.len() implies strip_cr(#[trigger] h[k]) == h[k] by {}
    assert(stripped(h) =~= h);
}

/// The front matter is skipped: reading starts at the blank line after it.
pub proof fn lemma_front(project: Seq<char>, updated: Seq<char>, count: nat, version: Seq<char>, rest: Seq<Seq<char>>)
    ensures
        body_lines(header_lines(project, updated, count, version) + rest) == seq![
            Seq::<char>::empty(),
            "# Belief Registry"@,
            Seq::<char>::empty(),
            "## Claims"@,
            Seq::<char>::empty(),
        ] + rest,
{
    reveal_strlit("---");
    reveal_strlit("schema_version: \"1.0\"");
    reveal_strlit("project_name: \"");
    reveal_strlit("updated_at: \"");
    reveal_strlit("node_count: ");
    reveal_strlit("generator: \"reasons/");
    let h = header_lines(project, updated, count, version);
    let l = h + rest;
    assert(trimmed("---"@) == "---"@) by {
        lemma_trimmed_first("---"@);
        lemma_trim_start_keeps("---"@);
        assert(!is_ws("---"@.last()));
    }
    assert forall|k: int| 1 <= k <= 5 implies trimmed(#[trigger] l[k]) != "---"@ by {
        assert(l[k] == h[k]);
        assert(h[k].len() > 0 && !is_ws(h[k][0]) && h[k][0] != '-');
        lemma_trimmed_first(h[k]);
    }
    assert(l[0] == "---"@);
    assert(l[6] == "---"@);
    assert(fence_end(l, 6) == 6);
    assert(fence_end(l, 5) == 6);
    assert(fence_end(l, 4) == 6);
    assert(fence_end(l, 3) == 6);
    assert(fence_end(l, 2) == 6);
    assert(fence_end(l, 1) == 6);
    assert(l.subrange(7, l.len() as int) =~= seq![
        Seq::<char>::empty(),
        "# Belief Registry"@,
        Seq::<char>::empty(),
        "## Claims"@,
        Seq::<char>::empty(),
    ] + rest);
}

/// The state after the headings: reading claims, nothing read yet.
pub open spec fn claims_start() -> ReadState {
    ReadState { in_claims: true, ..start_state() }
}

pub proof fn lemma_headings_run()
    ensures
        run(
            start_state(),
            seq![Seq::<char>::empty(), "# Belief Registry"@, Seq::<char>::empty(), "## Claims"@, Seq::<char>::empty()],
        ) == claims_start(),
{
    reveal_strlit("# Belief Registry");
    reveal_strlit("## Claims");
    reveal_strlit("## Repos");
    reveal_strlit("## Nogoods");
    reveal_strlit("### ");
    reveal_with_fuel(run, 6);
    let b = "# Belief Registry"@;
    if starts(b, "## Claims"@) {
        assert(b.subrange(0, 9)[1] == b[1]);
    }
    if starts(b, "## Repos"@) {
        assert(b.subrange(0, 8)[1] == b[1]);
    }
    if starts(b, "## Nogoods"@) {
        assert(b.subrange(0, 10)[1] == b[1]);
    }
    if starts(b, "### "@) {
        assert(b.subrange(0, 4)[1] == b[1]);
    }
    assert("## Claims"@.subrange(0, 9) =~= "## Claims"@);
    let ls = seq![Seq::<char>::empty(), b, Seq::<char>::empty(), "## Claims"@, Seq::<char>::empty()];
    assert(ls.drop_last() =~= seq![Seq::<char>::empty(), b, Seq::<char>::empty(), "## Claims"@]);
    assert(ls.drop_last().drop_last() =~= seq![Seq::<char>::empty(), b, Seq::<char>::empty()]);
    assert(ls.drop_last().drop_last().drop_last() =~= seq![Seq::<char>::empty(), b]);
    assert(ls.drop_last().drop_last().drop_last().drop_last() =~= seq![Seq::<char>::empty()]);
    assert(seq![Seq::<char>::empty()].drop_last() =~= Seq::<Seq<char>>::empty());
}

/// A line that opens no section.
pub open spec fn inert(y: Seq<char>) -> bool {
    y.len() == 0 || y[0] == '-' || (y.len() >= 3 && y[2] == '#')
}

pub proof fn lemma_inert_run(st: ReadState, ls: Seq<Seq<char>>)
    requires
        st.in_nogoods,
        !st.in_repos,
        forall|k: int| 0 <= k < ls.len() ==> inert(#[trigger] ls[k]),
    ensures
        run(st, ls) == st,
    decreases ls.len(),
{
    reveal_strlit("## Claims");
    reveal_strlit("## Repos");
    reveal_strlit("## Nogoods");
    if ls.len() > 0 {
        let init = ls.drop_last();
        assert forall|k: int| 0 <= k < init.len() implies inert(#[trigger] init[k]) by {
            assert(init[k] == ls[k]);
        }
        lemma_inert_run(st, init);
        let y = ls.last();
        assert(inert(ls[ls.len() - 1]));
        if starts(y, "## Claims"@) {
            assert(y.subrange(0, 9)[0] == y[0]);
            assert(y.subrange(0, 9)[2] == y[2]);
        }
        if starts(y, "## Repos"@) {
            assert(y.subrange(0, 8)[0] == y[0]);
            assert(y.subrange(0, 8)[2] == y[2]);
        }
        if starts(y, "## Nogoods"@) {
            assert(y.subrange(0, 10)[0] == y[0]);
            assert(y.subrange(0, 10)[2] == y[2]);
        }
    }
}

/// An item line stays an item line when a carriage return is taken off.
pub proof fn lemma_item_inert(label: Seq<char>, v: Seq<char>)
    requires
        label.len() >= 2,
        label[0] == '-',
        label.last() == ' ',
    ensures
        inert(strip_cr(label + v)),
{
    if v.len() > 0 {
        lemma_strip_cr_cat(label, v);
        assert((label + strip_cr(v))[0] == '-');
    } else {
        assert((label + v).last() == ' ');
        assert((label + v)[0] == '-');
    }
}

/// A contradiction's section opens nothing.
pub proof fn lemma_nogood_inert(st: ReadState, g: Nogood)
    requires
        st.in_nogoods,
        !st.in_repos,
    ensures
        run(st, stripped(nogood_lines(g))) == st,
{
    reveal_strlit("### ");
    reveal_strlit("- Discovered: ");
    reveal_strlit("- Resolution: ");
    reveal_strlit("- Affects: ");
    let hd = "### "@ + g.id@;
    assert(inert(strip_cr(hd))) by {
        if g.id@.len() > 0 {
            lemma_strip_cr_cat("### "@, g.id@);
            assert(("### "@ + strip_cr(g.id@))[2] == '#');
        } else {
            assert(hd.last() == ' ');
            assert(hd[2] == '#');
        }
    }
    let f1 = field_line("- Discovered: "@, g.discovered@);
    let f2 = field_line("- Resolution: "@, g.resolution@);
    let aff = "- Affects: "@ + join_seq(views(g.nodes@), ", "@);
    let z = seq![aff, Seq::<char>::empty()];
    lemma_item_inert("- Discovered: "@, g.discovered@);
    lemma_item_inert("- Resolution: "@, g.resolution@);
    lemma_item_inert("- Affects: "@, join_seq(views(g.nodes@), ", "@));
    let ls = stripped(nogood_lines(g));
    assert(nogood_lines(g) == seq![hd] + f1 + f2 + z);
    assert forall|k: int| 0 <= k < ls.len() implies inert(#[trigger] ls[k]) by {
        let a = seq![hd] + f1 + f2 + z;
        assert(ls[k] == strip_cr(a[k]));
        if k == 0 {
        } else if k < 1 + f1.len() {
            assert(a[k] == f1[k - 1]);
        } else if k < 1 + f1.len() + f2.len() {
            assert(a[k] == f2[k - 1 - f1.len()]);
        } else {
            assert(a[k] == z[k - 1 - f1.len() - f2.len()]);
        }
    }
    lemma_inert_run(st, ls);
}

pub proof fn lemma_nogoods_inert(st: ReadState, ngs: Seq<Nogood>)
    requires
        st.in_nogoods,
        !st.in_repos,
    ensures
        run(st, stripped(nogoods_lines(ngs))) == st,
    decreases ngs.len(),
{
    if ngs.len() == 0 {
        assert(stripped(nogoods_lines(ngs)) =~= Seq::<Seq<char>>::empty());
    } else {
        lemma_nogoods_inert(st, ngs.drop_last());
        lemma_stripped_cat(nogoods_lines(ngs.drop_last()), nogood_lines(ngs.last()));
        lemma_run_cat(st, stripped(nogoods_lines(ngs.drop_last())), stripped(nogood_lines(ngs.last())));
        lemma_nogood_inert(st, ngs.last());
    }
}

/// A contradiction written without line breaks.
pub open spec fn nogood_safe(g: Nogood) -> bool {
    &&& free_of(g.id@, Some('\n'))
    &&& free_of(g.discovered@, Some('\n'))
    &&& free_of(g.resolution@, Some('\n'))
    &&& lines_free(views(g.nodes@))
}

/// Everything written fits the registry (see `node_safe`, `repo_safe`
/// and `nogood_safe`), and the front matter holds no line break.
pub open spec fn md_safe(
    project: Seq<char>,
    updated: Seq<char>,
    version: Seq<char>,
    nodes: Seq<Node>,
    justs: Seq<Justification>,
    nogoods: Seq<Nogood>,
    repos: Seq<(String, String)>,
) -> bool {
    &&& free_of(project, Some('\n'))
    &&& free_of(updated, Some('\n'))
    &&& free_of(version, Some('\n'))
    &&& forall|i: int| 0 <= i < nodes.len() ==> node_safe(#[trigger] nodes[i], justs_for(justs, nodes[i].id@))
    &&& forall|i: int| 0 <= i < repos.len() ==> repo_safe(#[trigger] repos[i])
    &&& forall|i: int| 0 <= i < nogoods.len() ==> nogood_safe(#[trigger] nogoods[i])
}

pub proof fn lemma_lines_free_cat(a: Seq<Seq<char>>, b: Seq<Seq<char>>)
    requires
        lines_free(a),
        lines_free(b),
    ensures
        lines_free(a + b),
{
    assert forall|k: int| 0 <= k < (a + b).len() implies free_of(#[trigger] (a + b)[k], Some('\n')) by {
        if k < a.len() {
            assert((a + b)[k] == a[k]);
        } else {
            assert((a + b)[k] == b[k - a.len()]);
        }
    }
}

/// A literal without a line break.
pub proof fn lemma_lit_free(s: Seq<char>)
    requires
        forall|i: int| 0 <= i < s.len() ==> s[i] != '\n',
    ensures
        free_of(s, Some('\n')),
{
}

pub proof fn lemma_free3(a: Seq<char>, b: Seq<char>, c: Seq<char>)
    requires
        free_of(a, Some('\n')),
        free_of(b, Some('\n')),
        free_of(c, Some('\n')),
    ensures
        free_of(a + b + c, Some('\n')),
{
    lemma_free_cat(a, b, Some('\n'));
    lemma_free_cat(a + b, c, Some('\n'));
}

pub proof fn lemma_header_free(project: Seq<char>, updated: Seq<char>, count: nat, version: Seq<char>)
    requires
        free_of(project, Some('\n')),
        free_of(updated, Some('\n')),
        free_of(version, Some('\n')),
    ensures
        lines_free(header_lines(project, updated, count, version)),
{
    reveal_strlit("---");
    reveal_strlit("schema_version: \"1.0\"");
    reveal_strlit("project_name: \"");
    reveal_strlit("updated_at: \"");
    reveal_strlit("node_count: ");
    reveal_strlit("generator: \"reasons/");
    reveal_strlit("\"");
    reveal_strlit("# Belief Registry");
    reveal_strlit("## Claims");
    lemma_lit_free("project_name: \""@);
    lemma_lit_free("updated_at: \""@);
    lemma_lit_free("node_count: "@);
    lemma_lit_free("generator: \"reasons/"@);
    lemma_lit_free("\""@);
    lemma_lit_free("---"@);
    lemma_lit_free("schema_version: \"1.0\""@);
    lemma_lit_free("# Belief Registry"@);
    lemma_lit_free("## Claims"@);
    lemma_free3("project_name: \""@, project, "\""@);
    lemma_free3("updated_at: \""@, updated, "\""@);
    lemma_free3("generator: \"reasons/"@, version, "\""@);
    lemma_decimal_free(count);
    lemma_free_cat("node_count: "@, decimal_seq(count), Some('\n'));
    let h = header_lines(project, updated, count, version);
    assert forall|k: int| 0 <= k < h.len() implies free_of(#[trigger] h[k], Some('\n')) by {}
}

pub proof fn lemma_section_free(n: Node, js: Seq<Justification>)
    requires
        node_safe(n, js),
    ensures
        lines_free(section_lines(n, js)),
{
    reveal_strlit("### ");
    reveal_strlit(" [");
    reveal_strlit("] ");
    reveal_strlit("- Source: ");
    reveal_strlit("- Source URL: ");
    reveal_strlit("- Depends on: ");
    reveal_strlit("- Unless: ");
    reveal_strlit(", ");
    reveal_strlit("IN");
    reveal_strlit("OUT");
    reveal_strlit("STALE");
    lemma_lit_free("### "@);
    lemma_lit_free(" ["@);
    lemma_lit_free("] "@);
    lemma_lit_free("- Source: "@);
    lemma_lit_free("- Source URL: "@);
    lemma_lit_free("- Depends on: "@);
    lemma_lit_free("- Unless: "@);
    lemma_lit_free(", "@);
    lemma_lit_free(md_status(n));
    lemma_free3("### "@, n.id@, " ["@);
    lemma_free3("### "@ + n.id@ + " ["@, md_status(n), "] "@);
    lemma_free_cat("### "@ + n.id@ + " ["@ + md_status(n) + "] "@, md_kind(n, js), Some('\n'));
    lemma_free_cat("- Source: "@, n.source@, Some('\n'));
    lemma_free_cat("- Source URL: "@, n.source_url@, Some('\n'));
    lemma_free_join(dedup(ants_of(js)), ", "@, Some('\n'));
    lemma_free_join(dedup(outs_of(js)), ", "@, Some('\n'));
    lemma_free_cat("- Depends on: "@, join_seq(dedup(ants_of(js)), ", "@), Some('\n'));
    lemma_free_cat("- Unless: "@, join_seq(dedup(outs_of(js)), ", "@), Some('\n'));
    let a = seq![heading_line(n, js), n.text@, Seq::<char>::empty()];
    let f1 = field_line("- Source: "@, n.source@);
    let f2 = field_line("- Source URL: "@, n.source_url@);
    let l1 = list_line("- Depends on: "@, dedup(ants_of(js)));
    let l2 = list_line("- Unless: "@, dedup(outs_of(js)));
    let z = seq![Seq::<char>::empty()];
    assert(lines_free(a)) by {
        assert forall|k: int| 0 <= k < a.len() implies free_of(#[trigger] a[k], Some('\n')) by {}
    }
    assert(lines_free(f1));
    assert(lines_free(f2));
    assert(lines_free(l1));
    assert(lines_free(l2));
    assert(lines_free(z));
    lemma_lines_free_cat(a, f1);
    lemma_lines_free_cat(a + f1, f2);
    lemma_lines_free_cat(a + f1 + f2, l1);
    lemma_lines_free_cat(a + f1 + f2 + l1, l2);
    lemma_lines_free_cat(a + f1 + f2 + l1 + l2, z);
    assert(section_lines(n, js) == a + f1 + f2 + l1 + l2 + z);
}

pub proof fn lemma_sections_free(ns: Seq<Node>, all: Seq<Justification>)
    requires
        forall|i: int| 0 <= i < ns.len() ==> node_safe(#[trigger] ns[i], justs_for(all, ns[i].id@)),
    ensures
        lines_free(sections_lines(ns, all)),
    decreases ns.len(),
{
    if ns.len() > 0 {
        let init = ns.drop_last();
        assert forall|i: int| 0 <= i < init.len() implies node_safe(#[trigger] init[i], justs_for(all, init[i].id@)) by {
            assert(init[i] == ns[i]);
        }
        lemma_sections_free(init, all);
        assert(node_safe(ns[ns.len() - 1], justs_for(all, ns[ns.len() - 1].id@)));
        lemma_section_free(ns.last(), justs_for(all, ns.last().id@));
        lemma_lines_free_cat(sections_lines(init, all), section_lines(ns.last(), justs_for(all, ns.last().id@)));
    } else {
        assert(lines_free(sections_lines(ns, all)));
    }
}

pub proof fn lemma_repos_free(rs: Seq<(String, String)>)
    requires
        forall|i: int| 0 <= i < rs.len() ==> repo_safe(#[trigger] rs[i]),
    ensures
        lines_free(repo_line_list(rs)),
{
    reveal_strlit("- ");
    reveal_strlit(": ");
    lemma_lit_free("- "@);
    lemma_lit_free(": "@);
    let ls = repo_line_list(rs);
    assert forall|k: int| 0 <= k < ls.len() implies free_of(#[trigger] ls[k], Some('\n')) by {
        assert(repo_safe(rs[k]));
        lemma_free3("- "@, rs[k].0@, ": "@);
        lemma_free_cat("- "@ + rs[k].0@ + ": "@, rs[k].1@, Some('\n'));
    }
}

pub proof fn lemma_nogood_free(g: Nogood)
    requires
        nogood_safe(g),
    ensures
        lines_free(nogood_lines(g)),
{
    reveal_strlit("### ");
    reveal_strlit("- Discovered: ");
    reveal_strlit("- Resolution: ");
    reveal_strlit("- Affects: ");
    reveal_strlit(", ");
    lemma_lit_free("### "@);
    lemma_lit_free("- Discovered: "@);
    lemma_lit_free("- Resolution: "@);
    lemma_lit_free("- Affects: "@);
    lemma_lit_free(", "@);
    lemma_free_cat("### "@, g.id@, Some('\n'));
    lemma_free_cat("- Discovered: "@, g.discovered@, Some('\n'));
    lemma_free_cat("- Resolution: "@, g.resolution@, Some('\n'));
    lemma_free_join(views(g.nodes@), ", "@, Some('\n'));
    lemma_free_cat("- Affects: "@, join_seq(views(g.nodes@), ", "@), Some('\n'));
    let a = seq!["### "@ + g.id@];
    let f1 = field_line("- Discovered: "@, g.discovered@);
    let f2 = field_line("- Resolution: "@, g.resolution@);
    let z = seq!["- Affects: "@ + join_seq(views(g.nodes@), ", "@), Seq::<char>::empty()];
    assert(lines_free(a));
    assert(lines_free(f1));
    assert(lines_free(f2));
    assert(lines_free(z)) by {
        assert forall|k: int| 0 <= k < z.len() implies free_of(#[trigger] z[k], Some('\n')) by {}
    }
    lemma_lines_free_cat(a, f1);
    lemma_lines_free_cat(a + f1, f2);
    lemma_lines_free_cat(a + f1 + f2, z);
    assert(nogood_lines(g) == a + f1 + f2 + z);
}

pub proof fn lemma_nogoods_free(ngs: Seq<Nogood>)
    requires
        forall|i: int| 0 <= i < ngs.len() ==> nogood_safe(#[trigger] ngs[i]),
    ensures
        lines_free(nogoods_lines(ngs)),
    decreases ngs.len(),
{
    if ngs.len() > 0 {
        let init = ngs.drop_last();
        assert forall|i: int| 0 <= i < init.len() implies nogood_safe(#[trigger] init[i]) by {
            assert(init[i] == ngs[i]);
        }
        lemma_nogoods_free(init);
        assert(nogood_safe(ngs[ngs.len() - 1]));
        lemma_nogood_free(ngs.last());
        lemma_lines_free_cat(nogoods_lines(init), nogood_lines(ngs.last()));
    } else {
        assert(lines_free(nogoods_lines(ngs)));
    }
}

/// The lines of the repositories part (none when there are none).
pub open spec fn repos_part(repos: Seq<(String, String)>) -> Seq<Seq<char>> {
    if repos.len() > 0 {
        seq!["## Repos"@, Seq::empty()] + repo_line_list(repos) + seq![Seq::<char>::empty()]
    } else {
        Seq::empty()
    }
}

/// The lines of the contradictions part (none when there are none).
pub open spec fn nogoods_part(nogoods: Seq<Nogood>) -> Seq<Seq<char>> {
    if nogoods.len() > 0 {
        seq!["## Nogoods"@, Seq::<char>::empty()] + nogoods_lines(nogoods)
    } else {
        Seq::empty()
    }
}

pub proof fn lemma_doc_lines_free(
    project: Seq<char>,
    updated: Seq<char>,
    version: Seq<char>,
    nodes: Seq<Node>,
    justs: Seq<Justification>,
    nogoods: Seq<Nogood>,
    repos: Seq<(String, String)>,
)
    requires
        md_safe(project, updated, version, nodes, justs, nogoods, repos),
    ensures
        lines_free(doc_lines(project, updated, version, nodes, justs, nogoods, repos)),
{
    let h = header_lines(project, updated, nodes.len(), version);
    let sl = sections_lines(nodes, justs);
    let rl = repos_part(repos);
    let gl = nogoods_part(nogoods);
    lemma_header_free(project, updated, nodes.len(), version);
    lemma_sections_free(nodes, justs);
    assert(lines_free(rl)) by {
        if repos.len() > 0 {
            reveal_strlit("## Repos");
            lemma_lit_free("## Repos"@);
            lemma_repos_free(repos);
            let r0 = seq!["## Repos"@, Seq::<char>::empty()];
            assert(lines_free(r0)) by {
                assert forall|k: int| 0 <= k < r0.len() implies free_of(#[trigger] r0[k], Some('\n')) by {}
            }
            lemma_lines_free_cat(r0, repo_line_list(repos));
            lemma_lines_free_cat(r0 + repo_line_list(repos), seq![Seq::<char>::empty()]);
        }
    }
    assert(lines_free(gl)) by {
        if nogoods.len() > 0 {
            reveal_strlit("## Nogoods");
            lemma_lit_free("## Nogoods"@);
            lemma_nogoods_free(nogoods);
            let g0 = seq!["## Nogoods"@, Seq::<char>::empty()];
            assert(lines_free(g0)) by {
                assert forall|k: int| 0 <= k < g0.len() implies free_of(#[trigger] g0[k], Some('\n')) by {}
            }
            lemma_lines_free_cat(g0, nogoods_lines(nogoods));
        }
    }
    lemma_lines_free_cat(h, sl);
    lemma_lines_free_cat(h + sl, rl);
    lemma_lines_free_cat(h + sl + rl, gl);
    assert(doc_lines(project, updated, version, nodes, justs, nogoods, repos) == h + sl + rl + gl);
}

/// Reading the repositories part stores the claim being read and adds
/// every repository.
#[verifier::spinoff_prover]
pub proof fn lemma_repos_part_run(r1: ReadState, repos: Seq<(String, String)>)
    requires
        !r1.in_repos,
        !r1.in_nogoods,
        forall|i: int| 0 <= i < repos.len() ==> repo_safe(#[trigger] repos[i]),
    ensures
        ({
            let r2 = run(r1, stripped(repos_part(repos)));
            &&& flushed(r2) == flushed(r1)
            &&& r2.repos == r1.repos + repos.map_values(|r: (String, String)| (r.0@, r.1@))
            &&& !r2.in_nogoods
        }),
{
    reveal_strlit("## Claims");
    reveal_strlit("## Repos");
    let rv = repos.map_values(|r: (String, String)| (r.0@, r.1@));
    let rl = repos_part(repos);
    if repos.len() > 0 {
        let r0 = seq!["## Repos"@, Seq::<char>::empty()];
        let z = seq![Seq::<char>::empty()];
        lemma_stripped_cat(r0, repo_line_list(repos));
        lemma_stripped_cat(r0 + repo_line_list(repos), z);
        assert(stripped(r0) =~= r0);
        assert(stripped(z) =~= z);
        lemma_run_cat(r1, r0, stripped(repo_line_list(repos)));
        lemma_run_cat(r1, r0 + stripped(repo_line_list(repos)), z);
        let ra = ReadState { in_claims: false, in_repos: true, in_nogoods: false, cur: None, claims: flushed(r1), ..r1 };
        reveal_with_fuel(run, 3);
        assert(r0.drop_last() =~= seq!["## Repos"@]);
        assert(seq!["## Repos"@].drop_last() =~= Seq::<Seq<char>>::empty());
        let rp = "## Repos"@;
        if starts(rp, "## Claims"@) {
            assert(rp.subrange(0, 9)[3] == rp[3]);
        }
        assert(rp.subrange(0, 8) =~= "## Repos"@);
        assert(step(r1, rp) == ra);
        assert(repo_entry(Seq::empty()) is None);
        lemma_blank_line(ClaimView {
            id: Seq::empty(),
            status: None,
            text: Seq::empty(),
            source: Seq::empty(),
            source_url: Seq::empty(),
            depends: Seq::empty(),
            unless: Seq::empty(),
        });
        assert(step(ra, Seq::empty()) == ra);
        assert(run(r1, seq!["## Repos"@]) == ra);
        assert(run(r1, r0) == ra);
        lemma_repos_run(ra, repos);
        let rb = ReadState { repos: ra.repos + rv, ..ra };
        lemma_run_one(rb, Seq::empty());
        assert(run(rb, z) == rb);
        assert(stripped(rl) == r0 + stripped(repo_line_list(repos)) + z);
        assert(run(r1, stripped(rl)) == rb);
    } else {
        assert(stripped(rl) =~= Seq::<Seq<char>>::empty());
        assert(rv =~= Seq::<(Seq<char>, Seq<char>)>::empty());
        assert(r1.repos + rv =~= r1.repos);
    }
}

/// Reading the contradictions part stores the claim being read and
/// changes nothing else that is read.
#[verifier::spinoff_prover]
pub proof fn lemma_nogoods_part_run(r2: ReadState, nogoods: Seq<Nogood>)
    requires
        !r2.in_nogoods,
    ensures
        ({
            let r3 = run(r2, stripped(nogoods_part(nogoods)));
            &&& flushed(r3) == flushed(r2)
            &&& r3.repos == r2.repos
        }),
{
    reveal_strlit("## Claims");
    reveal_strlit("## Repos");
    reveal_strlit("## Nogoods");
    let gl = nogoods_part(nogoods);
    if nogoods.len() > 0 {
        let g0 = seq!["## Nogoods"@, Seq::<char>::empty()];
        lemma_stripped_cat(g0, nogoods_lines(nogoods));
        assert(stripped(g0) =~= g0);
        lemma_run_cat(r2, g0, stripped(nogoods_lines(nogoods)));
        let ga = ReadState { in_claims: false, in_repos: false, in_nogoods: true, cur: None, claims: flushed(r2), ..r2 };
        reveal_with_fuel(run, 3);
        assert(g0.drop_last() =~= seq!["## Nogoods"@]);
        assert(seq!["## Nogoods"@].drop_last() =~= Seq::<Seq<char>>::empty());
        let gp = "## Nogoods"@;
        if starts(gp, "## Claims"@) {
            assert(gp.subrange(0, 9)[3] == gp[3]);
        }
        if starts(gp, "## Repos"@) {
            assert(gp.subrange(0, 8)[3] == gp[3]);
        }
        assert(gp.subrange(0, 10) =~= "## Nogoods"@);
        assert(step(r2, gp) == ga);
        assert(run(r2, g0) == ga);
        lemma_nogoods_inert(ga, nogoods);
    } else {
        assert(stripped(gl) =~= Seq::<Seq<char>>::empty());
    }
}

/// Reading back the markdown registry that export writes gives every node
/// as a claim, in order: its id, the status it was written with, its text,
/// source and source URL, and the antecedents and out-list nodes of its
/// justifications (each once, in order); and every repository. This holds
/// whenever what is written fits the registry (see `md_safe`).
#[verifier::spinoff_prover]
#[verifier::rlimit(40)]
pub proof fn law_markdown_round_trip(
    project: Seq<char>,
    updated: Seq<char>,
    version: Seq<char>,
    nodes: Seq<Node>,
    justs: Seq<Justification>,
    nogoods: Seq<Nogood>,
    repos: Seq<(String, String)>,
)
    requires
        md_safe(project, updated, version, nodes, justs, nogoods, repos),
    ensures
        parsed(markdown_doc(project, updated, version, nodes, justs, nogoods, repos)).0 == nodes.map_values(
            |n: Node| claim_of(n, justs_for(justs, n.id@)),
        ),
        parsed(markdown_doc(project, updated, version, nodes, justs, nogoods, repos)).1 == repos.map_values(
            |r: (String, String)| (r.0@, r.1@),
        ),
{
    let h = header_lines(project, updated, nodes.len(), version);
    let sl = sections_lines(nodes, justs);
    let rl = repos_part(repos);
    let gl = nogoods_part(nogoods);
    let dl = doc_lines(project, updated, version, nodes, justs, nogoods, repos);
    let rest = sl + rl + gl;
    assert(dl == h + rest);
    lemma_doc_block(project, updated, version, nodes, justs, nogoods, repos);
    lemma_doc_lines_free(project, updated, version, nodes, justs, nogoods, repos);
    lemma_lines_of_block(dl);
    lemma_stripped_cat(h, rest);
    lemma_header_stripped(project, updated, nodes.len(), version);
    lemma_front(project, updated, nodes.len(), version, stripped(rest));
    let b5 = seq![Seq::<char>::empty(), "# Belief Registry"@, Seq::<char>::empty(), "## Claims"@, Seq::<char>::empty()];
    lemma_run_cat(start_state(), b5, stripped(rest));
    lemma_headings_run();
    lemma_stripped_cat(sl, rl + gl);
    lemma_stripped_cat(rl, gl);
    lemma_run_cat(claims_start(), stripped(sl), stripped(rl) + stripped(gl));
    lemma_sections_run(claims_start(), nodes, justs);
    let r1 = run(claims_start(), stripped(sl));
    lemma_run_cat(r1, stripped(rl), stripped(gl));
    lemma_repos_part_run(r1, repos);
    let r2 = run(r1, stripped(rl));
    lemma_nogoods_part_run(r2, nogoods);
    let r3 = run(r2, stripped(gl));
    let doc = markdown_doc(project, updated, version, nodes, justs, nogoods, repos);
    assert(lines_of(doc) == stripped(dl));
    assert(stripped(dl) == h + stripped(rest));
    assert(body_lines(lines_of(doc)) == b5 + stripped(rest));
    assert(rest =~= sl + (rl + gl));
    assert(stripped(rest) == stripped(sl) + (stripped(rl) + stripped(gl)));
    assert(run(start_state(), body_lines(lines_of(doc))) == run(claims_start(), stripped(rest)));
    assert(run(claims_start(), stripped(rest)) == r3);
    assert(parsed(doc) == (flushed(r3), r3.repos));
    let cs = nodes.map_values(|n: Node| claim_of(n, justs_for(justs, n.id@)));
    assert(flushed(claims_start()) =~= Seq::<ClaimView>::empty());
    assert(flushed(claims_start()) + cs =~= cs);
    assert(r1.repos =~= Seq::<(Seq<char>, Seq<char>)>::empty());
    assert(r1.repos + repos.map_values(|r: (String, String)| (r.0@, r.1@)) =~= repos.map_values(
        |r: (String, String)| (r.0@, r.1@),
    ));
}

} // verus!
