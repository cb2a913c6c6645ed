//! Reading a beliefs registry written in markdown: claims with their
//! status, text, sources and dependencies, and the repository list.
use vstd::prelude::*;
use crate::text::{
    chars_of, comma_items, comma_list, lines, lines_of, owned, split_ranges, split_seq, starts, starts_with,
    str_eq, string_of, trim, trim_range, trimmed, push_char, copy_strings,
};
use crate::model::{in_tv, out_tv};
use crate::types::{newly_made, views, Justification, Node};

verus! {

/// A claim as a beliefs file states it.
pub struct Claim {
    pub id: String,
    pub status: Option<String>,
    pub text: String,
    pub source: String,
    pub source_url: String,
    pub depends: Vec<String>,
    pub unless: Vec<String>,
}

/// A claim as plain character sequences.
pub struct ClaimView {
    pub id: Seq<char>,
    pub status: Option<Seq<char>>,
    pub text: Seq<char>,
    pub source: Seq<char>,
    pub source_url: Seq<char>,
    pub depends: Seq<Seq<char>>,
    pub unless: Seq<Seq<char>>,
}

pub open spec fn opt_str(o: Option<String>) -> Option<Seq<char>> {
    match o {
        Some(s) => Some(s@),
        None => None,
    }
}

impl View for Claim {
    type V = ClaimView;

    open spec fn view(&self) -> ClaimView {
        ClaimView {
            id: self.id@,
            status: opt_str(self.status),
            text: self.text@,
            source: self.source@,
            source_url: self.source_url@,
            depends: views(self.depends@),
            unless: views(self.unless@),
        }
    }
}

/// The claims and repositories read from a beliefs file.
pub struct BeliefsDoc {
    pub claims: Vec<Claim>,
    pub repos: Vec<(String, String)>,
}

pub open spec fn claim_views(cs: Seq<Claim>) -> Seq<ClaimView> {
    cs.map_values(|c: Claim| c@)
}

pub open spec fn repo_views(rs: Seq<(String, String)>) -> Seq<(Seq<char>, Seq<char>)> {
    rs.map_values(|p: (String, String)| (p.0@, p.1@))
}

/// Where the reader stands after some lines: which section it is in, the
/// claim being read, and what it has read so far.
pub struct ReadState {
    pub in_claims: bool,
    pub in_repos: bool,
    pub in_nogoods: bool,
    pub cur: Option<ClaimView>,
    pub claims: Seq<ClaimView>,
    pub repos: Seq<(Seq<char>, Seq<char>)>,
}

pub open spec fn start_state() -> ReadState {
    ReadState {
        in_claims: false,
        in_repos: false,
        in_nogoods: false,
        cur: None,
        claims: Seq::empty(),
        repos: Seq::empty(),
    }
}

/// The claims read, the one being read included.
pub open spec fn flushed(st: ReadState) -> Seq<ClaimView> {
    match st.cur {
        Some(c) => st.claims.push(c),
        None => st.claims,
    }
}

/// Leading `[` taken off.
pub open spec fn strip_open(s: Seq<char>) -> Seq<char>
    decreases s.len(),
{
    if s.len() > 0 && s[0] == '[' {
        strip_open(s.drop_first())
    } else {
        s
    }
}

/// Trailing `]` taken off.
pub open spec fn strip_close(s: Seq<char>) -> Seq<char>
    decreases s.len(),
{
    if s.len() > 0 && s.last() == ']' {
        strip_close(s.drop_last())
    } else {
        s
    }
}

/// A new claim from a header `id [status] ...` (the text after `### `):
/// the id is the text before the first space, the status the word after
/// it with its brackets taken off.
pub open spec fn header_claim(h: Seq<char>) -> ClaimView {
    let ps = split_seq(h, Some(' '));
    ClaimView {
        id: ps[0],
        status: if ps.len() > 1 {
            Some(strip_close(strip_open(ps[1])))
        } else {
            None
        },
        text: Seq::empty(),
        source: Seq::empty(),
        source_url: Seq::empty(),
        depends: Seq::empty(),
        unless: Seq::empty(),
    }
}

/// The first position from `i` on where `": "` starts, or -1.
pub open spec fn pair_from(s: Seq<char>, i: int) -> int
    decreases s.len() - i,
{
    if i < 0 || i + 1 >= s.len() {
        -1
    } else if s[i] == ':' && s[i + 1] == ' ' {
        i
    } else {
        pair_from(s, i + 1)
    }
}

pub proof fn lemma_pair_from(s: Seq<char>, i: int)
    ensures
        pair_from(s, i) == -1 || (0 <= i <= pair_from(s, i) && pair_from(s, i) + 1 < s.len()),
    decreases s.len() - i,
{
    if !(i < 0 || i + 1 >= s.len()) && !(s[i] == ':' && s[i + 1] == ' ') {
        lemma_pair_from(s, i + 1);
    }
}

/// The rest of `line` after `p`.
pub open spec fn after(line: Seq<char>, p: Seq<char>) -> Seq<char> {
    line.subrange(p.len() as int, line.len() as int)
}

/// A repository line `- name: path`, both parts trimmed.
pub open spec fn repo_entry(line: Seq<char>) -> Option<(Seq<char>, Seq<char>)> {
    if starts(line, "- "@) {
        let rest = after(line, "- "@);
        let k = pair_from(rest, 0);
        if k >= 0 {
            Some((trimmed(rest.subrange(0, k)), trimmed(rest.subrange(k + 2, rest.len() as int))))
        } else {
            None
        }
    } else {
        None
    }
}

/// The claim text with one more line: a space between when both are
/// non-empty, then the line trimmed.
pub open spec fn add_text(text: Seq<char>, line: Seq<char>) -> Seq<char> {
    (if text.len() > 0 && line.len() > 0 {
        text.push(' ')
    } else {
        text
    }) + trimmed(line)
}

/// A line within a claim: a source, source URL, dependency or exception
/// list, or (unless it is another `- ` item) more text.
pub open spec fn claim_line(c: ClaimView, line: Seq<char>) -> ClaimView {
    if starts(line, "- Source URL: "@) {
        ClaimView { source_url: after(line, "- Source URL: "@), ..c }
    } else if starts(line, "- Source: "@) {
        ClaimView { source: after(line, "- Source: "@), ..c }
    } else if starts(line, "- Depends on: "@) {
        ClaimView { depends: comma_list(after(line, "- Depends on: "@)), ..c }
    } else if starts(line, "- Unless: "@) {
        ClaimView { unless: comma_list(after(line, "- Unless: "@)), ..c }
    } else if !starts(line, "- "@) {
        ClaimView { text: add_text(c.text, line), ..c }
    } else {
        c
    }
}

/// The reader after one more line.
pub open spec fn step(st: ReadState, line: Seq<char>) -> ReadState {
    if starts(line, "## Claims"@) {
        ReadState { in_claims: true, in_repos: false, in_nogoods: false, ..st }
    } else if starts(line, "## Repos"@) {
        ReadState { in_claims: false, in_repos: true, in_nogoods: false, cur: None, claims: flushed(st), ..st }
    } else if starts(line, "## Nogoods"@) {
        ReadState { in_claims: false, in_repos: false, in_nogoods: true, cur: None, claims: flushed(st), ..st }
    } else if st.in_repos {
        match repo_entry(line) {
            Some(e) => ReadState { repos: st.repos.push(e), ..st },
            None => st,
        }
    } else if st.in_nogoods {
        st
    } else if !st.in_claims && st.cur is None && !starts(line, "### "@) {
        st
    } else {
        let st1 = if !st.in_claims && st.cur is None {
            ReadState { in_claims: true, ..st }
        } else {
            st
        };
        if starts(line, "### "@) {
            ReadState { cur: Some(header_claim(after(line, "### "@))), claims: flushed(st1), ..st1 }
        } else {
            match st1.cur {
                Some(c) => ReadState { cur: Some(claim_line(c, line)), ..st1 },
                None => st1,
            }
        }
    }
}

/// The reader after the lines, in order.
pub open spec fn run(st: ReadState, ls: Seq<Seq<char>>) -> ReadState
    decreases ls.len(),
{
    if ls.len() == 0 {
        st
    } else {
        step(run(st, ls.drop_last()), ls.last())
    }
}

/// The first line from `i` on that is `---` once trimmed, or the number of
/// lines.
pub open spec fn fence_end(ls: Seq<Seq<char>>, i: int) -> int
    decreases ls.len() - i,
{
    if i < 0 || i >= ls.len() {
        ls.len() as int
    } else if trimmed(ls[i]) == "---"@ {
        i
    } else {
        fence_end(ls, i + 1)
    }
}

/// The lines after a front matter block fenced by `---` lines, when the
/// first line opens one.
pub open spec fn body_lines(ls: Seq<Seq<char>>) -> Seq<Seq<char>> {
    if ls.len() > 0 && trimmed(ls[0]) == "---"@ {
        let j = fence_end(ls, 1);
        if j < ls.len() {
            ls.subrange(j + 1, ls.len() as int)
        } else {
            Seq::empty()
        }
    } else {
        ls
    }
}

/// The claims (in order) and repositories of a beliefs file.
pub open spec fn parsed(content: Seq<char>) -> (Seq<ClaimView>, Seq<(Seq<char>, Seq<char>)>) {
    let st = run(start_state(), body_lines(lines_of(content)));
    (flushed(st), st.repos)
}

struct Reader {
    in_claims: bool,
    in_repos: bool,
    in_nogoods: bool,
    cur: Option<Claim>,
    claims: Vec<Claim>,
    repos: Vec<(String, String)>,
}

impl View for Reader {
    type V = ReadState;

    closed spec fn view(&self) -> ReadState {
        ReadState {
            in_claims: self.in_claims,
            in_repos: self.in_repos,
            in_nogoods: self.in_nogoods,
            cur: match self.cur {
                Some(c) => Some(c@),
                None => None,
            },
            claims: claim_views(self.claims@),
            repos: repo_views(self.repos@),
        }
    }
}

fn flush(r: &mut Reader)
    ensures
        final(r)@ == (ReadState { cur: None, claims: flushed(old(r)@), ..old(r)@ }),
{
    match r.cur.take() {
        Some(c) => {
            let ghost before = r.claims@;
            r.claims.push(c);
            assert(claim_views(r.claims@) =~= claim_views(before).push(c@));
        },
        None => {},
    }
}

/// `cs[a..b]` without leading `[` and trailing `]`.
fn strip_brackets(cs: &Vec<char>, a: usize, b: usize) -> (r: (usize, usize))
    requires
        a <= b <= cs@.len(),
    ensures
        a <= r.0 <= r.1 <= b,
        cs@.subrange(r.0 as int, r.1 as int) == strip_close(strip_open(cs@.subrange(a as int, b as int))),
{
    let mut x: usize = a;
    while x < b && cs[x] == '['
        invariant
            a <= x <= b <= cs@.len(),
            strip_open(cs@.subrange(a as int, b as int)) == strip_open(cs@.subrange(x as int, b as int)),
        decreases b - x,
    {
        assert(cs@.subrange(x as int, b as int).drop_first() =~= cs@.subrange(x + 1, b as int));
        x = x + 1;
    }
    let mut y: usize = b;
    while y > x && cs[y - 1] == ']'
        invariant
            a <= x <= y <= b <= cs@.len(),
            strip_close(cs@.subrange(x as int, b as int)) == strip_close(cs@.subrange(x as int, y as int)),
        decreases y - x,
    {
        assert(cs@.subrange(x as int, y as int).drop_last() =~= cs@.subrange(x as int, y - 1));
        y = y - 1;
    }
    (x, y)
}

/// The claim a header line `### id [status] ...` opens.
fn header_claim_of(cs: &Vec<char>, from: usize) -> (c: Claim)
    requires
        from <= cs@.len(),
    ensures
        c@ == header_claim(cs@.subrange(from as int, cs@.len() as int)),
{
    let rs = split_ranges(cs, from, cs.len(), Some(' '));
    proof {
        crate::text::lemma_split_len(cs@.subrange(from as int, cs@.len() as int), Some(' '), Seq::empty());
    }
    let (a0, b0) = rs[0];
    assert(from <= rs@[0].0 <= rs@[0].1 <= cs@.len());
    let id = string_of(cs, a0, b0);
    let status = if rs.len() > 1 {
        let (a1, b1) = rs[1];
        assert(from <= rs@[1].0 <= rs@[1].1 <= cs@.len());
        let (x, y) = strip_brackets(cs, a1, b1);
        Some(string_of(cs, x, y))
    } else {
        None
    };
    let c = Claim {
        id,
        status,
        text: String::new(),
        source: String::new(),
        source_url: String::new(),
        depends: Vec::new(),
        unless: Vec::new(),
    };
    assert(views(c.depends@) =~= Seq::<Seq<char>>::empty());
    assert(views(c.unless@) =~= Seq::<Seq<char>>::empty());
    c
}

/// The first `": "` in `cs[from..to]`, as a position within it.
fn find_pair(cs: &Vec<char>, from: usize, to: usize) -> (r: Option<usize>)
    requires
        from <= to <= cs@.len(),
    ensures
        match r {
            Some(k) => k == pair_from(cs@.subrange(from as int, to as int), 0) && from + k + 2 <= to,
            None => pair_from(cs@.subrange(from as int, to as int), 0) == -1,
        },
{
    let ghost s = cs@.subrange(from as int, to as int);
    let mut i: usize = 0;
    proof {
        lemma_pair_from(s, 0);
    }
    while to - from - i > 1
        invariant
            from <= to <= cs@.len(),
            i <= to - from,
            s == cs@.subrange(from as int, to as int),
            pair_from(s, 0) == pair_from(s, i as int),
        decreases to - from - i,
    {
        if cs[from + i] == ':' && cs[from + i + 1] == ' ' {
            return Some(i);
        }
        i = i + 1;
    }
    None
}

fn repo_entry_of(cs: &Vec<char>) -> (r: Option<(String, String)>)
    ensures
        match r {
            Some(p) => repo_entry(cs@) == Some((p.0@, p.1@)),
            None => repo_entry(cs@) is None,
        },
{
    if !starts_with(cs, "- ") {
        return None;
    }
    let p = chars_of("- ");
    let from = p.len();
    let ghost rest = cs@.subrange(from as int, cs@.len() as int);
    match find_pair(cs, from, cs.len()) {
        Some(k) => {
            let (a, b) = trim_range(cs, from, from + k);
            let (x, y) = trim_range(cs, from + k + 2, cs.len());
            assert(rest.subrange(0, k as int) =~= cs@.subrange(from as int, from + k));
            assert(rest.subrange(k + 2, rest.len() as int) =~= cs@.subrange(from + k + 2, cs@.len() as int));
            Some((string_of(cs, a, b), string_of(cs, x, y)))
        },
        None => None,
    }
}

/// The rest of the line after `p`, which it starts with.
fn rest_after(cs: &Vec<char>, p: &str) -> (r: usize)
    requires
        starts(cs@, p@),
    ensures
        r == p@.len(),
        r <= cs@.len(),
{
    let pc = chars_of(p);
    pc.len()
}

fn add_text_line(text: &mut String, cs: &Vec<char>)
    ensures
        final(text)@ == add_text(old(text)@, cs@),
{
    if !text.as_str().is_empty() && cs.len() > 0 {
        push_char(text, ' ');
    }
    let (a, b) = trim_range(cs, 0, cs.len());
    assert(cs@.subrange(0, cs@.len() as int) =~= cs@);
    let t = string_of(cs, a, b);
    text.append(t.as_str());
}

fn claim_line_of(c: Claim, cs: &Vec<char>) -> (r: Claim)
    ensures
        r@ == claim_line(c@, cs@),
{
    let mut c = c;
    if starts_with(cs, "- Source URL: ") {
        let k = rest_after(cs, "- Source URL: ");
        c.source_url = string_of(cs, k, cs.len());
    } else if starts_with(cs, "- Source: ") {
        let k = rest_after(cs, "- Source: ");
        c.source = string_of(cs, k, cs.len());
    } else if starts_with(cs, "- Depends on: ") {
        let k = rest_after(cs, "- Depends on: ");
        c.depends = comma_items(cs, k, cs.len());
    } else if starts_with(cs, "- Unless: ") {
        let k = rest_after(cs, "- Unless: ");
        c.unless = comma_items(cs, k, cs.len());
    } else if !starts_with(cs, "- ") {
        add_text_line(&mut c.text, cs);
    }
    c
}

fn step_line(r: &mut Reader, line: &String)
    ensures
        final(r)@ == step(old(r)@, line@),
{
    let cs = chars_of(line.as_str());
    if starts_with(&cs, "## Claims") {
        r.in_claims = true;
        r.in_repos = false;
        r.in_nogoods = false;
        return;
    }
    if starts_with(&cs, "## Repos") {
        flush(r);
        r.in_claims = false;
        r.in_repos = true;
        r.in_nogoods = false;
        return;
    }
    if starts_with(&cs, "## Nogoods") {
        flush(r);
        r.in_claims = false;
        r.in_repos = false;
        r.in_nogoods = true;
        return;
    }
    if r.in_repos {
        match repo_entry_of(&cs) {
            Some(e) => {
                let ghost before = r.repos@;
                r.repos.push(e);
                assert(repo_views(r.repos@) =~= repo_views(before).push((e.0@, e.1@)));
            },
            None => {},
        }
        return;
    }
    if r.in_nogoods {
        return;
    }
    let header = starts_with(&cs, "### ");
    if !r.in_claims && r.cur.is_none() {
        if header {
            r.in_claims = true;
        } else {
            return;
        }
    }
    if header {
        flush(r);
        let k = rest_after(&cs, "### ");
        r.cur = Some(header_claim_of(&cs, k));
    } else {
        match r.cur.take() {
            Some(c) => {
                r.cur = Some(claim_line_of(c, &cs));
            },
            None => {},
        }
    }
}

fn is_fence(s: &String) -> (r: bool)
    ensures
        r == (trimmed(s@) == "---"@),
{
    let t = trim(s.as_str());
    str_eq(t.as_str(), "---")
}

/// Read a beliefs file: the claims in the order they appear, and the
/// repository entries.
pub fn parse_beliefs(content: &str) -> (doc: BeliefsDoc)
    ensures
        claim_views(doc.claims@) == parsed(content@).0,
        repo_views(doc.repos@) == parsed(content@).1,
{
    let ls = lines(content);
    let ghost lv = views(ls@);
    let mut start: usize = 0;
    if ls.len() > 0 && is_fence(&ls[0]) {
        let mut j: usize = 1;
        while j < ls.len() && !is_fence(&ls[j])
            invariant
                1 <= j <= ls@.len(),
                lv == views(ls@),
                fence_end(lv, 1) == fence_end(lv, j as int),
            decreases ls@.len() - j,
        {
            j = j + 1;
        }
        if j < ls.len() {
            start = j + 1;
        } else {
            start = ls.len();
        }
    }
    assert(lv.subrange(start as int, ls@.len() as int) == body_lines(lv)) by {
        if !(ls@.len() > 0 && trimmed(lv[0]) == "---"@) {
            assert(lv.subrange(0, ls@.len() as int) =~= lv);
        }
    }
    let mut r = Reader {
        in_claims: false,
        in_repos: false,
        in_nogoods: false,
        cur: None,
        claims: Vec::new(),
        repos: Vec::new(),
    };
    assert(claim_views(r.claims@) =~= Seq::<ClaimView>::empty());
    assert(repo_views(r.repos@) =~= Seq::<(Seq<char>, Seq<char>)>::empty());
    let mut k: usize = start;
    assert(lv.subrange(start as int, start as int) =~= Seq::<Seq<char>>::empty());
    while k < ls.len()
        invariant
            start <= k <= ls@.len(),
            lv == views(ls@),
            r@ == run(start_state(), lv.subrange(start as int, k as int)),
        decreases ls@.len() - k,
    {
        step_line(&mut r, &ls[k]);
        assert(lv.subrange(start as int, k + 1).drop_last() =~= lv.subrange(start as int, k as int));
        k = k + 1;
    }
    flush(&mut r);
    BeliefsDoc { claims: r.claims, repos: r.repos }
}

} // verus!

verus! {

/// The truth value a claim is stored with: OUT for the status OUT or
/// STALE, IN otherwise.
pub open spec fn claim_truth(status: Option<Seq<char>>) -> Seq<char> {
    match status {
        Some(s) => if s == "OUT"@ || s == "STALE"@ {
            out_tv()
        } else {
            in_tv()
        },
        None => in_tv(),
    }
}

/// A claim is stored when it has an id and some text.
pub open spec fn claim_kept(c: ClaimView) -> bool {
    c.id.len() > 0 && trimmed(c.text).len() > 0
}

impl Claim {
    /// The node the claim is stored as, with the justification its
    /// dependencies and exceptions make (when it names any); nothing for a
    /// claim without id or text.
    pub fn records(&self) -> (r: Option<(Node, Option<Justification>)>)
        ensures
            r is Some <==> claim_kept(self@),
            r matches Some(p) ==> {
                let (n, j) = p;
                &&& n.id@ == self.id@
                &&& n.text@ == trimmed(self.text@)
                &&& n.truth_value@ == claim_truth(self@.status)
                &&& n.source@ == self.source@
                &&& n.source_url@ == self.source_url@
                &&& newly_made(n)
                &&& (j is Some <==> (self.depends@.len() > 0 || self.unless@.len() > 0))
                &&& j matches Some(jj) ==> {
                    &&& jj.rowid == 0
                    &&& jj.node_id@ == self.id@
                    &&& jj.jtype@ == "SL"@
                    &&& jj.antecedents@ == self.depends@
                    &&& jj.outlist@ == self.unless@
                    &&& jj.label@.len() == 0
                }
            },
    {
        let t = trim(self.text.as_str());
        if self.id.as_str().is_empty() || t.as_str().is_empty() {
            return None;
        }
        let mut node = Node::new(self.id.clone(), t);
        node.source = self.source.clone();
        node.source_url = self.source_url.clone();
        let demoted = match &self.status {
            Some(s) => str_eq(s.as_str(), "OUT") || str_eq(s.as_str(), "STALE"),
            None => false,
        };
        if demoted {
            node.truth_value = owned("OUT");
        }
        let j = if self.depends.len() > 0 || self.unless.len() > 0 {
            Some(
                Justification::new_sl(
                    self.id.clone(),
                    copy_strings(&self.depends),
                    copy_strings(&self.unless),
                    String::new(),
                ),
            )
        } else {
            None
        };
        Some((node, j))
    }
}

} // verus!
