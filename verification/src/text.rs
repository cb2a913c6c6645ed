//! String helpers with their meaning stated over character sequences.
use vstd::prelude::*;
use vstd::string::*;
use crate::types::views;

verus! {

/// Two string slices hold the same characters.
pub fn str_eq(a: &str, b: &str) -> (r: bool)
    ensures
        r == (a@ == b@),
{
    let x: String = a.to_owned();
    let y: String = b.to_owned();
    x == y
}

/// A new string holding the characters of `s`.
pub fn owned(s: &str) -> (r: String)
    ensures
        r@ == s@,
{
    s.to_owned()
}

/// `a` followed by `b`.
pub fn cat(a: &str, b: &str) -> (r: String)
    ensures
        r@ == a@ + b@,
{
    let x: String = a.to_owned();
    x.concat(b)
}

} // verus!

verus! {

/// `x` occurs in `v`.
pub fn contains_str(v: &Vec<String>, x: &str) -> (r: bool)
    ensures
        r == v@.map_values(|s: String| s@).contains(x@),
{
    let ghost vs = v@.map_values(|s: String| s@);
    let mut i: usize = 0;
    while i < v.len()
        invariant
            i <= v@.len(),
            vs == v@.map_values(|s: String| s@),
            forall|k: int| 0 <= k < i ==> vs[k] != x@,
        decreases v@.len() - i,
    {
        if str_eq(v[i].as_str(), x) {
            assert(vs[i as int] == x@);
            return true;
        }
        i = i + 1;
    }
    false
}

} // verus!

verus! {

/// Calls std's `String::push`, which appends one character.
#[verifier::external_body]
pub(crate) fn push_char(s: &mut String, c: char)
    ensures
        final(s)@ == old(s)@.push(c),
{
    s.push(c);
}

/// The characters of `s`, in order.
pub fn chars_of(s: &str) -> (r: Vec<char>)
    ensures
        r@ == s@,
{
    let mut r: Vec<char> = Vec::new();
    for c in it: s.chars()
        invariant
            r@ == it.seq().take(it.index()),
            it.seq() == s@,
    {
        r.push(c);
    }
    r
}

/// A string of the characters `cs[from..to]`.
pub fn string_of(cs: &Vec<char>, from: usize, to: usize) -> (r: String)
    requires
        from <= to <= cs@.len(),
    ensures
        r@ == cs@.subrange(from as int, to as int),
{
    let mut r = String::new();
    let mut i: usize = from;
    while i < to
        invariant
            from <= i <= to <= cs@.len(),
            r@ == cs@.subrange(from as int, i as int),
        decreases to - i,
    {
        push_char(&mut r, cs[i]);
        assert(cs@.subrange(from as int, i + 1) =~= cs@.subrange(from as int, i as int).push(cs@[i as int]));
        i = i + 1;
    }
    r
}

} // verus!

verus! {

/// The characters `char::is_whitespace` accepts: Unicode `White_Space`.
pub open spec fn is_ws(c: char) -> bool {
    let u = c as u32;
    ||| 0x9 <= u <= 0xd
    ||| u == 0x20
    ||| u == 0x85
    ||| u == 0xa0
    ||| u == 0x1680
    ||| 0x2000 <= u <= 0x200a
    ||| u == 0x2028
    ||| u == 0x2029
    ||| u == 0x202f
    ||| u == 0x205f
    ||| u == 0x3000
}

pub fn is_whitespace(c: char) -> (r: bool)
    ensures
        r == is_ws(c),
{
    let u = c as u32;
    (0x9 <= u && u <= 0xd) || u == 0x20 || u == 0x85 || u == 0xa0 || u == 0x1680 || (0x2000 <= u
        && u <= 0x200a) || u == 0x2028 || u == 0x2029 || u == 0x202f || u == 0x205f || u == 0x3000
}

/// `s` without its leading whitespace.
pub open spec fn trim_start_seq(s: Seq<char>) -> Seq<char>
    decreases s.len(),
{
    if s.len() > 0 && is_ws(s[0]) {
        trim_start_seq(s.drop_first())
    } else {
        s
    }
}

/// `s` without its trailing whitespace.
pub open spec fn trim_end_seq(s: Seq<char>) -> Seq<char>
    decreases s.len(),
{
    if s.len() > 0 && is_ws(s.last()) {
        trim_end_seq(s.drop_last())
    } else {
        s
    }
}

/// `s` without leading and trailing whitespace, as `str::trim` gives it.
pub open spec fn trimmed(s: Seq<char>) -> Seq<char> {
    trim_end_seq(trim_start_seq(s))
}

/// The bounds of `cs[from..to]` with surrounding whitespace taken off.
pub fn trim_range(cs: &Vec<char>, from: usize, to: usize) -> (r: (usize, usize))
    requires
        from <= to <= cs@.len(),
    ensures
        from <= r.0 <= r.1 <= to,
        cs@.subrange(r.0 as int, r.1 as int) == trimmed(cs@.subrange(from as int, to as int)),
{
    let mut a: usize = from;
    while a < to && is_whitespace(cs[a])
        invariant
            from <= a <= to <= cs@.len(),
            trim_start_seq(cs@.subrange(from as int, to as int)) == trim_start_seq(cs@.subrange(a as int, to as int)),
        decreases to - a,
    {
        assert(cs@.subrange(a as int, to as int).drop_first() =~= cs@.subrange(a + 1, to as int));
        a = a + 1;
    }
    assert(trim_start_seq(cs@.subrange(a as int, to as int)) == cs@.subrange(a as int, to as int));
    let mut b: usize = to;
    while b > a && is_whitespace(cs[b - 1])
        invariant
            from <= a <= b <= to <= cs@.len(),
            trim_end_seq(cs@.subrange(a as int, to as int)) == trim_end_seq(cs@.subrange(a as int, b as int)),
        decreases b - a,
    {
        assert(cs@.subrange(a as int, b as int).drop_last() =~= cs@.subrange(a as int, b - 1));
        b = b - 1;
    }
    (a, b)
}

/// A new string with the characters of `s` trimmed as `str::trim` does.
pub fn trim(s: &str) -> (r: String)
    ensures
        r@ == trimmed(s@),
{
    let cs = chars_of(s);
    let (a, b) = trim_range(&cs, 0, cs.len());
    assert(cs@.subrange(0, cs@.len() as int) =~= cs@);
    string_of(&cs, a, b)
}

/// A separator: whitespace when `sep` is `None`, else the given character.
pub open spec fn is_sep(c: char, sep: Option<char>) -> bool {
    match sep {
        Some(x) => c == x,
        None => is_ws(c),
    }
}

/// The pieces of `s` between separators, the current piece starting with
/// `cur`, as `str::split` yields them (empty pieces included).
pub open spec fn split_acc(s: Seq<char>, sep: Option<char>, cur: Seq<char>) -> Seq<Seq<char>>
    decreases s.len(),
{
    if s.len() == 0 {
        seq![cur]
    } else if is_sep(s[0], sep) {
        seq![cur] + split_acc(s.drop_first(), sep, Seq::empty())
    } else {
        split_acc(s.drop_first(), sep, cur.push(s[0]))
    }
}

/// The pieces of `s` between separators.
pub open spec fn split_seq(s: Seq<char>, sep: Option<char>) -> Seq<Seq<char>> {
    split_acc(s, sep, Seq::empty())
}

/// The text that each range bounds.
pub open spec fn pieces(cs: Seq<char>, rs: Seq<(usize, usize)>) -> Seq<Seq<char>> {
    rs.map_values(|r: (usize, usize)| cs.subrange(r.0 as int, r.1 as int))
}

/// The ranges of the pieces of `cs[from..to]` between separators.
pub fn split_ranges(cs: &Vec<char>, from: usize, to: usize, sep: Option<char>) -> (rs: Vec<(usize, usize)>)
    requires
        from <= to <= cs@.len(),
    ensures
        pieces(cs@, rs@) == split_seq(cs@.subrange(from as int, to as int), sep),
        forall|k: int| 0 <= k < rs@.len() ==> from <= (#[trigger] rs@[k]).0 <= rs@[k].1 <= to,
{
    let ghost s = cs@.subrange(from as int, to as int);
    let mut rs: Vec<(usize, usize)> = Vec::new();
    let mut start: usize = from;
    let mut i: usize = from;
    proof {
        assert(cs@.subrange(from as int, from as int) =~= Seq::<char>::empty());
        assert(pieces(cs@, rs@) + split_seq(s, sep) =~= split_seq(s, sep));
    }
    while i < to
        invariant
            from <= start <= i <= to <= cs@.len(),
            s == cs@.subrange(from as int, to as int),
            split_seq(s, sep) == pieces(cs@, rs@) + split_acc(
                cs@.subrange(i as int, to as int),
                sep,
                cs@.subrange(start as int, i as int),
            ),
            forall|k: int| 0 <= k < rs@.len() ==> from <= (#[trigger] rs@[k]).0 <= rs@[k].1 <= to,
        decreases to - i,
    {
        let c = cs[i];
        let hit = match sep {
            Some(x) => c == x,
            None => is_whitespace(c),
        };
        let ghost rest = cs@.subrange(i as int, to as int);
        assert(rest.drop_first() =~= cs@.subrange(i + 1, to as int));
        assert(rest[0] == c);
        if hit {
            let ghost old_rs = rs@;
            rs.push((start, i));
            proof {
                assert(pieces(cs@, rs@) =~= pieces(cs@, old_rs).push(cs@.subrange(start as int, i as int)));
                assert(cs@.subrange(i + 1, i + 1) =~= Seq::<char>::empty());
                assert(pieces(cs@, old_rs) + (seq![cs@.subrange(start as int, i as int)] + split_acc(
                    cs@.subrange(i + 1, to as int),
                    sep,
                    Seq::empty(),
                )) =~= pieces(cs@, rs@) + split_acc(cs@.subrange(i + 1, to as int), sep, Seq::empty()));
            }
            start = i + 1;
        } else {
            assert(cs@.subrange(start as int, i as int).push(c) =~= cs@.subrange(start as int, i + 1));
        }
        i = i + 1;
    }
    let ghost old_rs = rs@;
    rs.push((start, to));
    proof {
        assert(cs@.subrange(to as int, to as int) =~= Seq::<char>::empty());
        assert(pieces(cs@, rs@) =~= pieces(cs@, old_rs).push(cs@.subrange(start as int, to as int)));
        assert(pieces(cs@, old_rs) + seq![cs@.subrange(start as int, to as int)] =~= pieces(cs@, rs@));
    }
    rs
}

} // verus!

verus! {

pub proof fn lemma_split_len(s: Seq<char>, sep: Option<char>, cur: Seq<char>)
    ensures
        split_acc(s, sep, cur).len() >= 1,
    decreases s.len(),
{
    if s.len() > 0 {
        if is_sep(s[0], sep) {
            lemma_split_len(s.drop_first(), sep, Seq::empty());
        } else {
            lemma_split_len(s.drop_first(), sep, cur.push(s[0]));
        }
    }
}

/// The non-empty pieces, trimmed, in order.
pub open spec fn nonempty_trimmed(ps: Seq<Seq<char>>) -> Seq<Seq<char>>
    decreases ps.len(),
{
    if ps.len() == 0 {
        Seq::empty()
    } else {
        let r = nonempty_trimmed(ps.drop_last());
        let t = trimmed(ps.last());
        if t.len() > 0 {
            r.push(t)
        } else {
            r
        }
    }
}

/// The items of a comma-separated list: the pieces between commas, each
/// trimmed, the empty ones dropped.
pub open spec fn comma_list(s: Seq<char>) -> Seq<Seq<char>> {
    nonempty_trimmed(split_seq(s, Some(',')))
}

/// The items of the comma-separated list `cs[from..to]`.
pub fn comma_items(cs: &Vec<char>, from: usize, to: usize) -> (r: Vec<String>)
    requires
        from <= to <= cs@.len(),
    ensures
        views(r@) == comma_list(cs@.subrange(from as int, to as int)),
{
    let rs = split_ranges(cs, from, to, Some(','));
    let ghost ps = pieces(cs@, rs@);
    let mut out: Vec<String> = Vec::new();
    let mut k: usize = 0;
    while k < rs.len()
        invariant
            k <= rs@.len(),
            ps == pieces(cs@, rs@),
            forall|m: int| 0 <= m < rs@.len() ==> from <= (#[trigger] rs@[m]).0 <= rs@[m].1 <= to,
            to <= cs@.len(),
            views(out@) == nonempty_trimmed(ps.take(k as int)),
        decreases rs@.len() - k,
    {
        let (a, b) = rs[k];
        assert(rs@[k as int].0 <= rs@[k as int].1 <= to);
        let (x, y) = trim_range(cs, a, b);
        assert(ps.take(k + 1).drop_last() =~= ps.take(k as int));
        assert(ps.take(k + 1).last() == cs@.subrange(a as int, b as int));
        let ghost before = out@;
        if x < y {
            out.push(string_of(cs, x, y));
            assert(views(out@) =~= views(before).push(cs@.subrange(x as int, y as int)));
        }
        k = k + 1;
    }
    assert(ps.take(rs@.len() as int) =~= ps);
    out
}

/// The items of the comma-separated list `s`.
pub fn split_commas(s: &str) -> (r: Vec<String>)
    ensures
        views(r@) == comma_list(s@),
{
    let cs = chars_of(s);
    assert(cs@.subrange(0, cs@.len() as int) =~= cs@);
    comma_items(&cs, 0, cs.len())
}

/// The non-empty pieces, in order.
pub open spec fn nonempty(ps: Seq<Seq<char>>) -> Seq<Seq<char>>
    decreases ps.len(),
{
    if ps.len() == 0 {
        Seq::empty()
    } else if ps.last().len() > 0 {
        nonempty(ps.drop_last()).push(ps.last())
    } else {
        nonempty(ps.drop_last())
    }
}

/// The words of `s`, as `str::split_whitespace` yields them.
pub open spec fn words(s: Seq<char>) -> Seq<Seq<char>> {
    nonempty(split_seq(s, None))
}

/// The words of `s`.
pub fn split_words(s: &str) -> (r: Vec<String>)
    ensures
        views(r@) == words(s@),
{
    let cs = chars_of(s);
    assert(cs@.subrange(0, cs@.len() as int) =~= cs@);
    let rs = split_ranges(&cs, 0, cs.len(), None);
    let ghost ps = pieces(cs@, rs@);
    let mut out: Vec<String> = Vec::new();
    let mut k: usize = 0;
    while k < rs.len()
        invariant
            k <= rs@.len(),
            ps == pieces(cs@, rs@),
            forall|m: int| 0 <= m < rs@.len() ==> 0 <= (#[trigger] rs@[m]).0 <= rs@[m].1 <= cs@.len(),
            views(out@) == nonempty(ps.take(k as int)),
        decreases rs@.len() - k,
    {
        let (a, b) = rs[k];
        assert(rs@[k as int].0 <= rs@[k as int].1 <= cs@.len());
        assert(ps.take(k + 1).drop_last() =~= ps.take(k as int));
        assert(ps.take(k + 1).last() == cs@.subrange(a as int, b as int));
        let ghost before = out@;
        if a < b {
            out.push(string_of(&cs, a, b));
            assert(views(out@) =~= views(before).push(cs@.subrange(a as int, b as int)));
        }
        k = k + 1;
    }
    assert(ps.take(rs@.len() as int) =~= ps);
    out
}

/// A line without the `'\r'` that ended it before the `'\n'`.
pub open spec fn strip_cr(p: Seq<char>) -> Seq<char> {
    if p.len() > 0 && p.last() == '\r' {
        p.drop_last()
    } else {
        p
    }
}

/// The lines of `s`, as `str::lines` yields them: split at `'\n'`, a
/// `'\r'` just before a `'\n'` dropped, and no empty line after a final
/// `'\n'`.
pub open spec fn lines_of(s: Seq<char>) -> Seq<Seq<char>> {
    let ps = split_seq(s, Some('\n'));
    let body = ps.drop_last().map_values(|p: Seq<char>| strip_cr(p));
    if ps.last().len() > 0 {
        body.push(ps.last())
    } else {
        body
    }
}

/// The lines of `s`.
pub fn lines(s: &str) -> (r: Vec<String>)
    ensures
        views(r@) == lines_of(s@),
{
    let cs = chars_of(s);
    assert(cs@.subrange(0, cs@.len() as int) =~= cs@);
    let rs = split_ranges(&cs, 0, cs.len(), Some('\n'));
    let ghost ps = pieces(cs@, rs@);
    proof {
        lemma_split_len(s@, Some('\n'), Seq::empty());
    }
    let last = rs.len() - 1;
    let mut out: Vec<String> = Vec::new();
    let mut k: usize = 0;
    while k < last
        invariant
            k <= last,
            last + 1 == rs@.len(),
            ps == pieces(cs@, rs@),
            forall|m: int| 0 <= m < rs@.len() ==> 0 <= (#[trigger] rs@[m]).0 <= rs@[m].1 <= cs@.len(),
            views(out@) == ps.take(k as int).map_values(|p: Seq<char>| strip_cr(p)),
        decreases last - k,
    {
        let (a, b) = rs[k];
        assert(rs@[k as int].0 <= rs@[k as int].1 <= cs@.len());
        let ghost p = cs@.subrange(a as int, b as int);
        assert(ps[k as int] == p);
        let e = if a < b && cs[b - 1] == '\r' {
            assert(p.drop_last() =~= cs@.subrange(a as int, b - 1));
            b - 1
        } else {
            b
        };
        let ghost before = out@;
        out.push(string_of(&cs, a, e));
        assert(views(out@) =~= views(before).push(strip_cr(p)));
        assert(ps.take(k + 1).map_values(|p: Seq<char>| strip_cr(p)) =~= ps.take(k as int).map_values(
            |p: Seq<char>| strip_cr(p),
        ).push(strip_cr(p)));
        k = k + 1;
    }
    assert(ps.take(last as int) =~= ps.drop_last());
    let (a, b) = rs[last];
    assert(rs@[last as int].0 <= rs@[last as int].1 <= cs@.len());
    assert(ps.last() == cs@.subrange(a as int, b as int));
    if a < b {
        let ghost before = out@;
        out.push(string_of(&cs, a, b));
        assert(views(out@) =~= views(before).push(cs@.subrange(a as int, b as int)));
    }
    out
}

/// `s` begins with `p`.
pub open spec fn starts(s: Seq<char>, p: Seq<char>) -> bool {
    p.len() <= s.len() && s.subrange(0, p.len() as int) == p
}

/// The characters `cs` begin with `p`.
pub fn starts_with(cs: &Vec<char>, p: &str) -> (r: bool)
    ensures
        r == starts(cs@, p@),
{
    let ps = chars_of(p);
    if ps.len() > cs.len() {
        return false;
    }
    let mut i: usize = 0;
    while i < ps.len()
        invariant
            i <= ps@.len() <= cs@.len(),
            ps@ == p@,
            cs@.subrange(0, i as int) == ps@.subrange(0, i as int),
        decreases ps@.len() - i,
    {
        if cs[i] != ps[i] {
            assert(cs@.subrange(0, ps@.len() as int)[i as int] != ps@[i as int]);
            return false;
        }
        assert(cs@.subrange(0, i + 1) =~= ps@.subrange(0, i + 1));
        i = i + 1;
    }
    assert(ps@.subrange(0, ps@.len() as int) =~= ps@);
    true
}

} // verus!

verus! {

/// The pieces joined with `sep` between each two.
pub open spec fn join_seq(ps: Seq<Seq<char>>, sep: Seq<char>) -> Seq<char>
    decreases ps.len(),
{
    if ps.len() == 0 {
        Seq::empty()
    } else if ps.len() == 1 {
        ps[0]
    } else {
        join_seq(ps.drop_last(), sep) + sep + ps.last()
    }
}

/// The strings of `parts` joined with `sep` between each two.
pub fn join(parts: &Vec<String>, sep: &str) -> (r: String)
    ensures
        r@ == join_seq(views(parts@), sep@),
{
    let ghost ps = views(parts@);
    let mut r = String::new();
    let mut k: usize = 0;
    while k < parts.len()
        invariant
            k <= parts@.len(),
            ps == views(parts@),
            r@ == join_seq(ps.take(k as int), sep@),
        decreases parts@.len() - k,
    {
        assert(ps.take(k + 1).drop_last() =~= ps.take(k as int));
        assert(ps.take(k + 1).last() == parts@[k as int]@);
        if k > 0 {
            r.append(sep);
        } else {
            assert(ps.take(1) =~= seq![ps[0]]);
        }
        r.append(parts[k].as_str());
        k = k + 1;
    }
    assert(ps.take(parts@.len() as int) =~= ps);
    r
}

/// The digit `d` (0 to 9) as a character.
pub open spec fn digit(d: int) -> char {
    if d == 0 {
        '0'
    } else if d == 1 {
        '1'
    } else if d == 2 {
        '2'
    } else if d == 3 {
        '3'
    } else if d == 4 {
        '4'
    } else if d == 5 {
        '5'
    } else if d == 6 {
        '6'
    } else if d == 7 {
        '7'
    } else if d == 8 {
        '8'
    } else {
        '9'
    }
}

/// The decimal digits of `n`, as `Display` writes an unsigned integer.
pub open spec fn decimal_seq(n: nat) -> Seq<char>
    decreases n,
{
    if n < 10 {
        seq![digit(n as int)]
    } else {
        decimal_seq(n / 10).push(digit((n % 10) as int))
    }
}

/// An integer as `Display` writes it: a minus sign before negative ones.
pub open spec fn int_text(x: int) -> Seq<char> {
    if x < 0 {
        seq!['-'] + decimal_seq((-x) as nat)
    } else {
        decimal_seq(x as nat)
    }
}

/// The characters `c` repeated `n` times.
pub open spec fn fill(c: char, n: nat) -> Seq<char>
    decreases n,
{
    if n == 0 {
        Seq::empty()
    } else {
        fill(c, (n - 1) as nat).push(c)
    }
}

/// `n` in decimal, padded with zeros to three digits, as `{:03}` writes it.
pub open spec fn padded3(n: nat) -> Seq<char> {
    let d = decimal_seq(n);
    if d.len() < 3 {
        fill('0', (3 - d.len()) as nat) + d
    } else {
        d
    }
}

fn digit_char(d: u64) -> (c: char)
    requires
        d < 10,
    ensures
        c == digit(d as int),
{
    if d == 0 {
        '0'
    } else if d == 1 {
        '1'
    } else if d == 2 {
        '2'
    } else if d == 3 {
        '3'
    } else if d == 4 {
        '4'
    } else if d == 5 {
        '5'
    } else if d == 6 {
        '6'
    } else if d == 7 {
        '7'
    } else if d == 8 {
        '8'
    } else {
        '9'
    }
}

/// `n` in decimal.
pub fn decimal(n: u64) -> (r: String)
    ensures
        r@ == decimal_seq(n as nat),
    decreases n,
{
    if n < 10 {
        let mut s = String::new();
        push_char(&mut s, digit_char(n));
        assert(s@ =~= seq![digit(n as int)]);
        s
    } else {
        let mut s = decimal(n / 10);
        push_char(&mut s, digit_char(n % 10));
        s
    }
}

/// `x` in decimal, with a minus sign when negative.
pub fn int_string(x: i64) -> (r: String)
    ensures
        r@ == int_text(x as int),
{
    if x < 0 {
        let m: u64 = ((-(x + 1)) as u64) + 1;
        assert(m == -x);
        let d = decimal(m);
        let mut s = String::new();
        push_char(&mut s, '-');
        s.append(d.as_str());
        assert(s@ =~= seq!['-'] + decimal_seq((-x) as nat));
        s
    } else {
        decimal(x as u64)
    }
}

/// `n` in decimal, padded with zeros to three digits.
pub fn padded_decimal3(n: u64) -> (r: String)
    ensures
        r@ == padded3(n as nat),
{
    let d = decimal(n);
    let dc = chars_of(d.as_str());
    if dc.len() < 3 {
        let mut s = String::new();
        let mut k: usize = 0;
        let want: usize = 3 - dc.len();
        while k < want
            invariant
                k <= want,
                s@ == fill('0', k as nat),
            decreases want - k,
        {
            push_char(&mut s, '0');
            k = k + 1;
        }
        s.append(d.as_str());
        s
    } else {
        d
    }
}

/// `s` repeated `n` times.
pub open spec fn repeat_seq(s: Seq<char>, n: nat) -> Seq<char>
    decreases n,
{
    if n == 0 {
        Seq::empty()
    } else {
        repeat_seq(s, (n - 1) as nat) + s
    }
}

/// `s` repeated `n` times.
pub fn repeat(s: &str, n: usize) -> (r: String)
    ensures
        r@ == repeat_seq(s@, n as nat),
{
    let mut r = String::new();
    let mut k: usize = 0;
    while k < n
        invariant
            k <= n,
            r@ == repeat_seq(s@, k as nat),
        decreases n - k,
    {
        r.append(s);
        k = k + 1;
    }
    r
}

/// What `str::to_lowercase` gives for `s`.
pub uninterp spec fn lowercase(s: Seq<char>) -> Seq<char>;

/// Calls std's `str::to_lowercase`; its result is named, not stated.
#[verifier::external_body]
pub(crate) fn to_lowercase(s: &str) -> (r: String)
    ensures
        r@ == lowercase(s@),
{
    s.to_lowercase()
}

} // verus!

verus! {

/// A copy of a list of strings.
pub fn copy_strings(v: &Vec<String>) -> (r: Vec<String>)
    ensures
        r@ == v@,
{
    let mut r: Vec<String> = Vec::new();
    let mut k: usize = 0;
    while k < v.len()
        invariant
            k <= v@.len(),
            r@ == v@.take(k as int),
        decreases v@.len() - k,
    {
        r.push(v[k].clone());
        assert(r@ =~= v@.take(k + 1));
        k = k + 1;
    }
    assert(v@.take(v@.len() as int) =~= v@);
    r
}

} // verus!
