//! Full-text search: the query's terms, the queries tried in turn, the
//! neighbourhood of the matches, and the lines shown.
use vstd::prelude::*;
use crate::format::{can_truncate, format_node_line, node_line, truncate, truncatable, truncated};
use crate::model::unvisited;
use crate::network::Network;
use crate::text::{join, join_seq, lowercase, owned, split_words, str_eq, to_lowercase, words};
use crate::types::{views, Justification, Node, TmsError};

verus! {

/// A word that search leaves out.
pub open spec fn is_stop_word(w: Seq<char>) -> bool {
    ||| w == "a"@
    ||| w == "about"@
    ||| w == "above"@
    ||| w == "after"@
    ||| w == "again"@
    ||| w == "against"@
    ||| w == "all"@
    ||| w == "am"@
    ||| w == "an"@
    ||| w == "and"@
    ||| w == "any"@
    ||| w == "are"@
    ||| w == "aren't"@
    ||| w == "as"@
    ||| w == "at"@
    ||| w == "be"@
    ||| w == "because"@
    ||| w == "been"@
    ||| w == "before"@
    ||| w == "being"@
    ||| w == "below"@
    ||| w == "between"@
    ||| w == "both"@
    ||| w == "but"@
    ||| w == "by"@
    ||| w == "can't"@
    ||| w == "cannot"@
    ||| w == "could"@
    ||| w == "couldn't"@
    ||| w == "did"@
    ||| w == "didn't"@
    ||| w == "do"@
    ||| w == "does"@
    ||| w == "doesn't"@
    ||| w == "doing"@
    ||| w == "don't"@
    ||| w == "down"@
    ||| w == "during"@
    ||| w == "each"@
    ||| w == "few"@
    ||| w == "for"@
    ||| w == "from"@
    ||| w == "further"@
    ||| w == "get"@
    ||| w == "got"@
    ||| w == "had"@
    ||| w == "hadn't"@
    ||| w == "has"@
    ||| w == "hasn't"@
    ||| w == "have"@
    ||| w == "haven't"@
    ||| w == "having"@
    ||| w == "he"@
    ||| w == "her"@
    ||| w == "here"@
    ||| w == "hers"@
    ||| w == "herself"@
    ||| w == "him"@
    ||| w == "himself"@
    ||| w == "his"@
    ||| w == "how"@
    ||| w == "i"@
    ||| w == "if"@
    ||| w == "in"@
    ||| w == "into"@
    ||| w == "is"@
    ||| w == "isn't"@
    ||| w == "it"@
    ||| w == "its"@
    ||| w == "itself"@
    ||| w == "just"@
    ||| w == "let"@
    ||| w == "like"@
    ||| w == "ll"@
    ||| w == "me"@
    ||| w == "might"@
    ||| w == "more"@
    ||| w == "most"@
    ||| w == "mustn't"@
    ||| w == "my"@
    ||| w == "myself"@
    ||| w == "no"@
    ||| w == "nor"@
    ||| w == "not"@
    ||| w == "now"@
    ||| w == "of"@
    ||| w == "off"@
    ||| w == "on"@
    ||| w == "once"@
    ||| w == "only"@
    ||| w == "or"@
    ||| w == "other"@
    ||| w == "our"@
    ||| w == "ours"@
    ||| w == "ourselves"@
    ||| w == "out"@
    ||| w == "over"@
    ||| w == "own"@
    ||| w == "re"@
    ||| w == "s"@
    ||| w == "same"@
    ||| w == "shan't"@
    ||| w == "she"@
    ||| w == "should"@
    ||| w == "shouldn't"@
    ||| w == "so"@
    ||| w == "some"@
    ||| w == "such"@
    ||| w == "t"@
    ||| w == "than"@
    ||| w == "that"@
    ||| w == "the"@
    ||| w == "their"@
    ||| w == "theirs"@
    ||| w == "them"@
    ||| w == "themselves"@
    ||| w == "then"@
    ||| w == "there"@
    ||| w == "these"@
    ||| w == "they"@
    ||| w == "this"@
    ||| w == "those"@
    ||| w == "through"@
    ||| w == "to"@
    ||| w == "too"@
    ||| w == "under"@
    ||| w == "until"@
    ||| w == "up"@
    ||| w == "ve"@
    ||| w == "very"@
    ||| w == "was"@
    ||| w == "wasn't"@
    ||| w == "we"@
    ||| w == "were"@
    ||| w == "weren't"@
    ||| w == "what"@
    ||| w == "when"@
    ||| w == "where"@
    ||| w == "which"@
    ||| w == "while"@
    ||| w == "who"@
    ||| w == "whom"@
    ||| w == "why"@
    ||| w == "will"@
    ||| w == "with"@
    ||| w == "won't"@
    ||| w == "would"@
    ||| w == "wouldn't"@
    ||| w == "you"@
    ||| w == "your"@
    ||| w == "yours"@
    ||| w == "yourself"@
    ||| w == "yourselves"@
}

/// `w` is a word that search leaves out.
pub fn stop_word(w: &str) -> (r: bool)
    ensures
        r == is_stop_word(w@),
{
    str_eq(w, "a") ||
        str_eq(w, "about") ||
        str_eq(w, "above") ||
        str_eq(w, "after") ||
        str_eq(w, "again") ||
        str_eq(w, "against") ||
        str_eq(w, "all") ||
        str_eq(w, "am") ||
        str_eq(w, "an") ||
        str_eq(w, "and") ||
        str_eq(w, "any") ||
        str_eq(w, "are") ||
        str_eq(w, "aren't") ||
        str_eq(w, "as") ||
        str_eq(w, "at") ||
        str_eq(w, "be") ||
        str_eq(w, "because") ||
        str_eq(w, "been") ||
        str_eq(w, "before") ||
        str_eq(w, "being") ||
        str_eq(w, "below") ||
        str_eq(w, "between") ||
        str_eq(w, "both") ||
        str_eq(w, "but") ||
        str_eq(w, "by") ||
        str_eq(w, "can't") ||
        str_eq(w, "cannot") ||
        str_eq(w, "could") ||
        str_eq(w, "couldn't") ||
        str_eq(w, "did") ||
        str_eq(w, "didn't") ||
        str_eq(w, "do") ||
        str_eq(w, "does") ||
        str_eq(w, "doesn't") ||
        str_eq(w, "doing") ||
        str_eq(w, "don't") ||
        str_eq(w, "down") ||
        str_eq(w, "during") ||
        str_eq(w, "each") ||
        str_eq(w, "few") ||
        str_eq(w, "for") ||
        str_eq(w, "from") ||
        str_eq(w, "further") ||
        str_eq(w, "get") ||
        str_eq(w, "got") ||
        str_eq(w, "had") ||
        str_eq(w, "hadn't") ||
        str_eq(w, "has") ||
        str_eq(w, "hasn't") ||
        str_eq(w, "have") ||
        str_eq(w, "haven't") ||
        str_eq(w, "having") ||
        str_eq(w, "he") ||
        str_eq(w, "her") ||
        str_eq(w, "here") ||
        str_eq(w, "hers") ||
        str_eq(w, "herself") ||
        str_eq(w, "him") ||
        str_eq(w, "himself") ||
        str_eq(w, "his") ||
        str_eq(w, "how") ||
        str_eq(w, "i") ||
        str_eq(w, "if") ||
        str_eq(w, "in") ||
        str_eq(w, "into") ||
        str_eq(w, "is") ||
        str_eq(w, "isn't") ||
        str_eq(w, "it") ||
        str_eq(w, "its") ||
        str_eq(w, "itself") ||
        str_eq(w, "just") ||
        str_eq(w, "let") ||
        str_eq(w, "like") ||
        str_eq(w, "ll") ||
        str_eq(w, "me") ||
        str_eq(w, "might") ||
        str_eq(w, "more") ||
        str_eq(w, "most") ||
        str_eq(w, "mustn't") ||
        str_eq(w, "my") ||
        str_eq(w, "myself") ||
        str_eq(w, "no") ||
        str_eq(w, "nor") ||
        str_eq(w, "not") ||
        str_eq(w, "now") ||
        str_eq(w, "of") ||
        str_eq(w, "off") ||
        str_eq(w, "on") ||
        str_eq(w, "once") ||
        str_eq(w, "only") ||
        str_eq(w, "or") ||
        str_eq(w, "other") ||
        str_eq(w, "our") ||
        str_eq(w, "ours") ||
        str_eq(w, "ourselves") ||
        str_eq(w, "out") ||
        str_eq(w, "over") ||
        str_eq(w, "own") ||
        str_eq(w, "re") ||
        str_eq(w, "s") ||
        str_eq(w, "same") ||
        str_eq(w, "shan't") ||
        str_eq(w, "she") ||
        str_eq(w, "should") ||
        str_eq(w, "shouldn't") ||
        str_eq(w, "so") ||
        str_eq(w, "some") ||
        str_eq(w, "such") ||
        str_eq(w, "t") ||
        str_eq(w, "than") ||
        str_eq(w, "that") ||
        str_eq(w, "the") ||
        str_eq(w, "their") ||
        str_eq(w, "theirs") ||
        str_eq(w, "them") ||
        str_eq(w, "themselves") ||
        str_eq(w, "then") ||
        str_eq(w, "there") ||
        str_eq(w, "these") ||
        str_eq(w, "they") ||
        str_eq(w, "this") ||
        str_eq(w, "those") ||
        str_eq(w, "through") ||
        str_eq(w, "to") ||
        str_eq(w, "too") ||
        str_eq(w, "under") ||
        str_eq(w, "until") ||
        str_eq(w, "up") ||
        str_eq(w, "ve") ||
        str_eq(w, "very") ||
        str_eq(w, "was") ||
        str_eq(w, "wasn't") ||
        str_eq(w, "we") ||
        str_eq(w, "were") ||
        str_eq(w, "weren't") ||
        str_eq(w, "what") ||
        str_eq(w, "when") ||
        str_eq(w, "where") ||
        str_eq(w, "which") ||
        str_eq(w, "while") ||
        str_eq(w, "who") ||
        str_eq(w, "whom") ||
        str_eq(w, "why") ||
        str_eq(w, "will") ||
        str_eq(w, "with") ||
        str_eq(w, "won't") ||
        str_eq(w, "would") ||
        str_eq(w, "wouldn't") ||
        str_eq(w, "you") ||
        str_eq(w, "your") ||
        str_eq(w, "yours") ||
        str_eq(w, "yourself") ||
        str_eq(w, "yourselves")
}

/// The words that are not left out, in order.
pub open spec fn keep_terms(ws: Seq<Seq<char>>) -> Seq<Seq<char>>
    decreases ws.len(),
{
    if ws.len() == 0 {
        Seq::empty()
    } else if is_stop_word(ws.last()) {
        keep_terms(ws.drop_last())
    } else {
        keep_terms(ws.drop_last()).push(ws.last())
    }
}

/// The search terms of a query: its words in lower case, the stop words
/// left out.
pub open spec fn search_terms_spec(query: Seq<char>) -> Seq<Seq<char>> {
    keep_terms(words(query).map_values(|w: Seq<char>| lowercase(w)))
}

/// The search terms of `query`.
pub fn search_terms(query: &str) -> (r: Vec<String>)
    ensures
        views(r@) == search_terms_spec(query@),
{
    let ws = split_words(query);
    let ghost lw = views(ws@).map_values(|w: Seq<char>| lowercase(w));
    let mut out: Vec<String> = Vec::new();
    let mut k: usize = 0;
    while k < ws.len()
        invariant
            k <= ws@.len(),
            lw == views(ws@).map_values(|w: Seq<char>| lowercase(w)),
            views(out@) == keep_terms(lw.take(k as int)),
        decreases ws@.len() - k,
    {
        let l = to_lowercase(ws[k].as_str());
        assert(lw.take(k + 1).drop_last() =~= lw.take(k as int));
        assert(lw.take(k + 1).last() == l@);
        if !stop_word(l.as_str()) {
            let ghost before = views(out@);
            out.push(l);
            assert(views(out@) =~= before.push(lw[k as int]));
        }
        k = k + 1;
    }
    assert(lw.take(ws@.len() as int) =~= lw);
    out
}

} // verus!

verus! {

/// A term in double quotes.
pub open spec fn quoted(w: Seq<char>) -> Seq<char> {
    "\""@ + w + "\""@
}

/// A full-text query for the terms: each quoted, separated by spaces.
pub open spec fn fts_text(ws: Seq<Seq<char>>) -> Seq<char> {
    join_seq(ws.map_values(|w: Seq<char>| quoted(w)), " "@)
}

/// The full-text query for `terms`.
pub fn fts_query(terms: &Vec<String>) -> (r: String)
    ensures
        r@ == fts_text(views(terms@)),
{
    let mut qs: Vec<String> = Vec::new();
    let mut k: usize = 0;
    while k < terms.len()
        invariant
            k <= terms@.len(),
            views(qs@) == views(terms@).take(k as int).map_values(|w: Seq<char>| quoted(w)),
        decreases terms@.len() - k,
    {
        let mut q = owned("\"");
        q.append(terms[k].as_str());
        q.append("\"");
        let ghost before = views(qs@);
        qs.push(q);
        proof {
            assert(views(qs@) =~= before.push(quoted(terms@[k as int]@)));
            assert(views(terms@).take(k + 1).map_values(|w: Seq<char>| quoted(w)) =~= views(terms@).take(k as int).map_values(
                |w: Seq<char>| quoted(w),
            ).push(quoted(terms@[k as int]@)));
        }
        k = k + 1;
    }
    assert(views(terms@).take(terms@.len() as int) =~= views(terms@));
    join(&qs, " ")
}

/// The queries search tries in turn until one finds something: all the
/// terms, then, with two terms or more, the terms without the last one,
/// the last two, and so on, leaving at least half of them.
pub open spec fn queries_spec(ws: Seq<Seq<char>>) -> Seq<Seq<char>> {
    seq![fts_text(ws)] + if ws.len() >= 2 {
        Seq::new(ws.len() / 2, |d: int| fts_text(ws.take(ws.len() - (d + 1))))
    } else {
        Seq::empty()
    }
}

/// The queries to try for `terms` (see `queries_spec`).
pub fn search_queries(terms: &Vec<String>) -> (r: Vec<String>)
    ensures
        views(r@) == queries_spec(views(terms@)),
{
    let ghost ws = views(terms@);
    let mut out: Vec<String> = Vec::new();
    out.push(fts_query(terms));
    let ghost first = views(out@);
    let n = terms.len();
    if n >= 2 {
        let mut d: usize = 1;
        while d <= n / 2
            invariant
                1 <= d <= n / 2 + 1,
                n == ws.len(),
                n >= 2,
                ws == views(terms@),
                views(out@) == first + Seq::new((d - 1) as nat, |e: int| fts_text(ws.take(ws.len() - (e + 1)))),
            decreases n / 2 + 1 - d,
        {
            let mut prefix: Vec<String> = Vec::new();
            let mut i: usize = 0;
            while i < n - d
                invariant
                    i <= n - d,
                    d <= n,
                    n == terms@.len(),
                    prefix@ == terms@.take(i as int),
                decreases n - d - i,
            {
                prefix.push(terms[i].clone());
                assert(prefix@ =~= terms@.take(i + 1));
                i = i + 1;
            }
            let q = fts_query(&prefix);
            let ghost before = views(out@);
            out.push(q);
            proof {
                assert(views(prefix@) =~= ws.take(ws.len() - d));
                assert(q@ == fts_text(ws.take(ws.len() - d)));
                assert(views(out@) =~= before.push(q@));
                let old_tail = Seq::new((d - 1) as nat, |e: int| fts_text(ws.take(ws.len() - (e + 1))));
                let new_tail = Seq::new(d as nat, |e: int| fts_text(ws.take(ws.len() - (e + 1))));
                assert(new_tail =~= old_tail.push(q@));
                assert(views(out@) =~= first + new_tail);
            }
            d = d + 1;
        }
        assert(views(out@) =~= queries_spec(ws));
    } else {
        assert(views(out@) =~= queries_spec(ws));
    }
    out
}

/// The nodes shown for the ids found: those that exist and are IN, or
/// any with `include_out`; as positions in the network.
pub open spec fn hits_spec(net: Network, ids: Seq<Seq<char>>, include_out: bool) -> Seq<int>
    decreases ids.len(),
{
    if ids.len() == 0 {
        Seq::empty()
    } else {
        let r = hits_spec(net, ids.drop_last(), include_out);
        let i = crate::model::node_idx(net.tms(), ids.last());
        if i >= 0 && (include_out || net.nodes@[i].truth_value@ != "OUT"@) {
            r.push(i)
        } else {
            r
        }
    }
}

/// The line of a search hit: `*` for a direct match, its truth value, id
/// and text (truncated to 80 bytes), and whether it is a premise.
pub open spec fn hit_line(net: Network, n: Node, matched: Seq<Seq<char>>) -> Seq<char> {
    (if matched.contains(n.id@) {
        "*"@
    } else {
        " "@
    }) + " ["@ + n.truth_value@ + "] "@ + n.id@ + ": "@ + truncated(n.text@, 80) + crate::tree::premise_tag(net, n.id@)
}

impl Network {
    /// The positions of the nodes shown for `ids` (see `hits_spec`).
    pub fn search_hits(&self, ids: &Vec<String>, include_out: bool) -> (r: Vec<usize>)
        ensures
            r@.map_values(|i: usize| i as int) == hits_spec(*self, views(ids@), include_out),
            forall|k: int| 0 <= k < r@.len() ==> (#[trigger] r@[k]) < self.nodes@.len(),
    {
        let mut out: Vec<usize> = Vec::new();
        let mut k: usize = 0;
        assert(out@.map_values(|i: usize| i as int) =~= hits_spec(*self, views(ids@).take(0), include_out));
        while k < ids.len()
            invariant
                k <= ids@.len(),
                out@.map_values(|i: usize| i as int) == hits_spec(*self, views(ids@).take(k as int), include_out),
                forall|m: int| 0 <= m < out@.len() ==> (#[trigger] out@[m]) < self.nodes@.len(),
            decreases ids@.len() - k,
        {
            assert(views(ids@).take(k + 1).drop_last() =~= views(ids@).take(k as int));
            assert(views(ids@).take(k + 1).last() == ids@[k as int]@);
            match self.node_index(ids[k].as_str()) {
                Some(i) => {
                    if include_out || !str_eq(self.nodes[i].truth_value.as_str(), "OUT") {
                        let ghost before = out@.map_values(|i: usize| i as int);
                        out.push(i);
                        assert(out@.map_values(|i: usize| i as int) =~= before.push(i as int));
                    }
                },
                None => {},
            }
            k = k + 1;
        }
        assert(views(ids@).take(ids@.len() as int) =~= views(ids@));
        out
    }

    /// The lines of the hits; refused when a text would be cut inside a
    /// character.
    pub fn hit_lines(&self, hits: &Vec<usize>, matched: &Vec<String>) -> (r: Result<Vec<String>, TmsError>)
        requires
            forall|k: int| 0 <= k < hits@.len() ==> (#[trigger] hits@[k]) < self.nodes@.len(),
        ensures
            (forall|k: int| 0 <= k < hits@.len() ==> truncatable(#[trigger] self.nodes@[hits@[k] as int].text@, 80))
                ==> (r matches Ok(v) && views(v@) == hits@.map_values(
                |i: usize| hit_line(*self, self.nodes@[i as int], views(matched@)),
            )),
            !(forall|k: int| 0 <= k < hits@.len() ==> truncatable(#[trigger] self.nodes@[hits@[k] as int].text@, 80))
                ==> r matches Err(TmsError::CutInsideChar),
    {
        let mut out: Vec<String> = Vec::new();
        let mut k: usize = 0;
        while k < hits.len()
            invariant
                k <= hits@.len(),
                forall|q: int| 0 <= q < hits@.len() ==> (#[trigger] hits@[q]) < self.nodes@.len(),
                forall|q: int| 0 <= q < k ==> truncatable(#[trigger] self.nodes@[hits@[q] as int].text@, 80),
                views(out@) == hits@.take(k as int).map_values(
                    |i: usize| hit_line(*self, self.nodes@[i as int], views(matched@)),
                ),
            decreases hits@.len() - k,
        {
            let n = &self.nodes[hits[k]];
            if !can_truncate(n.text.as_str(), 80) {
                return Err(TmsError::CutInsideChar);
            }
            let mut l = if crate::text::contains_str(matched, n.id.as_str()) {
                owned("*")
            } else {
                owned(" ")
            };
            l.append(" [");
            l.append(n.truth_value.as_str());
            l.append("] ");
            l.append(n.id.as_str());
            l.append(": ");
            let t = truncate(n.text.as_str(), 80);
            l.append(t.as_str());
            let premise = match self.group_index(n.id.as_str()) {
                Some(g) => self.justifications[g].justs.len() == 0,
                None => true,
            };
            proof {
                self.lemma_tms_keys();
            }
            if premise {
                l.append(" (premise)");
            } else {
                assert(l@ + Seq::<char>::empty() =~= l@);
            }
            let ghost before = views(out@);
            let ghost lv = l@;
            out.push(l);
            proof {
                assert(lv == hit_line(*self, self.nodes@[hits@[k as int] as int], views(matched@)));
                assert(views(out@) =~= before.push(lv));
                assert(hits@.take(k + 1).map_values(|i: usize| hit_line(*self, self.nodes@[i as int], views(matched@)))
                    =~= hits@.take(k as int).map_values(|i: usize| hit_line(*self, self.nodes@[i as int], views(matched@))).push(
                    lv,
                ));
            }
            k = k + 1;
        }
        assert(hits@.take(hits@.len() as int) =~= hits@);
        Ok(out)
    }
}

} // verus!

verus! {

/// Every name the justifications mention: their nodes, antecedents and
/// out-lists.
pub open spec fn all_names(js: Seq<Justification>) -> Seq<Seq<char>>
    decreases js.len(),
{
    if js.len() == 0 {
        Seq::empty()
    } else {
        all_names(js.drop_last()) + seq![js.last().node_id@] + views(js.last().antecedents@) + views(
            js.last().outlist@,
        )
    }
}

pub proof fn lemma_all_names(js: Seq<Justification>, k: int, x: Seq<char>)
    requires
        0 <= k < js.len(),
        x == js[k].node_id@ || views(js[k].antecedents@).contains(x) || views(js[k].outlist@).contains(x),
    ensures
        all_names(js).contains(x),
    decreases js.len(),
{
    let t = js.drop_last();
    let j = js.last();
    let a = all_names(t);
    let whole = a + seq![j.node_id@] + views(j.antecedents@) + views(j.outlist@);
    if k < js.len() - 1 {
        assert(t[k] == js[k]);
        lemma_all_names(t, k, x);
        let i = choose|i: int| 0 <= i < a.len() && a[i] == x;
        assert(whole[i] == x);
    } else if x == j.node_id@ {
        assert(whole[a.len() as int] == x);
    } else if views(j.antecedents@).contains(x) {
        let i = choose|i: int| 0 <= i < views(j.antecedents@).len() && views(j.antecedents@)[i] == x;
        assert(whole[a.len() + 1 + i] == x);
    } else {
        let i = choose|i: int| 0 <= i < views(j.outlist@).len() && views(j.outlist@)[i] == x;
        assert(whole[a.len() + 1 + views(j.antecedents@).len() + i] == x);
    }
}

/// The state of a neighbourhood expansion: the ids found (in order), the
/// ids seen, the queue of ids with their distance, and how much of the
/// queue has been taken.
pub struct Expansion {
    pub found: Seq<Seq<char>>,
    pub seen: Set<Seq<char>>,
    pub queue: Seq<(Seq<char>, int)>,
    pub head: int,
}

/// `id`, at distance `d`, unless seen before, is found, seen and queued.
pub open spec fn note(s: Expansion, id: Seq<char>, d: int) -> Expansion {
    if s.seen.contains(id) {
        s
    } else {
        Expansion { found: s.found.push(id), seen: s.seen.insert(id), queue: s.queue.push((id, d)), head: s.head }
    }
}

pub open spec fn note_all(s: Expansion, ids: Seq<Seq<char>>, d: int) -> Expansion
    decreases ids.len(),
{
    if ids.len() == 0 {
        s
    } else {
        note(note_all(s, ids.drop_last(), d), ids.last(), d)
    }
}

/// The antecedents of the justifications of `cur`, noted in order.
pub open spec fn from_justs(s: Expansion, js: Seq<Justification>, cur: Seq<char>, d: int) -> Expansion
    decreases js.len(),
{
    if js.len() == 0 {
        s
    } else {
        let s1 = from_justs(s, js.drop_last(), cur, d);
        if js.last().node_id@ == cur {
            note_all(s1, views(js.last().antecedents@), d)
        } else {
            s1
        }
    }
}

/// The nodes whose justifications name `cur`, noted in order.
pub open spec fn to_justs(s: Expansion, js: Seq<Justification>, cur: Seq<char>, d: int) -> Expansion
    decreases js.len(),
{
    if js.len() == 0 {
        s
    } else {
        let s1 = to_justs(s, js.drop_last(), cur, d);
        let j = js.last();
        if views(j.antecedents@).contains(cur) || views(j.outlist@).contains(cur) {
            note(s1, j.node_id@, d)
        } else {
            s1
        }
    }
}

/// Take the next queued id; when it is nearer than `depth`, note its
/// antecedents and then the nodes that name it, one step further away.
pub open spec fn expand_step(js: Seq<Justification>, depth: int, s: Expansion) -> Expansion {
    if s.head < 0 || s.head >= s.queue.len() {
        s
    } else {
        let cur = s.queue[s.head].0;
        let d = s.queue[s.head].1;
        let s1 = Expansion { head: s.head + 1, ..s };
        if d >= depth {
            s1
        } else {
            to_justs(from_justs(s1, js, cur, d + 1), js, cur, d + 1)
        }
    }
}

pub open spec fn expand_iter(js: Seq<Justification>, depth: int, s: Expansion, n: nat) -> Expansion
    decreases n,
{
    if n == 0 {
        s
    } else {
        expand_step(js, depth, expand_iter(js, depth, s, (n - 1) as nat))
    }
}

/// The expansion starts from the seeds, all found and seen, at distance 0.
pub open spec fn expand_init(seeds: Seq<Seq<char>>) -> Expansion {
    Expansion {
        found: seeds,
        seen: seeds.to_set(),
        queue: seeds.map_values(|id: Seq<char>| (id, 0int)),
        head: 0,
    }
}

pub open spec fn expand_done(s: Expansion) -> bool {
    s.head >= s.queue.len()
}

pub open spec fn state_of(found: Seq<String>, seen: Seq<String>, queue: Seq<(String, usize)>, head: int) -> Expansion {
    Expansion {
        found: views(found),
        seen: views(seen).to_set(),
        queue: queue.map_values(|p: (String, usize)| (p.0@, p.1 as int)),
        head,
    }
}

fn note_exec(
    found: &mut Vec<String>,
    seen: &mut Vec<String>,
    queue: &mut Vec<(String, usize)>,
    id: &String,
    d: usize,
    Ghost(head): Ghost<int>,
)
    ensures
        state_of(final(found)@, final(seen)@, final(queue)@, head) == note(
            state_of(old(found)@, old(seen)@, old(queue)@, head),
            id@,
            d as int,
        ),
        views(old(seen)@).to_set().subset_of(views(final(seen)@).to_set()),
        views(final(seen)@).to_set().contains(id@),
        !views(old(seen)@).to_set().contains(id@) ==> final(queue)@.len() == old(queue)@.len() + 1,
        views(old(seen)@).to_set().contains(id@) ==> final(queue)@.len() == old(queue)@.len() && views(final(seen)@)
            == views(old(seen)@),
{
    if crate::text::contains_str(seen, id.as_str()) {
        return;
    }
    let ghost s0 = views(seen@);
    let ghost f0 = views(found@);
    let ghost q0 = queue@.map_values(|p: (String, usize)| (p.0@, p.1 as int));
    seen.push(id.clone());
    found.push(id.clone());
    queue.push((id.clone(), d));
    proof {
        assert(views(seen@) =~= s0.push(id@));
        assert forall|y: Seq<char>| #[trigger] views(seen@).contains(y) <==> s0.contains(y) || y == id@ by {
            crate::model::lemma_push_contains(s0, id@, y);
        }
        assert(views(seen@).to_set() =~= s0.to_set().insert(id@));
        assert(views(found@) =~= f0.push(id@));
        assert(queue@.map_values(|p: (String, usize)| (p.0@, p.1 as int)) =~= q0.push((id@, d as int)));
    }
}

} // verus!

verus! {

/// The neighbourhood of the seeds within `depth` steps: breadth first,
/// from each id to the antecedents of its justifications and to the nodes
/// whose justifications name it; the seeds first, then each id as it is
/// first reached.
pub fn expand_neighbors(all: &Vec<Justification>, seeds: &Vec<String>, depth: usize) -> (r: Vec<String>)
    ensures
        exists|n: nat|
            #[trigger] expand_done(expand_iter(all@, depth as int, expand_init(views(seeds@)), n)) && views(r@)
                == expand_iter(all@, depth as int, expand_init(views(seeds@)), n).found,
{
    let ghost js = all@;
    let ghost u = all_names(js);
    let ghost init = expand_init(views(seeds@));
    let mut found = crate::text::copy_strings(seeds);
    let mut seen = crate::text::copy_strings(seeds);
    let mut queue: Vec<(String, usize)> = Vec::new();
    let mut k: usize = 0;
    while k < seeds.len()
        invariant
            k <= seeds@.len(),
            queue@.map_values(|p: (String, usize)| (p.0@, p.1 as int)) == views(seeds@).take(k as int).map_values(
                |id: Seq<char>| (id, 0int),
            ),
        decreases seeds@.len() - k,
    {
        let ghost before = queue@.map_values(|p: (String, usize)| (p.0@, p.1 as int));
        queue.push((seeds[k].clone(), 0));
        proof {
            assert(queue@.map_values(|p: (String, usize)| (p.0@, p.1 as int)) =~= before.push((seeds@[k as int]@, 0int)));
            assert(views(seeds@).take(k + 1).map_values(|id: Seq<char>| (id, 0int)) =~= views(seeds@).take(k as int).map_values(
                |id: Seq<char>| (id, 0int),
            ).push((seeds@[k as int]@, 0int)));
        }
        k = k + 1;
    }
    assert(views(seeds@).take(seeds@.len() as int) =~= views(seeds@));
    let mut head: usize = 0;
    let ghost mut steps: nat = 0;
    assert(state_of(found@, seen@, queue@, 0) == init);
    while head < queue.len()
        invariant
            all@ == js,
            u == all_names(js),
            expand_iter(js, depth as int, init, steps) == state_of(found@, seen@, queue@, head as int),
            head <= queue@.len(),
        decreases 2 * unvisited(u, views(seen@).to_set()) + queue@.len() - head,
    {
        let ghost s = state_of(found@, seen@, queue@, head as int);
        let ghost m0 = 2 * unvisited(u, views(seen@).to_set()) + queue@.len();
        let ghost old_head = head;
        let cur = queue[head].0.clone();
        let d = queue[head].1;
        head = head + 1;
        let ghost s1 = Expansion { head: head as int, ..s };
        proof {
            assert(s.queue[old_head as int] == (cur@, d as int));
            assert(state_of(found@, seen@, queue@, head as int) == s1);
        }
        if d < depth {
            let nd = d + 1;
            let mut k: usize = 0;
            assert(js.take(0) =~= Seq::<Justification>::empty());
            while k < all.len()
                invariant
                    all@ == js,
                    u == all_names(js),
                    k <= js.len(),
                    head <= queue@.len(),
                    state_of(found@, seen@, queue@, head as int) == from_justs(s1, js.take(k as int), cur@, nd as int),
                    2 * unvisited(u, views(seen@).to_set()) + queue@.len() <= m0,
                decreases js.len() - k,
            {
                let j = &all[k];
                assert(js.take(k + 1).drop_last() =~= js.take(k as int));
                assert(js.take(k + 1).last() == js[k as int]);
                if str_eq(j.node_id.as_str(), cur.as_str()) {
                    let ghost sj = state_of(found@, seen@, queue@, head as int);
                    let mut a: usize = 0;
                    assert(views(j.antecedents@).take(0) =~= Seq::<Seq<char>>::empty());
                    while a < j.antecedents.len()
                        invariant
                            all@ == js,
                            u == all_names(js),
                            k < js.len(),
                            *j == js[k as int],
                            a <= j.antecedents@.len(),
                            head <= queue@.len(),
                            state_of(found@, seen@, queue@, head as int) == note_all(
                                sj,
                                views(j.antecedents@).take(a as int),
                                nd as int,
                            ),
                            2 * unvisited(u, views(seen@).to_set()) + queue@.len() <= m0,
                        decreases j.antecedents@.len() - a,
                    {
                        let ghost seen0 = views(seen@).to_set();
                        let ghost q0 = queue@.len();
                        let x = &j.antecedents[a];
                        note_exec(&mut found, &mut seen, &mut queue, x, nd, Ghost(head as int));
                        proof {
                            assert(views(j.antecedents@).take(a + 1).drop_last() =~= views(j.antecedents@).take(a as int));
                            assert(views(j.antecedents@).take(a + 1).last() == x@);
                            if !seen0.contains(x@) {
                                assert(views(j.antecedents@)[a as int] == x@);
                                lemma_all_names(js, k as int, x@);
                                crate::model::lemma_unvisited_strict(u, seen0, views(seen@).to_set(), x@);
                            }
                        }
                        a = a + 1;
                    }
                    assert(views(j.antecedents@).take(j.antecedents@.len() as int) =~= views(j.antecedents@));
                }
                k = k + 1;
            }
            assert(js.take(js.len() as int) =~= js);
            let ghost s2 = state_of(found@, seen@, queue@, head as int);
            let mut k: usize = 0;
            assert(js.take(0) =~= Seq::<Justification>::empty());
            while k < all.len()
                invariant
                    all@ == js,
                    u == all_names(js),
                    k <= js.len(),
                    head <= queue@.len(),
                    state_of(found@, seen@, queue@, head as int) == to_justs(s2, js.take(k as int), cur@, nd as int),
                    2 * unvisited(u, views(seen@).to_set()) + queue@.len() <= m0,
                decreases js.len() - k,
            {
                let j = &all[k];
                assert(js.take(k + 1).drop_last() =~= js.take(k as int));
                assert(js.take(k + 1).last() == js[k as int]);
                let names_cur = crate::text::contains_str(&j.antecedents, cur.as_str()) || crate::text::contains_str(
                    &j.outlist,
                    cur.as_str(),
                );
                if names_cur {
                    let ghost seen0 = views(seen@).to_set();
                    note_exec(&mut found, &mut seen, &mut queue, &j.node_id, nd, Ghost(head as int));
                    proof {
                        if !seen0.contains(j.node_id@) {
                            lemma_all_names(js, k as int, j.node_id@);
                            crate::model::lemma_unvisited_strict(u, seen0, views(seen@).to_set(), j.node_id@);
                        }
                    }
                }
                k = k + 1;
            }
            assert(js.take(js.len() as int) =~= js);
        }
        proof {
            steps = steps + 1;
        }
    }
    proof {
        assert(expand_done(expand_iter(all@, depth as int, expand_init(views(seeds@)), steps)));
        assert(views(found@) == expand_iter(all@, depth as int, expand_init(views(seeds@)), steps).found);
    }
    found
}

/// The hits a search shows: each names a node of the network whose id was
/// found, and, unless `include_out`, none names an OUT node; every found id
/// that names a node (IN, or any with `include_out`) is among them.
pub proof fn law_search_hits(net: Network, ids: Seq<Seq<char>>, include_out: bool)
    ensures
        ({
            let hits = hits_spec(net, ids, include_out);
            &&& forall|k: int|
                0 <= k < hits.len() ==> {
                    &&& 0 <= #[trigger] hits[k] < net.nodes@.len()
                    &&& ids.contains(net.nodes@[hits[k]].id@)
                    &&& !include_out ==> net.nodes@[hits[k]].truth_value@ != "OUT"@
                }
            &&& forall|id: Seq<char>|
                #[trigger] ids.contains(id) && net.node(id) is Some && (include_out || net.node(id)->0.truth_value@ != "OUT"@)
                    ==> hits.contains(crate::model::node_idx(net.tms(), id))
        }),
    decreases ids.len(),
{
    if ids.len() > 0 {
        law_search_hits(net, ids.drop_last(), include_out);
        let r = hits_spec(net, ids.drop_last(), include_out);
        let hits = hits_spec(net, ids, include_out);
        let last = ids.last();
        let i = crate::model::node_idx(net.tms(), last);
        net.lemma_tms_keys();
        crate::model::lemma_first_index(crate::model::node_keys(net.tms()), last);
        assert forall|k: int| 0 <= k < hits.len() implies {
            &&& 0 <= #[trigger] hits[k] < net.nodes@.len()
            &&& ids.contains(net.nodes@[hits[k]].id@)
            &&& !include_out ==> net.nodes@[hits[k]].truth_value@ != "OUT"@
        } by {
            if k < r.len() {
                assert(hits[k] == r[k]);
                let x = net.nodes@[r[k]].id@;
                assert(ids.drop_last().contains(x));
                let m = choose|m: int| 0 <= m < ids.drop_last().len() && ids.drop_last()[m] == x;
                assert(ids[m] == x);
            } else {
                assert(hits[k] == i);
                assert(crate::model::node_keys(net.tms())[i] == last);
                assert(ids[ids.len() - 1] == last);
            }
        }
        assert forall|id: Seq<char>|
            #[trigger] ids.contains(id) && net.node(id) is Some && (include_out || net.node(id)->0.truth_value@ != "OUT"@)
                implies hits.contains(crate::model::node_idx(net.tms(), id)) by {
            if id == last {
                assert(hits[hits.len() - 1] == i);
            } else {
                let m = choose|m: int| 0 <= m < ids.len() && ids[m] == id;
                assert(ids.drop_last()[m] == id);
                assert(ids.drop_last().contains(id));
                let q = choose|q: int| 0 <= q < r.len() && r[q] == crate::model::node_idx(net.tms(), id);
                assert(hits[q] == r[q]);
            }
        }
    }
}

} // verus!
