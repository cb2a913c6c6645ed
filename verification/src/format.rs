//! Text renderings of beliefs.
use vstd::prelude::*;
use vstd::utf8::*;
use vstd::string::*;
use crate::text::{join, join_seq, owned};
use crate::types::{views, Node};

verus! {

/// The byte length past which `truncate` cuts, and where it then cuts.
pub open spec fn cut_at(max_len: nat) -> int {
    if max_len >= 3 {
        max_len - 3
    } else {
        0
    }
}

/// `truncate` can cut `s`: it is short enough, or the cut falls between
/// two characters.
pub open spec fn truncatable(s: Seq<char>, max_len: nat) -> bool {
    encode_utf8(s).len() <= max_len || is_char_boundary(encode_utf8(s), cut_at(max_len))
}

/// `s` when its UTF-8 encoding has at most `max_len` bytes; otherwise the
/// characters of its first `max_len - 3` bytes followed by `...`.
pub open spec fn truncated(s: Seq<char>, max_len: nat) -> Seq<char> {
    let b = encode_utf8(s);
    if b.len() <= max_len {
        s
    } else {
        decode_utf8(b.subrange(0, cut_at(max_len))) + "..."@
    }
}

/// Shorten `s` to `max_len` bytes, ending in `...` when it was longer.
/// The cut is made at byte `max_len - 3`, which must fall between two
/// characters.
pub fn truncate(s: &str, max_len: usize) -> (r: String)
    requires
        truncatable(s@, max_len as nat),
    ensures
        r@ == truncated(s@, max_len as nat),
{
    let n = s.as_bytes().len();
    if n <= max_len {
        owned(s)
    } else {
        let k = if max_len >= 3 {
            max_len - 3
        } else {
            0
        };
        let (head, _tail) = s.split_at(k);
        proof {
            encode_utf8_decode_utf8(head@);
        }
        let mut r = owned(head);
        r.append("...");
        r
    }
}

/// `s` can be cut where `truncate` would cut it.
pub fn can_truncate(s: &str, max_len: usize) -> (r: bool)
    ensures
        r == truncatable(s@, max_len as nat),
{
    let k = if max_len >= 3 {
        max_len - 3
    } else {
        0
    };
    s.as_bytes().len() <= max_len || s.is_char_boundary(k)
}

/// `[truth] id: text`, the text truncated to 80 bytes.
pub open spec fn node_line(n: Node) -> Seq<char> {
    "["@ + n.truth_value@ + "] "@ + n.id@ + ": "@ + truncated(n.text@, 80)
}

/// One line for a node: its truth value, id and truncated text.
pub fn format_node_line(node: &Node) -> (r: String)
    requires
        truncatable(node.text@, 80),
    ensures
        r@ == node_line(*node),
{
    let mut r = owned("[");
    r.append(node.truth_value.as_str());
    r.append("] ");
    r.append(node.id.as_str());
    r.append(": ");
    let t = truncate(node.text.as_str(), 80);
    r.append(t.as_str());
    r
}

/// `  label value\n` when `value` is not empty, nothing otherwise.
pub open spec fn detail_field(label: Seq<char>, value: Seq<char>) -> Seq<char> {
    if value.len() > 0 {
        "  "@ + label + value + "\n"@
    } else {
        Seq::empty()
    }
}

/// The detail block of a node: id and truth value, text, then source,
/// source URL and timestamps where they are set.
pub open spec fn node_detail(n: Node) -> Seq<char> {
    n.id@ + " ["@ + n.truth_value@ + "]\n"@ + "  Text: "@ + n.text@ + "\n"@
        + detail_field("Source: "@, n.source@) + detail_field("Source URL: "@, n.source_url@)
        + detail_field("Created: "@, n.created_at@) + detail_field("Updated: "@, n.updated_at@)
}

fn push_field(out: &mut String, label: &str, value: &String)
    ensures
        final(out)@ == old(out)@ + detail_field(label@, value@),
{
    if !value.as_str().is_empty() {
        out.append("  ");
        out.append(label);
        out.append(value.as_str());
        out.append("\n");
    } else {
        assert(old(out)@ + detail_field(label@, value@) =~= old(out)@);
    }
}

/// The detail block of a node.
pub fn format_node_detail(node: &Node) -> (r: String)
    ensures
        r@ == node_detail(*node),
{
    let mut out = owned(node.id.as_str());
    out.append(" [");
    out.append(node.truth_value.as_str());
    out.append("]\n");
    out.append("  Text: ");
    out.append(node.text.as_str());
    out.append("\n");
    push_field(&mut out, "Source: ", &node.source);
    push_field(&mut out, "Source URL: ", &node.source_url);
    push_field(&mut out, "Created: ", &node.created_at);
    push_field(&mut out, "Updated: ", &node.updated_at);
    out
}

/// `id [truth]`.
pub open spec fn minimal_line(n: Node) -> Seq<char> {
    n.id@ + " ["@ + n.truth_value@ + "]"@
}

/// One `id [truth]` line per node, joined by newlines.
pub fn format_nodes_minimal(nodes: &[Node]) -> (r: String)
    ensures
        r@ == join_seq(nodes@.map_values(|n: Node| minimal_line(n)), "\n"@),
{
    let mut lines: Vec<String> = Vec::new();
    let mut k: usize = 0;
    while k < nodes.len()
        invariant
            k <= nodes@.len(),
            views(lines@) == nodes@.take(k as int).map_values(|n: Node| minimal_line(n)),
        decreases nodes@.len() - k,
    {
        let n = &nodes[k];
        let mut l = owned(n.id.as_str());
        l.append(" [");
        l.append(n.truth_value.as_str());
        l.append("]");
        let ghost before = lines@;
        lines.push(l);
        assert(views(lines@) =~= views(before).push(minimal_line(nodes@[k as int])));
        assert(nodes@.take(k + 1).map_values(|n: Node| minimal_line(n)) =~= nodes@.take(k as int).map_values(
            |n: Node| minimal_line(n),
        ).push(minimal_line(nodes@[k as int])));
        k = k + 1;
    }
    assert(nodes@.take(nodes@.len() as int) =~= nodes@);
    join(&lines, "\n")
}

} // verus!
