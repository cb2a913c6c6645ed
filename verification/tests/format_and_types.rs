use reasons::format::{can_truncate, format_node_detail, format_node_line, format_nodes_minimal, truncate};
use reasons::json::JsonValue;
use reasons::tree::build_prefix;
use reasons::types::{Justification, Node};

fn node(id: &str, text: &str) -> Node {
    Node::new(id.to_string(), text.to_string())
}

#[test]
fn truncate_short_string_unchanged() {
    assert_eq!(truncate("hello", 10), "hello");
}

#[test]
fn truncate_exact_length_unchanged() {
    assert_eq!(truncate("12345", 5), "12345");
}

#[test]
fn truncate_long_string_gets_ellipsis() {
    assert_eq!(truncate("hello world", 8), "hello...");
}

#[test]
fn truncate_empty_string() {
    assert_eq!(truncate("", 5), "");
}

#[test]
fn truncate_limit_below_three_keeps_only_ellipsis() {
    assert_eq!(truncate("abcdef", 2), "...");
    assert_eq!(truncate("abcdef", 0), "...");
}

#[test]
fn truncate_counts_bytes_not_chars() {
    // "é" takes two bytes: six characters, seven bytes.
    assert_eq!(truncate("abcdéf", 6), "abc...");
    assert!(can_truncate("abcdéf", 6));
    // Nine bytes; a limit of 8 cuts at byte 5, inside "é".
    assert!(!can_truncate("abcdéfgh", 8));
    assert!(can_truncate("abcdéfgh", 7));
    assert!(can_truncate("abcdéfgh", 9));
}

#[test]
fn format_node_line_includes_fields() {
    let n = node("test-id", "Some belief text");
    let line = format_node_line(&n);
    assert!(line.contains("[IN]"));
    assert!(line.contains("test-id"));
    assert!(line.contains("Some belief text"));
}

#[test]
fn format_node_line_exact() {
    let n = node("x", "abc");
    assert_eq!(format_node_line(&n), "[IN] x: abc");
    let long = "a".repeat(100);
    let n2 = node("y", &long);
    let line = format_node_line(&n2);
    assert_eq!(line, format!("[IN] y: {}...", "a".repeat(77)));
}

#[test]
fn format_node_detail_includes_text_and_timestamps() {
    let n = node("test-id", "Belief text");
    let detail = format_node_detail(&n);
    assert!(detail.contains("test-id [IN]"));
    assert!(detail.contains("Text: Belief text"));
    assert!(detail.contains("Created:"));
}

#[test]
fn format_node_detail_includes_source_when_set() {
    let mut n = node("x", "text");
    n.source = "doc.md".to_string();
    let detail = format_node_detail(&n);
    assert!(detail.contains("Source: doc.md"));
}

#[test]
fn format_node_detail_omits_empty_source() {
    let n = node("x", "text");
    let detail = format_node_detail(&n);
    assert!(!detail.contains("Source:"));
}

#[test]
fn format_node_detail_exact() {
    let mut n = node("x", "text");
    n.source_url = "https://example.com".to_string();
    n.created_at = "2026-01-01".to_string();
    n.updated_at = String::new();
    assert_eq!(
        format_node_detail(&n),
        "x [IN]\n  Text: text\n  Source URL: https://example.com\n  Created: 2026-01-01\n"
    );
}

#[test]
fn format_nodes_minimal_one_line_per_node() {
    let nodes = vec![node("a", "A"), node("b", "B")];
    let output = format_nodes_minimal(&nodes);
    let lines: Vec<&str> = output.lines().collect();
    assert_eq!(lines.len(), 2);
    assert!(lines[0].contains("a [IN]"));
    assert!(lines[1].contains("b [IN]"));
}

#[test]
fn format_nodes_minimal_exact_and_empty() {
    let nodes = vec![node("a", "A"), node("b", "B")];
    assert_eq!(format_nodes_minimal(&nodes), "a [IN]\nb [IN]");
    assert_eq!(format_nodes_minimal(&[]), "");
}

#[test]
fn node_new_defaults() {
    let n = Node::new("test".to_string(), "text".to_string());
    assert_eq!(n.id, "test");
    assert_eq!(n.text, "text");
    assert_eq!(n.truth_value, "IN");
    assert!(!n.created_at.is_empty());
    assert!(!n.updated_at.is_empty());
}

#[test]
fn node_new_has_empty_object_metadata() {
    let n = Node::new("test".to_string(), "text".to_string());
    assert!(n.metadata.is_object());
    assert_eq!(n.created_at, n.updated_at);
    assert!(n.retracted_at.is_empty());
    assert!(n.source.is_empty());
}

#[test]
fn is_premise_true_when_zero() {
    let n = Node::new("x".to_string(), "t".to_string());
    assert!(n.is_premise(0));
}

#[test]
fn is_premise_false_when_nonzero() {
    let n = Node::new("x".to_string(), "t".to_string());
    assert!(!n.is_premise(1));
}

#[test]
fn beliefs_type_from_metadata() {
    let mut n = Node::new("x".to_string(), "t".to_string());
    n.metadata = JsonValue::Object(vec![("beliefs_type".to_string(), JsonValue::Str("AXIOM".to_string()))]);
    assert_eq!(n.beliefs_type(0), "AXIOM");
}

#[test]
fn beliefs_type_ignores_non_string_metadata() {
    let mut n = Node::new("x".to_string(), "t".to_string());
    n.metadata = JsonValue::Object(vec![("beliefs_type".to_string(), JsonValue::Bool(true))]);
    assert_eq!(n.beliefs_type(0), "OBSERVATION");
}

#[test]
fn beliefs_type_derived_when_has_justifications() {
    let n = Node::new("x".to_string(), "t".to_string());
    assert_eq!(n.beliefs_type(3), "DERIVED");
}

#[test]
fn beliefs_type_observation_when_premise() {
    let n = Node::new("x".to_string(), "t".to_string());
    assert_eq!(n.beliefs_type(0), "OBSERVATION");
}

#[test]
fn justification_new_sl() {
    let j = Justification::new_sl(
        "node".to_string(),
        vec!["a".to_string()],
        vec!["b".to_string()],
        "label".to_string(),
    );
    assert_eq!(j.jtype, "SL");
    assert_eq!(j.rowid, 0);
    assert_eq!(j.node_id, "node");
    assert_eq!(j.antecedents, vec!["a"]);
    assert_eq!(j.outlist, vec!["b"]);
    assert_eq!(j.label, "label");
}

#[test]
fn build_prefix_indents_by_depth() {
    assert_eq!(build_prefix(0, true), "");
    assert_eq!(build_prefix(1, false), "│   ");
    assert_eq!(build_prefix(3, true), "│   │   │   ");
}
