use reasons::beliefs::parse_beliefs;
use reasons::clock::{rfc3339_from, timestamp};
use reasons::export::{export_document, render_markdown, schema_version_or_default, ExportMeta};
use reasons::import::{import_document, import_json_text};
use reasons::jsontext::{metadata_value, stored_metadata, stored_strings};
use reasons::json::JsonValue;
use reasons::network::Network;
use reasons::types::{Justification, Node, Nogood};

fn add(net: &mut Network, id: &str, text: &str, sl: Option<&str>, source: Option<&str>) {
    net.add_belief(id, text, sl, None, source, None, None).unwrap();
}

fn all_justs(net: &Network) -> Vec<Justification> {
    let mut out = Vec::new();
    for g in &net.justifications {
        for j in &g.justs {
            out.push(j.clone());
        }
    }
    out
}

fn meta() -> ExportMeta {
    ExportMeta {
        schema_version: "1.0".to_string(),
        project_name: "demo".to_string(),
        created_at: "2026-01-01".to_string(),
        updated_at: "2026-01-02".to_string(),
        version: "0.1.0".to_string(),
    }
}

#[test]
fn export_import_json_round_trip() {
    let mut net = Network::new();
    add(&mut net, "a", "Fact A", None, Some("src"));
    add(&mut net, "b", "Fact B", None, None);
    add(&mut net, "c", "Derived", Some("a,b"), None);

    let doc = export_document(&meta(), &net.nodes, &all_justs(&net), &Vec::new(), &Vec::new());
    let back = import_document(&doc);
    let ids: Vec<&str> = back.nodes.iter().map(|(n, _)| n.id.as_str()).collect();
    assert!(ids.contains(&"a"));
    assert!(ids.contains(&"b"));
    assert!(ids.contains(&"c"));

    let (a, a_justs) = back.nodes.iter().find(|(n, _)| n.id == "a").unwrap();
    assert_eq!(a.source, "src");
    assert_eq!(a.text, "Fact A");
    assert!(a_justs.is_empty());
    let (_, c_justs) = back.nodes.iter().find(|(n, _)| n.id == "c").unwrap();
    assert_eq!(c_justs.len(), 1);
    assert_eq!(c_justs[0].antecedents, vec!["a", "b"]);
    assert_eq!(c_justs[0].jtype, "SL");

    // Loaded into a network, the imported beliefs behave as before.
    let mut nodes = Vec::new();
    let mut justs = Vec::new();
    for (n, js) in back.nodes {
        nodes.push(n);
        justs.extend(js);
    }
    let mut net2 = Network::load(nodes, justs);
    assert_eq!(net2.recompute_all(), Vec::<String>::new());
    let show = net2.show_text("a", &all_justs(&net2)).unwrap();
    assert!(show.contains("Source: src"));
}

#[test]
fn export_document_shape() {
    let mut net = Network::new();
    add(&mut net, "a", "Fact A", None, None);
    net.retract("a", Some("gone"));
    let ng = Nogood {
        id: "nogood-001".to_string(),
        nodes: vec!["a".to_string()],
        discovered: "2026-01-01".to_string(),
        resolution: String::new(),
    };
    let doc = export_document(&meta(), &net.nodes, &all_justs(&net), &vec![ng], &Vec::new());
    let m = doc.get("meta").unwrap();
    assert_eq!(m.get_str("project_name").map(|s| s.as_str()), Some("demo"));
    assert_eq!(m.get_str("generator").map(|s| s.as_str()), Some("reasons/0.1.0"));
    let node_a = doc.get("nodes").unwrap().get("a").unwrap();
    assert_eq!(node_a.get_str("truth_value").map(|s| s.as_str()), Some("OUT"));
    // Keys starting with an underscore are not exported.
    let md = node_a.get("metadata").unwrap();
    assert!(md.get("_retracted").is_none());
    assert_eq!(md.get_str("retract_reason").map(|s| s.as_str()), Some("gone"));
    match doc.get("nogoods") {
        Some(JsonValue::Array(items)) => {
            assert_eq!(items.len(), 1);
            assert_eq!(items[0].get_str("id").map(|s| s.as_str()), Some("nogood-001"));
        },
        _ => panic!("nogoods must be an array"),
    }
}

#[test]
fn import_document_defaults_missing_fields() {
    let doc = JsonValue::Object(vec![(
        "nodes".to_string(),
        JsonValue::Object(vec![(
            "x".to_string(),
            JsonValue::Object(vec![
                ("text".to_string(), JsonValue::Str("X".to_string())),
                (
                    "justifications".to_string(),
                    JsonValue::Array(vec![JsonValue::Object(vec![(
                        "antecedents".to_string(),
                        JsonValue::Array(vec![JsonValue::Str("y".to_string()), JsonValue::Number("3".to_string())]),
                    )])]),
                ),
            ]),
        )]),
    )]);
    let back = import_document(&doc);
    assert_eq!(back.nodes.len(), 1);
    let (n, js) = &back.nodes[0];
    assert_eq!(n.id, "x");
    assert_eq!(n.truth_value, "IN");
    assert_eq!(n.created_at, "");
    assert_eq!(js.len(), 1);
    assert_eq!(js[0].jtype, "SL");
    assert_eq!(js[0].antecedents, vec!["y"]);
    assert!(js[0].outlist.is_empty());
    assert!(back.nogoods.is_empty());
}

#[test]
fn export_import_markdown_round_trip() {
    let mut net = Network::new();
    add(&mut net, "p1", "A premise", None, None);
    add(&mut net, "d1", "A derived belief", Some("p1"), None);

    let md = render_markdown("demo", "2026-01-02", "0.1.0", &net.nodes, &all_justs(&net), &Vec::new(), &Vec::new());
    let doc = parse_beliefs(&md);
    let ids: Vec<&str> = doc.claims.iter().map(|c| c.id.as_str()).collect();
    assert!(ids.contains(&"p1"));
    assert!(ids.contains(&"d1"));
    let d1 = doc.claims.iter().find(|c| c.id == "d1").unwrap();
    assert_eq!(d1.depends, vec!["p1"]);
    assert_eq!(d1.text, "A derived belief");
    match d1.records() {
        Some((node, Some(j))) => {
            assert_eq!(node.id, "d1");
            assert_eq!(node.truth_value, "IN");
            assert_eq!(j.antecedents, vec!["p1"]);
        },
        _ => panic!("d1 is stored with a justification"),
    }
}

#[test]
fn render_markdown_exact() {
    let mut n = Node::new("x".to_string(), "Some text".to_string());
    n.source = "doc".to_string();
    n.truth_value = "OUT".to_string();
    n.metadata = JsonValue::Object(vec![("retract_reason".to_string(), JsonValue::Str("r".to_string()))]);
    let j = Justification::new_sl("x".into(), vec!["a".into(), "a".into()], vec!["z".into()], String::new());
    let ng = Nogood {
        id: "nogood-001".to_string(),
        nodes: vec!["x".to_string(), "y".to_string()],
        discovered: "d".to_string(),
        resolution: String::new(),
    };
    let repos = vec![("r1".to_string(), "/p".to_string())];
    let md = render_markdown("proj", "u", "9", &vec![n], &vec![j], &vec![ng], &repos);
    let expected = "---\nschema_version: \"1.0\"\nproject_name: \"proj\"\nupdated_at: \"u\"\nnode_count: 1\ngenerator: \"reasons/9\"\n---\n\n\
# Belief Registry\n\n## Claims\n\n\
### x [STALE] DERIVED\nSome text\n\n- Source: doc\n- Depends on: a\n- Unless: z\n\n\
## Repos\n\n- r1: /p\n\n\
## Nogoods\n\n### nogood-001\n- Discovered: d\n- Affects: x, y\n\n";
    assert_eq!(md, expected);
}

#[test]
fn parse_beliefs_reads_claims_and_repos() {
    let content = "---\ntitle: x\n---\n\n# Registry\n\n## Claims\n\n### a [OUT] OBSERVATION\nFirst line\ncontinues here\n\n- Source: s\n- Source URL: http://u\n\n### b [IN] DERIVED\nB text\n- Depends on: a, c\n- Unless: d\n\n## Repos\n\n- main: /repo/path\n\n## Nogoods\n\n### nogood-001\n- Affects: a\n";
    let doc = parse_beliefs(content);
    assert_eq!(doc.claims.len(), 2);
    let a = &doc.claims[0];
    assert_eq!(a.id, "a");
    assert_eq!(a.status.as_deref(), Some("OUT"));
    assert_eq!(a.text, "First line continues here");
    assert_eq!(a.source, "s");
    assert_eq!(a.source_url, "http://u");
    let b = &doc.claims[1];
    assert_eq!(b.depends, vec!["a", "c"]);
    assert_eq!(b.unless, vec!["d"]);
    assert_eq!(doc.repos, vec![("main".to_string(), "/repo/path".to_string())]);
    match a.records() {
        Some((node, None)) => assert_eq!(node.truth_value, "OUT"),
        _ => panic!("a is a premise"),
    }
}

#[test]
fn parse_beliefs_skips_claims_without_text() {
    let doc = parse_beliefs("## Claims\n\n### empty [IN]\n\n### full\nhas text\n");
    assert_eq!(doc.claims.len(), 2);
    assert!(doc.claims[0].records().is_none());
    assert_eq!(doc.claims[1].status, None);
    match doc.claims[1].records() {
        Some((node, None)) => assert_eq!(node.truth_value, "IN"),
        _ => panic!("full is a premise"),
    }
}

#[test]
fn import_json_text_reads_a_document() {
    let text = r#"{"nodes": {"a": {"text": "Fact A", "truth_value": "IN", "justifications": []}}, "nogoods": [], "repos": {}}"#;
    let doc = import_json_text(text).expect("a JSON document");
    assert_eq!(doc.nodes.len(), 1);
    assert_eq!(doc.nodes[0].0.id, "a");
    assert_eq!(doc.nodes[0].0.text, "Fact A");
    assert!(import_json_text("{not json").is_none());
}

#[test]
fn metadata_value_reads_json_or_keeps_text() {
    match metadata_value("custom_value") {
        JsonValue::Str(s) => assert_eq!(s, "custom_value"),
        _ => panic!("expected a string"),
    }
    match metadata_value("[1, \"x\"]") {
        JsonValue::Array(items) => {
            assert_eq!(items.len(), 2);
            assert!(matches!(&items[0], JsonValue::Number(n) if n == "1"));
            assert!(matches!(&items[1], JsonValue::Str(s) if s == "x"));
        }
        _ => panic!("expected an array"),
    }
    match metadata_value("true") {
        JsonValue::Bool(b) => assert!(b),
        _ => panic!("expected a boolean"),
    }
}

#[test]
fn stored_metadata_falls_back_to_an_empty_object() {
    match stored_metadata("oops") {
        JsonValue::Object(es) => assert!(es.is_empty()),
        _ => panic!("expected an object"),
    }
    assert_eq!(stored_metadata(r#"{"k": "v"}"#).get_str("k").map(|s| s.as_str()), Some("v"));
}

#[test]
fn export_meta_defaults_from_the_store() {
    let m = ExportMeta::from_stored(None, None, Some("2024-01-01".to_string()), None, "0.1.0".to_string());
    assert_eq!(m.schema_version, "1.0");
    assert_eq!(m.project_name, "");
    assert_eq!(m.created_at, "2024-01-01");
    assert_eq!(m.updated_at, "");
    assert_eq!(m.version, "0.1.0");
    assert_eq!(schema_version_or_default(Some("2.0".to_string())), "2.0");
    assert_eq!(schema_version_or_default(None), "1.0");
}

#[test]
fn stored_strings_reads_a_list_of_ids() {
    assert_eq!(stored_strings(r#"["a", "b"]"#), vec!["a", "b"]);
    assert_eq!(stored_strings(r#"["a", 1]"#), Vec::<String>::new());
    assert_eq!(stored_strings("not json"), Vec::<String>::new());
    assert_eq!(stored_strings("[]"), Vec::<String>::new());
}

#[test]
fn clock_text_for_a_reading() {
    assert_eq!(rfc3339_from(Some((0, 0))).as_deref(), Some("1970-01-01T00:00:00+00:00"));
    assert_eq!(rfc3339_from(None), None);
    assert_eq!(rfc3339_from(Some((u64::MAX, 0))), None);
    let now = timestamp();
    assert!(now.starts_with("20"));
}
