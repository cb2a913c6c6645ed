use reasons::json::{set_str, JsonValue};
use reasons::listing::list_lines;
use reasons::network::Network;
use reasons::nogood::Resolution;
use reasons::query::status_lines;
use reasons::search::{expand_neighbors, fts_query, search_queries, search_terms};
use reasons::types::{Justification, TmsError};

fn add(net: &mut Network, id: &str, text: &str, sl: Option<&str>, source: Option<&str>) -> Vec<String> {
    match net.add_belief(id, text, sl, None, source, None, None) {
        Ok(changed) => changed,
        Err(e) => panic!("add {} refused: {:?}", id, e),
    }
}

fn truth(net: &Network, id: &str) -> String {
    let i = net.node_index(id).expect("node exists");
    net.nodes[i].truth_value.clone()
}

fn all_justs(net: &Network) -> Vec<Justification> {
    let mut out = Vec::new();
    for g in &net.justifications {
        for j in &g.justs {
            out.push(j.clone());
        }
    }
    out
}

fn listing(net: &Network, status: Option<&str>, premises: bool) -> Vec<String> {
    list_lines(&net.nodes, &all_justs(net), status, premises, false, false).expect("texts cut cleanly")
}

#[test]
fn add_and_show_round_trip() {
    let mut net = Network::new();
    add(&mut net, "fact-1", "The earth is round", None, Some("science"));
    let show = net.show_text("fact-1", &all_justs(&net)).unwrap();
    assert!(show.contains("fact-1 [IN]"));
    assert!(show.contains("The earth is round"));
    assert!(show.contains("Source: science"));
}

#[test]
fn add_refuses_existing_id() {
    let mut net = Network::new();
    add(&mut net, "a", "A", None, None);
    match net.add_belief("a", "again", None, None, None, None, None) {
        Err(TmsError::NodeExists(id)) => assert_eq!(id, "a"),
        other => panic!("expected NodeExists, got {:?}", other.map(|_| ())),
    }
    assert_eq!(net.nodes.len(), 1);
}

#[test]
fn add_derived_with_justification() {
    let mut net = Network::new();
    add(&mut net, "a", "Premise A", None, None);
    add(&mut net, "b", "Premise B", None, None);
    add(&mut net, "c", "Derived from A and B", Some("a,b"), None);

    let show = net.show_text("c", &all_justs(&net)).unwrap();
    assert!(show.contains("c [IN]"));
    assert!(show.contains("SL: a, b"));

    let explain = net.explain_lines("c").unwrap();
    assert_eq!(
        explain,
        vec!["c is IN because:", "  Justified by SL: a, b", "    a is IN (premise)", "    b is IN (premise)"]
    );
}

#[test]
fn explain_out_node_lists_failures() {
    let mut net = Network::new();
    add(&mut net, "a", "Premise A", None, None);
    add(&mut net, "c", "Needs A", Some("a,zz"), None);
    assert_eq!(truth(&net, "c"), "OUT");
    let explain = net.explain_lines("c").unwrap();
    assert_eq!(explain, vec!["c is OUT because:", "  SL: a, zz — zz not found"]);
    assert!(net.explain_lines("missing").is_none());
}

#[test]
fn show_lists_justifications_and_dependents() {
    let mut net = Network::new();
    add(&mut net, "a", "Premise A", None, None);
    add(&mut net, "b", "Premise B", None, None);
    net.add_belief("c", "Derived", Some("a"), Some("b"), None, None, Some("why")).unwrap();
    let show_c = net.show_text("c", &all_justs(&net)).unwrap();
    assert!(show_c.ends_with("  Justifications:\n    [0] SL: a (unless: b) [why]\n"));
    let show_a = net.show_text("a", &all_justs(&net)).unwrap();
    assert!(show_a.ends_with("\n  Dependents:\n    c [OUT]: Derived\n"));
    match net.show_text("nope", &all_justs(&net)) {
        Err(TmsError::NodeNotFound(id)) => assert_eq!(id, "nope"),
        _ => panic!("expected NodeNotFound"),
    }
}

#[test]
fn retract_cascade_and_restore() {
    let mut net = Network::new();
    add(&mut net, "a", "Premise", None, None);
    add(&mut net, "b", "Derived from A", Some("a"), None);
    add(&mut net, "c", "Derived from B", Some("b"), None);

    let cascaded = net.retract("a", Some("testing"));
    assert_eq!(cascaded, vec!["b", "c"]);
    assert_eq!(net.cascade_summary(&cascaded), "b OUT, c OUT");

    let list = listing(&net, None, false).join("\n");
    assert!(list.contains("[OUT] a"));
    assert!(list.contains("[OUT] b"));
    assert!(list.contains("[OUT] c"));
    let i = net.node_index("a").unwrap();
    assert!(net.nodes[i].metadata.get_flag("_retracted"));
    assert_eq!(net.nodes[i].metadata.get_str("retract_reason").map(|s| s.as_str()), Some("testing"));
    assert!(!net.nodes[i].retracted_at.is_empty());

    let restored = net.assert_node("a");
    assert_eq!(restored, vec!["b", "c"]);
    let list2 = listing(&net, None, false).join("\n");
    assert!(list2.contains("[IN] a"));
    assert!(list2.contains("[IN] b"));
    assert!(list2.contains("[IN] c"));
    assert!(!net.nodes[i].metadata.get_flag("_retracted"));
    assert!(net.nodes[i].retracted_at.is_empty());
}

#[test]
fn assert_after_retract_gives_back_metadata() {
    let mut net = Network::new();
    add(&mut net, "a", "Premise", None, Some("notes"));
    add(&mut net, "b", "Derived from A", Some("a"), None);
    let i = net.node_index("a").unwrap();
    set_str(&mut net.nodes[i].metadata, "beliefs_type", "AXIOM");
    net.retract("a", Some("for now"));
    net.assert_node("a");
    assert_eq!(net.nodes[i].metadata.get_str("beliefs_type").map(|s| s.as_str()), Some("AXIOM"));
    assert!(net.nodes[i].metadata.get("_retracted").is_none());
    assert!(net.nodes[i].metadata.get("retract_reason").is_none());
    assert!(net.nodes[i].retracted_at.is_empty());
    assert_eq!(net.nodes[i].text, "Premise");
    assert_eq!(net.nodes[i].source, "notes");
    assert_eq!(truth(&net, "a"), "IN");
    assert_eq!(truth(&net, "b"), "IN");
}

#[test]
fn adding_a_premise_revives_nodes_waiting_for_it() {
    let mut net = Network::new();
    add(&mut net, "d", "Derived from X", Some("x"), None);
    assert_eq!(truth(&net, "d"), "OUT");
    let changed = add(&mut net, "x", "X", None, None);
    assert_eq!(changed, vec!["d"]);
    assert_eq!(truth(&net, "x"), "IN");
    assert_eq!(truth(&net, "d"), "IN");
}

#[test]
fn a_justified_node_inherits_access_tags() {
    let mut net = Network::new();
    add(&mut net, "a", "A", None, None);
    add(&mut net, "b", "B", None, None);
    add(&mut net, "c", "C", None, None);
    let tags = |xs: &[&str]| JsonValue::Array(xs.iter().map(|x| JsonValue::Str(x.to_string())).collect());
    let ia = net.node_index("a").unwrap();
    assert!(net.nodes[ia].metadata.insert("access_tags".to_string(), tags(&["x", "y"])));
    let ib = net.node_index("b").unwrap();
    assert!(net.nodes[ib].metadata.insert("access_tags".to_string(), tags(&["y", "z"])));
    let ic = net.node_index("c").unwrap();
    assert!(net.nodes[ic].metadata.insert("access_tags".to_string(), tags(&["x"])));
    net.justify("c", "a,b", None, None).unwrap();
    match net.nodes[ic].metadata.get("access_tags") {
        Some(JsonValue::Array(items)) => {
            let got: Vec<&str> = items.iter().map(|v| v.as_str().unwrap().as_str()).collect();
            assert_eq!(got, vec!["x", "y", "z"]);
        }
        _ => panic!("expected an access_tags list"),
    }
    add(&mut net, "d", "D from A", Some("a"), None);
    let id = net.node_index("d").unwrap();
    match net.nodes[id].metadata.get("access_tags") {
        Some(JsonValue::Array(items)) => assert_eq!(items.len(), 2),
        _ => panic!("expected inherited tags"),
    }
}

#[test]
fn by_impact_counts_distinct_dependents() {
    let mut net = Network::new();
    add(&mut net, "a", "A", None, None);
    add(&mut net, "c", "C", None, None);
    add(&mut net, "b", "B from A twice", Some("a"), None);
    net.justify("b", "a", None, None).unwrap();
    add(&mut net, "d", "D from C", Some("c"), None);
    add(&mut net, "e", "E from C", Some("c"), None);
    let lines = list_lines(&net.nodes, &all_justs(&net), None, true, false, true).unwrap();
    assert!(lines[0].contains("c"));
    assert!(lines[1].contains("a"));
}

#[test]
fn retracted_node_is_not_revived_by_propagation() {
    let mut net = Network::new();
    add(&mut net, "a", "Premise", None, None);
    add(&mut net, "b", "Derived", Some("a"), None);
    net.retract("b", None);
    assert_eq!(truth(&net, "b"), "OUT");
    assert_eq!(net.recompute_all(), Vec::<String>::new());
    assert_eq!(truth(&net, "b"), "OUT");
}

#[test]
fn search_finds_nodes() {
    let terms = search_terms("cats sleep");
    assert_eq!(terms, vec!["cats", "sleep"]);
    assert_eq!(fts_query(&terms), "\"cats\" \"sleep\"");

    let mut net = Network::new();
    add(&mut net, "cat-fact", "Cats sleep sixteen hours per day", None, None);
    add(&mut net, "dog-fact", "Dogs are loyal companions", None, None);
    let matched = vec!["cat-fact".to_string()];
    let hits = net.search_hits(&matched, false);
    let lines = net.hit_lines(&hits, &matched).unwrap();
    assert_eq!(lines, vec!["* [IN] cat-fact: Cats sleep sixteen hours per day (premise)"]);
}

#[test]
fn search_terms_drop_stop_words_and_lowercase() {
    assert_eq!(search_terms("The Cats and THE dogs"), vec!["cats", "dogs"]);
    assert_eq!(search_terms("the of and"), Vec::<String>::new());
}

#[test]
fn search_queries_relax_from_the_end() {
    let terms: Vec<String> = vec!["a1".into(), "b2".into(), "c3".into(), "d4".into()];
    assert_eq!(
        search_queries(&terms),
        vec!["\"a1\" \"b2\" \"c3\" \"d4\"", "\"a1\" \"b2\" \"c3\"", "\"a1\" \"b2\""]
    );
    let one: Vec<String> = vec!["x".into()];
    assert_eq!(search_queries(&one), vec!["\"x\""]);
}

#[test]
fn expand_neighbors_breadth_first() {
    let js = vec![
        Justification::new_sl("b".into(), vec!["a".into()], vec![], String::new()),
        Justification::new_sl("c".into(), vec!["b".into()], vec!["x".into()], String::new()),
    ];
    let seeds = vec!["b".to_string()];
    assert_eq!(expand_neighbors(&js, &seeds, 0), vec!["b"]);
    assert_eq!(expand_neighbors(&js, &seeds, 1), vec!["b", "a", "c"]);
    let seeds_x = vec!["x".to_string()];
    assert_eq!(expand_neighbors(&js, &seeds_x, 2), vec!["x", "c", "b"]);
}

#[test]
fn lookup_finds_by_substring() {
    let mut net = Network::new();
    add(&mut net, "x-1", "Quantum entanglement is spooky", None, None);
    let ids = vec!["x-1".to_string()];
    let results = net.lookup_lines(&ids, false).unwrap().join("\n");
    assert!(results.contains("x-1"));
    assert!(results.contains("Quantum"));
    net.retract("x-1", None);
    assert_eq!(net.lookup_lines(&ids, false).unwrap(), Vec::<String>::new());
    assert_eq!(net.lookup_lines(&ids, true).unwrap(), vec!["[OUT] x-1: Quantum entanglement is spooky"]);
}

#[test]
fn list_with_filters() {
    let mut net = Network::new();
    add(&mut net, "p1", "Premise 1", None, None);
    add(&mut net, "p2", "Premise 2", None, None);
    add(&mut net, "d1", "Derived", Some("p1,p2"), None);
    net.retract("p1", None);

    let premises = listing(&net, None, true).join("\n");
    assert!(premises.contains("p1") || premises.contains("p2"));
    assert!(!premises.contains("d1"));

    let in_only = listing(&net, Some("IN"), false).join("\n");
    assert!(in_only.contains("p2"));
    assert!(!in_only.contains("[OUT]"));
}

#[test]
fn list_by_impact_and_with_dependents() {
    let mut net = Network::new();
    add(&mut net, "p1", "One", None, None);
    add(&mut net, "p2", "Two", None, None);
    add(&mut net, "d1", "D1", Some("p2"), None);
    add(&mut net, "d2", "D2", Some("p2,p1"), None);
    let js = all_justs(&net);
    let by_impact = list_lines(&net.nodes, &js, None, false, false, true).unwrap();
    assert_eq!(by_impact, vec!["[IN] p2: Two", "[IN] p1: One", "[IN] d1: D1", "[IN] d2: D2"]);
    let with_deps = list_lines(&net.nodes, &js, None, false, true, false).unwrap();
    assert_eq!(with_deps, vec!["[IN] p1: One", "[IN] p2: Two"]);
}

#[test]
fn tree_up_direction() {
    let mut net = Network::new();
    add(&mut net, "root", "Root premise", None, None);
    add(&mut net, "mid", "Middle node", Some("root"), None);
    add(&mut net, "leaf", "Leaf node", Some("mid"), None);

    let tree = net.tree_lines("leaf", "up", None).unwrap();
    assert_eq!(
        tree,
        vec!["leaf [IN]: Leaf node", "└── mid [IN]: Middle node", "    └── root [IN]: Root premise (premise)"]
    );
    let joined = tree.join("\n");
    assert!(joined.contains("leaf [IN]"));
    assert!(joined.contains("mid [IN]"));
    assert!(joined.contains("root [IN]"));
    assert!(joined.contains("(premise)"));
}

#[test]
fn tree_down_direction() {
    let mut net = Network::new();
    add(&mut net, "root", "Root premise", None, None);
    add(&mut net, "child", "Child node", Some("root"), None);

    let tree = net.tree_lines("root", "down", None).unwrap();
    assert_eq!(tree, vec!["root [IN]: Root premise (premise)", "└── child [IN]: Child node"]);
}

#[test]
fn tree_depth_limit_and_missing_node() {
    let mut net = Network::new();
    add(&mut net, "root", "Root premise", None, None);
    add(&mut net, "mid", "Middle node", Some("root"), None);
    add(&mut net, "leaf", "Leaf node", Some("mid"), None);
    let tree = net.tree_lines("leaf", "up", Some(1)).unwrap();
    assert_eq!(tree, vec!["leaf [IN]: Leaf node", "└── mid [IN]: Middle node"]);
    match net.tree_lines("nope", "up", None) {
        Err(TmsError::NodeNotFound(id)) => assert_eq!(id, "nope"),
        _ => panic!("expected NodeNotFound"),
    }
}

#[test]
fn challenge_and_defend_cycle() {
    let mut net = Network::new();
    add(&mut net, "claim", "The sky is blue", None, None);

    let (cid, changed) = net.challenge("claim", "It might be grey", None).unwrap();
    assert_eq!(cid, "challenge-claim");
    assert_eq!(changed, vec!["claim"]);
    let list1 = listing(&net, None, false).join("\n");
    assert!(list1.contains("[OUT] claim"));

    let (did, changed2) = net.defend("claim", "challenge-claim", "It is usually blue", None).unwrap();
    assert_eq!(did, "defense-challenge-claim");
    assert_eq!(changed2, vec!["challenge-claim", "claim"]);
    let list2 = listing(&net, None, false).join("\n");
    assert!(list2.contains("[IN] claim"));
    assert_eq!(truth(&net, "challenge-claim"), "OUT");
    assert_eq!(truth(&net, "defense-challenge-claim"), "IN");
    let ci = net.node_index("challenge-claim").unwrap();
    assert_eq!(net.nodes[ci].metadata.get_str("challenge_target").map(|s| s.as_str()), Some("claim"));
    let di = net.node_index("defense-challenge-claim").unwrap();
    assert_eq!(net.nodes[di].metadata.get_str("challenge_target").map(|s| s.as_str()), Some("challenge-claim"));
    assert_eq!(net.nodes[di].metadata.get_str("defense_target").map(|s| s.as_str()), Some("claim"));
    assert_eq!(net.nodes[di].metadata.get_str("defends").map(|s| s.as_str()), Some("challenge-claim"));
}

#[test]
fn challenge_of_missing_node_is_refused() {
    let mut net = Network::new();
    match net.challenge("ghost", "why", Some("c1")) {
        Err(TmsError::NodeNotFound(id)) => assert_eq!(id, "ghost"),
        _ => panic!("expected NodeNotFound"),
    }
    assert!(net.nodes.is_empty());
}

#[test]
fn challenge_adds_to_existing_outlists() {
    let mut net = Network::new();
    add(&mut net, "a", "A", None, None);
    add(&mut net, "b", "B", Some("a"), None);
    let (cid, _) = net.challenge("b", "doubt", Some("c1")).unwrap();
    assert_eq!(cid, "c1");
    assert_eq!(truth(&net, "b"), "OUT");
    let g = net.group_index("b").unwrap();
    assert_eq!(net.justifications[g].justs.len(), 1);
    assert_eq!(net.justifications[g].justs[0].antecedents, vec!["a"]);
    assert_eq!(net.justifications[g].justs[0].outlist, vec!["c1"]);
}

#[test]
fn supersede_makes_old_out() {
    let mut net = Network::new();
    add(&mut net, "old-claim", "Version 1 of the claim", None, None);
    add(&mut net, "new-claim", "Version 2 of the claim", None, None);

    let changed = net.supersede("old-claim", "new-claim").unwrap();
    assert_eq!(changed, vec!["old-claim"]);
    let list = listing(&net, None, false).join("\n");
    assert!(list.contains("[OUT] old-claim"));
    assert!(list.contains("[IN] new-claim"));
    let i = net.node_index("old-claim").unwrap();
    assert_eq!(net.nodes[i].metadata.get_str("superseded_by").map(|s| s.as_str()), Some("new-claim"));
    match net.supersede("old-claim", "nope") {
        Err(TmsError::NodeNotFound(id)) => assert_eq!(id, "nope"),
        _ => panic!("expected NodeNotFound"),
    }
}

#[test]
fn retracting_the_new_belief_restores_the_superseded_one() {
    let mut net = Network::new();
    add(&mut net, "old-claim", "Version 1 of the claim", None, None);
    add(&mut net, "new-claim", "Version 2 of the claim", None, None);
    add(&mut net, "uses-old", "Built on version 1", Some("old-claim"), None);
    net.supersede("old-claim", "new-claim").unwrap();
    assert_eq!(truth(&net, "old-claim"), "OUT");
    assert_eq!(truth(&net, "uses-old"), "OUT");
    let changed = net.retract("new-claim", Some("withdrawn"));
    assert_eq!(changed, vec!["old-claim", "uses-old"]);
    assert_eq!(truth(&net, "new-claim"), "OUT");
    assert_eq!(truth(&net, "old-claim"), "IN");
    assert_eq!(truth(&net, "uses-old"), "IN");
}

#[test]
fn retracting_a_justified_new_belief_restores_the_superseded_one() {
    let mut net = Network::new();
    add(&mut net, "x", "Evidence", None, None);
    add(&mut net, "old-claim", "Version 1", None, None);
    add(&mut net, "new-claim", "Version 2 from the evidence", Some("x"), None);
    net.supersede("old-claim", "new-claim").unwrap();
    assert_eq!(truth(&net, "old-claim"), "OUT");
    net.retract("new-claim", None);
    assert_eq!(truth(&net, "new-claim"), "OUT");
    assert_eq!(truth(&net, "old-claim"), "IN");
}

#[test]
fn nogood_retracts_least_entrenched() {
    let mut net = Network::new();
    add(&mut net, "weak", "Weakly held belief", None, None);
    add(&mut net, "strong", "Strongly held belief", None, Some("authoritative-doc"));

    let ids = vec!["weak".to_string(), "strong".to_string()];
    match net.resolve_nogood(&ids) {
        Ok(Resolution::Retracted { culprit, score, cascaded }) => {
            assert_eq!(culprit, "weak");
            assert_eq!(score, 120);
            assert!(cascaded.is_empty());
        },
        _ => panic!("expected a retraction"),
    }
    let list = listing(&net, None, false).join("\n");
    assert!(list.contains("[OUT] weak"));
    assert!(list.contains("[IN] strong"));
    // Now not all are IN: nothing more happens.
    assert!(matches!(net.resolve_nogood(&ids), Ok(Resolution::Inactive)));
    let missing = vec!["weak".to_string(), "zzz".to_string()];
    match net.resolve_nogood(&missing) {
        Err(TmsError::NodeNotFound(id)) => assert_eq!(id, "zzz"),
        _ => panic!("expected NodeNotFound"),
    }
}

#[test]
fn find_culprits_lists_candidates() {
    let mut net = Network::new();
    add(&mut net, "a", "Claim A", None, None);
    add(&mut net, "b", "Claim B", None, Some("doc"));

    let ids = vec!["a".to_string(), "b".to_string()];
    let cands = net.find_culprits(&ids);
    assert_eq!(cands, vec![("a".to_string(), 120), ("b".to_string(), 170)]);
    let output = net.culprit_lines(&cands).unwrap().join("\n");
    assert!(output.contains("Culprit premises"));
    assert!(output.contains("a"));
    assert_eq!(
        net.culprit_lines(&cands).unwrap(),
        vec![
            "Culprit premises (least entrenched first):",
            "  a (entrenchment: 120): Claim A",
            "  b (entrenchment: 170): Claim B"
        ]
    );
    assert_eq!(net.culprit_lines(&Vec::new()).unwrap(), vec!["No culprit premises found."]);
}

#[test]
fn entrenchment_scores() {
    let mut net = Network::new();
    add(&mut net, "p", "Premise", None, Some("doc"));
    add(&mut net, "d", "Derived", Some("p"), None);
    // premise 100 + source 50 + one dependent 10 + default type 20
    assert_eq!(net.entrenchment("p"), 180);
    // derived: default type 20 only
    assert_eq!(net.entrenchment("d"), 20);
    assert_eq!(net.entrenchment("missing"), 0);
}

#[test]
fn propagate_fixes_truth_values() {
    let mut net = Network::new();
    add(&mut net, "a", "Premise", None, None);
    add(&mut net, "b", "Derived", Some("a"), None);
    assert_eq!(net.recompute_all(), Vec::<String>::new());
}

#[test]
fn recompute_all_repairs_stale_values() {
    let a = reasons::types::Node::new("a".into(), "A".into());
    let mut b = reasons::types::Node::new("b".into(), "B".into());
    b.truth_value = "OUT".to_string();
    let j = Justification::new_sl("b".into(), vec!["a".into()], vec![], String::new());
    let mut net = Network::load(vec![a, b], vec![j]);
    assert_eq!(net.recompute_all(), vec!["b"]);
    assert_eq!(truth(&net, "b"), "IN");
    assert_eq!(net.change_lines(&vec!["b".to_string()]), vec!["  b -> IN"]);
}

#[test]
fn recompute_all_settles_an_acyclic_network_for_good() {
    let mk = |id: &str, tv: &str| {
        let mut n = reasons::types::Node::new(id.into(), id.to_uppercase());
        n.truth_value = tv.to_string();
        n
    };
    let nodes = vec![mk("d", "IN"), mk("c", "IN"), mk("b", "OUT"), mk("a", "IN")];
    let justs = vec![
        Justification::new_sl("b".into(), vec!["a".into()], vec![], String::new()),
        Justification::new_sl("c".into(), vec![], vec!["b".into()], String::new()),
        Justification::new_sl("d".into(), vec!["c".into()], vec![], String::new()),
    ];
    let mut net = Network::load(nodes, justs);
    let changed = net.recompute_all();
    assert!(!changed.is_empty());
    assert_eq!(truth(&net, "b"), "IN");
    assert_eq!(truth(&net, "c"), "OUT");
    assert_eq!(truth(&net, "d"), "OUT");
    assert_eq!(net.recompute_all(), Vec::<String>::new());
}

#[test]
fn assert_after_retract_restores_every_truth_value() {
    let mut net = Network::new();
    add(&mut net, "a", "Premise", None, None);
    add(&mut net, "b", "From A", Some("a"), None);
    net.add_belief("c", "Unless B", Some(""), Some("b"), None, None, None).unwrap();
    add(&mut net, "d", "From C", Some("c"), None);
    let before: Vec<String> = net.nodes.iter().map(|n| n.truth_value.clone()).collect();
    assert_eq!(before, vec!["IN", "IN", "OUT", "OUT"]);
    net.retract("a", None);
    assert_eq!(truth(&net, "c"), "IN");
    assert_eq!(truth(&net, "d"), "IN");
    net.assert_node("a");
    let after: Vec<String> = net.nodes.iter().map(|n| n.truth_value.clone()).collect();
    assert_eq!(after, before);
}

#[test]
fn trace_finds_premises() {
    let mut net = Network::new();
    add(&mut net, "p1", "First premise", None, None);
    add(&mut net, "p2", "Second premise", None, None);
    add(&mut net, "d1", "Mid-level", Some("p1,p2"), None);
    add(&mut net, "d2", "Top-level", Some("d1"), None);

    assert_eq!(net.find_premises("d2"), vec!["p1", "p2"]);
    let trace = net.trace_lines("d2").unwrap();
    assert_eq!(trace, vec!["Premises supporting d2:", "  p1: First premise", "  p2: Second premise"]);
}

#[test]
fn convert_to_premise_strips_justifications() {
    let mut net = Network::new();
    add(&mut net, "a", "Premise", None, None);
    add(&mut net, "b", "Derived", Some("a"), None);

    net.unjustify("b", 0).unwrap();
    let show = net.show_text("b", &all_justs(&net)).unwrap();
    assert!(!show.contains("Justifications:"));
    match net.unjustify("b", 0) {
        Err(TmsError::IndexOutOfRange(id, i, n)) => {
            assert_eq!(id, "b");
            assert_eq!(i, 0);
            assert_eq!(n, 0);
        },
        _ => panic!("expected IndexOutOfRange"),
    }
}

#[test]
fn justify_and_unjustify_recompute() {
    let mut net = Network::new();
    add(&mut net, "a", "A", None, None);
    add(&mut net, "b", "B", Some("zz"), None);
    assert_eq!(truth(&net, "b"), "OUT");
    let changed = net.justify("b", "a", None, None).unwrap();
    assert_eq!(changed, vec!["b"]);
    assert_eq!(truth(&net, "b"), "IN");
    let changed2 = net.unjustify("b", 1).unwrap();
    assert_eq!(changed2, vec!["b"]);
    assert_eq!(truth(&net, "b"), "OUT");
    assert!(matches!(net.justify("zz", "a", None, None), Err(TmsError::NodeNotFound(_))));
}

#[test]
fn set_and_get_metadata() {
    let mut net = Network::new();
    add(&mut net, "x", "A node", None, None);
    let i = net.node_index("x").unwrap();
    assert!(net.nodes[i].metadata.insert("custom_key".to_string(), JsonValue::Str("custom_value".to_string())));
    let got = net.nodes[i].metadata.get("custom_key").and_then(|v| v.as_str()).map(|s| s.as_str());
    assert_eq!(got, Some("custom_value"));
    assert!(net.nodes[i].metadata.get("other_key").is_none());
}

#[test]
fn status_after_operations() {
    let mut net = Network::new();
    add(&mut net, "a", "A", None, None);
    add(&mut net, "b", "B", None, None);
    add(&mut net, "c", "C", Some("a,b"), None);
    net.retract("a", None);

    let status = status_lines(&net.nodes, &all_justs(&net), 0, "");
    assert_eq!(
        status,
        vec!["reasons.db", "  Nodes: 3 (1 IN, 2 OUT)", "  Premises: 2", "  Derived: 1", "  Nogoods: 0"]
    );
}

#[test]
fn init_creates_db_and_status_reads_it() {
    let status = status_lines(&Vec::new(), &Vec::new(), 0, "2026-01-01T00:00:00+00:00").join("\n");
    assert!(status.contains("Nodes: 0"));
    assert!(status.contains("Premises: 0"));
    assert!(status.contains("  Last updated: 2026-01-01T00:00:00+00:00"));
}

#[test]
fn premises_come_in_depth_first_order() {
    let mut net = Network::new();
    add(&mut net, "a", "A", None, None);
    add(&mut net, "c", "C", None, None);
    add(&mut net, "b", "B", Some("c"), None);
    add(&mut net, "d", "D", Some("b,a,c"), None);
    assert_eq!(net.find_premises("d"), vec!["c", "a"]);
    assert_eq!(net.find_premises("a"), vec!["a"]);
    assert_eq!(net.trace_lines("a").unwrap(), vec!["Premises supporting a:", "  a: A"]);
}
