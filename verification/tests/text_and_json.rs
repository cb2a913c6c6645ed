use reasons::edit::sl_justification;
use reasons::json::{push_to_list, set_str, JsonValue};
use reasons::network::{clear_retracted, mark_retracted};
use reasons::nogood::{new_nogood, resolution_text};
use reasons::search::{search_terms, stop_word};
use reasons::text::{decimal, int_string, join, lines, padded_decimal3, repeat, split_commas, split_words, trim};

#[test]
fn decimal_renderings() {
    assert_eq!(decimal(0), "0");
    assert_eq!(decimal(120), "120");
    assert_eq!(decimal(u64::MAX), "18446744073709551615");
    assert_eq!(int_string(-45), "-45");
    assert_eq!(int_string(0), "0");
    assert_eq!(int_string(i64::MIN), "-9223372036854775808");
    assert_eq!(padded_decimal3(7), "007");
    assert_eq!(padded_decimal3(42), "042");
    assert_eq!(padded_decimal3(1234), "1234");
}

#[test]
fn splitting_and_trimming() {
    assert_eq!(split_commas(" a, b ,,c "), vec!["a", "b", "c"]);
    assert_eq!(split_commas(""), Vec::<String>::new());
    assert_eq!(split_words("  two  words\tthree\n"), vec!["two", "words", "three"]);
    assert_eq!(trim("  x y \n"), "x y");
    assert_eq!(lines("a\nb\r\n\nc"), vec!["a", "b", "", "c"]);
    assert_eq!(lines("a\n"), vec!["a"]);
    assert_eq!(lines(""), Vec::<String>::new());
}

#[test]
fn joining_and_repeating() {
    let parts: Vec<String> = vec!["a".into(), "b".into(), "c".into()];
    assert_eq!(join(&parts, ", "), "a, b, c");
    assert_eq!(join(&Vec::new(), ", "), "");
    assert_eq!(repeat("ab", 3), "ababab");
    assert_eq!(repeat("ab", 0), "");
}

#[test]
fn search_terms_follow_std_lowercase() {
    assert_eq!(search_terms("CaTs ÉTÉ"), vec!["cats", "été"]);
}

#[test]
fn stop_words() {
    assert!(stop_word("the"));
    assert!(stop_word("wouldn't"));
    assert!(!stop_word("cats"));
    assert!(!stop_word("The"));
}

#[test]
fn sl_justification_from_lists() {
    let j = sl_justification("n", "a, b,", Some("x"), Some("lbl"));
    assert_eq!(j.node_id, "n");
    assert_eq!(j.antecedents, vec!["a", "b"]);
    assert_eq!(j.outlist, vec!["x"]);
    assert_eq!(j.label, "lbl");
    let k = sl_justification("n", "a", None, None);
    assert!(k.outlist.is_empty());
    assert_eq!(k.label, "");
}

#[test]
fn nogood_naming_and_resolution() {
    let g = new_nogood(0, vec!["a".to_string()]);
    assert_eq!(g.id, "nogood-001");
    assert_eq!(g.nodes, vec!["a"]);
    assert!(!g.discovered.is_empty());
    assert_eq!(g.resolution, "");
    assert_eq!(new_nogood(41, Vec::new()).id, "nogood-042");
    assert_eq!(resolution_text("weak", 120), "Retracted weak (entrenchment: 120)");
}

#[test]
fn json_object_editing() {
    let mut m = JsonValue::Object(Vec::new());
    assert!(m.insert("k".to_string(), JsonValue::Str("v".to_string())));
    assert_eq!(m.get_str("k").map(|s| s.as_str()), Some("v"));
    assert!(m.insert("k".to_string(), JsonValue::Bool(true)));
    assert!(m.get_flag("k"));
    m.remove("k");
    assert!(m.get("k").is_none());
    let mut not_obj = JsonValue::Null;
    assert!(!not_obj.insert("k".to_string(), JsonValue::Null));

    push_to_list(&mut m, "challenges", &"c1".to_string());
    push_to_list(&mut m, "challenges", &"c2".to_string());
    match m.get("challenges") {
        Some(JsonValue::Array(items)) => {
            assert_eq!(items.len(), 2);
            assert_eq!(items[1].as_str().map(|s| s.as_str()), Some("c2"));
        },
        _ => panic!("a list"),
    }
    set_str(&mut m, "defends", "c1");
    assert_eq!(m.get_str("defends").map(|s| s.as_str()), Some("c1"));
}

#[test]
fn retraction_marks_in_metadata() {
    let mut m = JsonValue::Object(Vec::new());
    mark_retracted(&mut m, Some("why"));
    assert!(m.get_flag("_retracted"));
    assert_eq!(m.get_str("retract_reason").map(|s| s.as_str()), Some("why"));
    clear_retracted(&mut m);
    assert!(!m.get_flag("_retracted"));
    assert!(m.get("retract_reason").is_none());
}
