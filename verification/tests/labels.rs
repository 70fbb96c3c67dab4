use artemis_ast::error::ExtractError;
use artemis_ast::labels::build_labels;
use artemis_ast::types::Value;

fn text(s: &str) -> Value {
    Value::Str(s.to_string())
}

fn pair(k: &str, v: Value) -> Value {
    Value::KeyVal((k.to_string(), Box::new(v)))
}

fn label(name: &str, block: &str) -> Value {
    pair(name, Value::Array(vec![pair("block", text(block))]))
}

#[test]
fn labels_are_grouped_by_block_in_order_of_appearance() {
    let lb = Value::Array(vec![
        label("top", "b1"),
        label("z", "b2"),
        text("stray"),
        label("a", "b1"),
        label("m", "b3"),
        label("k", "b2"),
    ]);
    let (entry, index) = build_labels(&lb).unwrap();
    assert_eq!(entry, "b1");
    let keys: Vec<&str> = index.entries.iter().map(|e| e.0.as_str()).collect();
    assert_eq!(keys, vec!["b1", "b2", "b3"]);
    assert_eq!(index.get("b1"), Some(&vec!["top".to_string(), "a".to_string()]));
    assert_eq!(index.get("b2"), Some(&vec!["z".to_string(), "k".to_string()]));
    assert_eq!(index.get("b3"), Some(&vec!["m".to_string()]));
    assert_eq!(index.get("b4"), None);
}

#[test]
fn missing_top_is_a_missing_entry_point() {
    let lb = Value::Array(vec![label("a", "b1")]);
    assert!(matches!(build_labels(&lb), Err(ExtractError::MissingEntryPoint)));
    assert!(matches!(build_labels(&Value::Array(vec![])), Err(ExtractError::MissingEntryPoint)));
    assert!(matches!(build_labels(&Value::Int(0)), Err(ExtractError::MissingEntryPoint)));
}

#[test]
fn top_without_block_is_a_missing_entry_point() {
    let lb = Value::Array(vec![pair("top", Value::Array(vec![])), label("a", "b1")]);
    assert!(matches!(build_labels(&lb), Err(ExtractError::MissingEntryPoint)));
    let lb = Value::Array(vec![pair("top", Value::Array(vec![pair("block", Value::Int(1))]))]);
    assert!(matches!(build_labels(&lb), Err(ExtractError::MissingEntryPoint)));
}

#[test]
fn label_without_block_is_malformed() {
    let lb = Value::Array(vec![label("top", "b1"), pair("bad", Value::Array(vec![])), label("a", "b")]);
    match build_labels(&lb) {
        Err(ExtractError::MalformedLabel { label }) => assert_eq!(label, "bad"),
        other => panic!("unexpected: {:?}", other),
    }
}

#[test]
fn the_first_malformed_label_is_reported() {
    let lb = Value::Array(vec![
        label("top", "b1"),
        pair("one", Value::Int(1)),
        pair("two", Value::Int(2)),
    ]);
    match build_labels(&lb) {
        Err(ExtractError::MalformedLabel { label }) => assert_eq!(label, "one"),
        other => panic!("unexpected: {:?}", other),
    }
}

#[test]
fn a_single_pair_as_label_block() {
    let lb = label("top", "b1");
    let (entry, index) = build_labels(&lb).unwrap();
    assert_eq!(entry, "b1");
    assert!(index.is_empty());
}
