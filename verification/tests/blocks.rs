use artemis_ast::blocks::{build_blocks, holds_against};
use artemis_ast::strmap::StrMap;
use artemis_ast::types::{AstFile, Value};

fn text(s: &str) -> Value {
    Value::Str(s.to_string())
}

fn pair(k: &str, v: Value) -> Value {
    Value::KeyVal((k.to_string(), Box::new(v)))
}

fn file(items: Vec<Value>) -> AstFile {
    AstFile { astver: "2".to_string(), astname: None, ast: Value::Array(items) }
}

fn body(mark: &str, line: Option<i64>) -> Value {
    let mut items = vec![pair("mark", text(mark))];
    if let Some(l) = line {
        items.push(pair("line", Value::Int(l)));
    }
    Value::Array(items)
}

fn mark_of(blocks: &StrMap<Value>, name: &str) -> Option<String> {
    blocks.get(name).and_then(|b| b.str_attr("mark")).map(|s| s.to_string())
}

#[test]
fn larger_line_wins() {
    let f = file(vec![pair("x", body("five", Some(5))), pair("x", body("ten", Some(10)))]);
    let blocks = f.get_blocks();
    assert_eq!(blocks.len(), 1);
    assert_eq!(mark_of(&blocks, "x"), Some("ten".to_string()));
    let g = file(vec![pair("x", body("ten", Some(10))), pair("x", body("five", Some(5)))]);
    assert_eq!(mark_of(&g.get_blocks(), "x"), Some("ten".to_string()));
}

#[test]
fn line_wins_over_no_line() {
    let f = file(vec![pair("x", body("five", Some(5))), pair("x", body("none", None))]);
    assert_eq!(mark_of(&f.get_blocks(), "x"), Some("five".to_string()));
    let g = file(vec![pair("x", body("none", None)), pair("x", body("five", Some(5)))]);
    assert_eq!(mark_of(&g.get_blocks(), "x"), Some("five".to_string()));
}

#[test]
fn earlier_entry_is_kept_without_lines() {
    let f = file(vec![pair("x", body("first", None)), pair("x", body("second", None))]);
    assert_eq!(mark_of(&f.get_blocks(), "x"), Some("first".to_string()));
}

#[test]
fn earlier_entry_is_kept_on_equal_lines() {
    let f = file(vec![pair("x", body("first", Some(3))), pair("x", body("second", Some(3)))]);
    assert_eq!(mark_of(&f.get_blocks(), "x"), Some("first".to_string()));
}

#[test]
fn a_line_that_is_no_integer_counts_as_no_line() {
    let odd = Value::Array(vec![pair("mark", text("odd")), pair("line", text("9"))]);
    let f = file(vec![pair("x", odd), pair("x", body("one", Some(1)))]);
    assert_eq!(mark_of(&f.get_blocks(), "x"), Some("one".to_string()));
}

#[test]
fn three_definitions_resolve_from_left_to_right() {
    let f = file(vec![
        pair("x", body("a", Some(7))),
        pair("y", body("y", None)),
        pair("x", body("b", Some(2))),
        pair("x", body("c", Some(9))),
    ]);
    let blocks = f.get_blocks();
    assert_eq!(blocks.len(), 2);
    assert_eq!(mark_of(&blocks, "x"), Some("c".to_string()));
    assert_eq!(mark_of(&blocks, "y"), Some("y".to_string()));
}

#[test]
fn entries_that_are_no_pairs_are_ignored() {
    let f = file(vec![text("stray"), Value::Int(1), pair("x", body("x", None)), Value::Array(vec![])]);
    let blocks = f.get_blocks();
    assert_eq!(blocks.len(), 1);
    assert!(blocks.contains_key("x"));
    assert!(!blocks.contains_key("stray"));
}

#[test]
fn a_root_that_is_no_array_has_no_blocks() {
    let f = AstFile { astver: "2".to_string(), astname: None, ast: pair("x", body("x", None)) };
    assert!(f.get_blocks().is_empty());
    let g = AstFile { astver: "2".to_string(), astname: None, ast: Value::Int(3) };
    assert!(g.get_blocks().is_empty());
}

#[test]
fn blocks_keep_the_order_of_first_appearance() {
    let f = file(vec![
        pair("b", body("b", None)),
        pair("a", body("a", None)),
        pair("b", body("b2", Some(1))),
    ]);
    let blocks = f.get_blocks();
    let names: Vec<&str> = blocks.entries.iter().map(|e| e.0.as_str()).collect();
    assert_eq!(names, vec!["b", "a"]);
    assert_eq!(mark_of(&blocks, "b"), Some("b2".to_string()));
}

#[test]
fn merge_policy_alone() {
    let with = |l: i64| body("b", Some(l));
    let without = body("b", None);
    assert!(holds_against(&with(10), &with(5)));
    assert!(!holds_against(&with(5), &with(10)));
    assert!(!holds_against(&with(5), &with(5)));
    assert!(holds_against(&with(-3), &without));
    assert!(!holds_against(&without, &with(-3)));
    assert!(!holds_against(&without, &without));
    assert!(holds_against(&with(i64::MAX), &with(i64::MIN)));
    let root = Value::Array(vec![pair("x", with(1)), pair("x", with(2))]);
    assert_eq!(mark_of(&build_blocks(&root), "x"), Some("b".to_string()));
    assert_eq!(build_blocks(&root).get("x").and_then(|b| b.int_attr("line")), Some(2));
}
