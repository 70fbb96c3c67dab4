use artemis_ast::sort::sort_entries;
use artemis_ast::types::{AstFile, Value};

fn text(s: &str) -> Value {
    Value::Str(s.to_string())
}

fn pair(k: &str, v: Value) -> Value {
    Value::KeyVal((k.to_string(), Box::new(v)))
}

fn block(name: &str, line: Option<i64>) -> Value {
    let mut items = vec![];
    if let Some(l) = line {
        items.push(pair("line", Value::Int(l)));
    }
    pair(name, Value::Array(items))
}

fn shape(v: &Value) -> String {
    match v {
        Value::KeyVal((k, _)) => k.clone(),
        Value::Str(s) => format!("'{}'", s),
        Value::Int(i) => format!("{}", i),
        _ => "?".to_string(),
    }
}

fn sorted(items: Vec<Value>) -> Vec<String> {
    let mut f = AstFile { astver: "2".to_string(), astname: Some("n".to_string()), ast: Value::Array(items) };
    f.sort_blocks();
    assert_eq!(f.astver, "2");
    assert_eq!(f.astname, Some("n".to_string()));
    match &f.ast {
        Value::Array(a) => a.iter().map(shape).collect(),
        _ => panic!("the tree is no array any more"),
    }
}

#[test]
fn blocks_are_ordered_by_ascending_line() {
    let out = sorted(vec![block("c", Some(30)), block("a", Some(10)), block("b", Some(20))]);
    assert_eq!(out, vec!["a", "b", "c"]);
}

#[test]
fn a_block_without_line_moves_to_the_end() {
    let out = sorted(vec![
        block("c", Some(30)),
        block("n", None),
        block("a", Some(10)),
        block("b", Some(20)),
    ]);
    assert_eq!(out, vec!["a", "b", "c", "n"]);
}

#[test]
fn blocks_without_line_come_in_reverse() {
    let out = sorted(vec![
        block("n1", None),
        block("b", Some(2)),
        block("n2", None),
        block("a", Some(1)),
        block("n3", None),
    ]);
    assert_eq!(out, vec!["a", "b", "n3", "n2", "n1"]);
}

#[test]
fn what_is_no_block_comes_last_in_its_order() {
    let out = sorted(vec![
        text("s1"),
        block("n1", None),
        Value::Int(5),
        block("a", Some(1)),
        text("s2"),
        block("n2", None),
    ]);
    assert_eq!(out, vec!["a", "n2", "n1", "'s1'", "5", "'s2'"]);
}

#[test]
fn blocks_of_one_line_keep_their_order() {
    let out = sorted(vec![
        block("x", Some(5)),
        block("p", Some(7)),
        block("y", Some(5)),
        block("q", Some(1)),
        block("z", Some(5)),
    ]);
    assert_eq!(out, vec!["q", "x", "y", "z", "p"]);
}

#[test]
fn negative_and_extreme_lines() {
    let out = sorted(vec![
        block("max", Some(i64::MAX)),
        block("zero", Some(0)),
        block("min", Some(i64::MIN)),
        block("neg", Some(-1)),
    ]);
    assert_eq!(out, vec!["min", "neg", "zero", "max"]);
}

#[test]
fn sorting_twice_changes_only_the_unlined_blocks() {
    let mut items = vec![block("n1", None), block("b", Some(2)), block("n2", None), block("a", Some(1))];
    sort_entries(&mut items);
    let once: Vec<String> = items.iter().map(shape).collect();
    assert_eq!(once, vec!["a", "b", "n2", "n1"]);
    sort_entries(&mut items);
    let twice: Vec<String> = items.iter().map(shape).collect();
    assert_eq!(twice, vec!["a", "b", "n1", "n2"]);
}

#[test]
fn an_empty_tree_stays_empty() {
    assert!(sorted(vec![]).is_empty());
}

#[test]
fn a_tree_that_is_no_array_is_left_alone() {
    let mut f = AstFile { astver: "2".to_string(), astname: None, ast: block("a", Some(1)) };
    f.sort_blocks();
    assert_eq!(shape(&f.ast), "a");
    let mut g = AstFile { astver: "2".to_string(), astname: None, ast: Value::Int(9) };
    g.sort_blocks();
    assert_eq!(shape(&g.ast), "9");
}
