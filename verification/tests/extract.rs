use artemis_ast::error::ExtractError;
use artemis_ast::extract::{extract_messages, read_event};
use artemis_ast::messages::{Message, Messages};
use artemis_ast::strmap::StrMap;
use artemis_ast::types::{AstFile, Value};

fn text(s: &str) -> Value {
    Value::Str(s.to_string())
}

fn pair(k: &str, v: Value) -> Value {
    Value::KeyVal((k.to_string(), Box::new(v)))
}

fn record(tag: &str, rest: Vec<Value>) -> Value {
    let mut items = vec![text(tag)];
    items.extend(rest);
    Value::Array(items)
}

fn arr(items: Vec<Value>) -> Value {
    Value::Array(items)
}

/// A `text` attribute with one language and one line of plain text per entry.
fn spoken(lang: &str, lines: Vec<&str>) -> Value {
    let lines = lines.into_iter().map(|l| arr(vec![text(l)])).collect();
    pair("text", arr(vec![pair(lang, arr(lines))]))
}

fn labels(top: &str, others: Vec<(&str, &str)>) -> Value {
    let mut items = vec![pair("top", arr(vec![pair("block", text(top))]))];
    for (name, block) in others {
        items.push(pair(name, arr(vec![pair("block", text(block))])));
    }
    pair("label", arr(items))
}

fn file(items: Vec<Value>) -> AstFile {
    AstFile { astver: "2".to_string(), astname: None, ast: arr(items) }
}

fn run(items: Vec<Value>) -> Messages {
    match file(items).get_messages() {
        Ok(m) => m,
        Err(e) => panic!("unexpected failure: {:?}", e),
    }
}

fn strings(v: Vec<&str>) -> Vec<String> {
    v.into_iter().map(|s| s.to_string()).collect()
}

#[test]
fn minimal_file_yields_one_dialogue() {
    let m = run(vec![labels("L1", vec![]), pair("L1", arr(vec![spoken("en", vec!["Hi"])]))]);
    assert_eq!(m.savetitle, None);
    assert_eq!(m.messages.len(), 1);
    match &m.messages[0] {
        Message::Dialogue(d) => {
            assert_eq!(d.labels, Some(strings(vec!["top"])));
            assert_eq!(d.dialogues.len(), 1);
            let en = d.dialogues.get("en").unwrap();
            assert_eq!(en.len(), 1);
            assert_eq!(en[0].text, "Hi");
            assert_eq!(en[0].name, None);
        },
        other => panic!("unexpected event: {:?}", other),
    }
}

#[test]
fn block_without_text_and_without_linknext_fails() {
    let r = file(vec![labels("L1", vec![]), pair("L1", arr(vec![pair("line", Value::Int(1))]))])
        .get_messages();
    match r {
        Err(ExtractError::MissingDialogueText { block }) => assert_eq!(block, "L1"),
        other => panic!("unexpected: {:?}", other),
    }
}

#[test]
fn block_without_text_but_with_linknext_is_skipped() {
    let m = run(vec![
        labels("L1", vec![]),
        pair("L1", arr(vec![pair("linknext", text("L2"))])),
        pair("L2", arr(vec![spoken("en", vec!["after"])])),
    ]);
    assert_eq!(m.messages.len(), 1);
    match &m.messages[0] {
        Message::Dialogue(d) => {
            assert_eq!(d.labels, None);
            assert_eq!(d.dialogues.get("en").unwrap()[0].text, "after");
        },
        other => panic!("unexpected event: {:?}", other),
    }
}

#[test]
fn linknext_that_is_no_string_does_not_count() {
    let r = file(vec![labels("L1", vec![]), pair("L1", arr(vec![pair("linknext", Value::Int(2))]))])
        .get_messages();
    assert!(matches!(r, Err(ExtractError::MissingDialogueText { .. })));
}

#[test]
fn traversal_ends_at_a_missing_block() {
    let m = run(vec![
        labels("L1", vec![]),
        pair("L1", arr(vec![spoken("en", vec!["one"]), pair("linknext", text("nowhere"))])),
    ]);
    assert_eq!(m.messages.len(), 1);
    let m = run(vec![labels("nowhere", vec![])]);
    assert!(m.messages.is_empty());
    assert_eq!(m.savetitle, None);
}

#[test]
fn choice_options_share_one_text_table() {
    let block = arr(vec![
        record("select", vec![pair("text", text("a")), pair("file", text("f1")), pair("label", text("l1"))]),
        record("select", vec![pair("text", text("a")), pair("label", text("l2"))]),
        pair("a", arr(vec![pair("en", arr(vec![text("first"), text("second")]))])),
    ]);
    let m = run(vec![labels("L1", vec![]), pair("L1", block)]);
    assert_eq!(m.messages.len(), 1);
    match &m.messages[0] {
        Message::Select(s) => {
            let en = s.sels.get("en").unwrap();
            assert_eq!(en.len(), 2);
            assert_eq!(en[0].text, "first");
            assert_eq!(en[0].file, Some("f1".to_string()));
            assert_eq!(en[0].label, Some("l1".to_string()));
            assert_eq!(en[1].text, "second");
            assert_eq!(en[1].file, None);
            assert_eq!(en[1].label, Some("l2".to_string()));
        },
        other => panic!("unexpected event: {:?}", other),
    }
}

#[test]
fn choice_position_moves_on_with_each_language() {
    let block = arr(vec![
        record("select", vec![pair("text", text("t"))]),
        pair(
            "t",
            arr(vec![
                pair("ja", arr(vec![text("j0"), text("j1")])),
                pair("en", arr(vec![text("e0"), text("e1")])),
            ]),
        ),
    ]);
    let m = run(vec![labels("L1", vec![]), pair("L1", block)]);
    match &m.messages[0] {
        Message::Select(s) => {
            let keys: Vec<&str> = s.sels.entries.iter().map(|e| e.0.as_str()).collect();
            assert_eq!(keys, vec!["ja", "en"]);
            assert_eq!(s.sels.get("ja").unwrap()[0].text, "j0");
            assert_eq!(s.sels.get("en").unwrap()[0].text, "e1");
        },
        other => panic!("unexpected event: {:?}", other),
    }
}

#[test]
fn choice_tables_are_counted_apart() {
    let block = arr(vec![
        record("select", vec![pair("text", text("a"))]),
        record("select", vec![pair("text", text("b"))]),
        record("select", vec![pair("text", text("a"))]),
        record("select", vec![pair("file", text("no text key"))]),
        pair("a", arr(vec![pair("en", arr(vec![text("a0"), text("a1")]))])),
        pair("b", arr(vec![pair("en", arr(vec![text("b0")]))])),
    ]);
    let m = run(vec![labels("L1", vec![]), pair("L1", block)]);
    match &m.messages[0] {
        Message::Select(s) => {
            let texts: Vec<&str> = s.sels.get("en").unwrap().iter().map(|o| o.text.as_str()).collect();
            assert_eq!(texts, vec!["a0", "b0", "a1"]);
        },
        other => panic!("unexpected event: {:?}", other),
    }
}

#[test]
fn choice_without_text_table_fails() {
    let block = arr(vec![record("select", vec![pair("text", text("a"))])]);
    match file(vec![labels("L1", vec![]), pair("L1", block)]).get_messages() {
        Err(ExtractError::MissingChoiceText { block, text }) => {
            assert_eq!(block, "L1");
            assert_eq!(text, "a");
        },
        other => panic!("unexpected: {:?}", other),
    }
}

#[test]
fn choice_that_runs_out_of_texts_fails() {
    let block = arr(vec![
        record("select", vec![pair("text", text("a"))]),
        record("select", vec![pair("text", text("a"))]),
        pair("a", arr(vec![pair("en", arr(vec![text("only")]))])),
    ]);
    match file(vec![labels("L1", vec![]), pair("L1", block)]).get_messages() {
        Err(ExtractError::MissingChoiceText { block, text }) => {
            assert_eq!(block, "L1");
            assert_eq!(text, "a");
        },
        other => panic!("unexpected: {:?}", other),
    }
    let block = arr(vec![
        record("select", vec![pair("text", text("a"))]),
        pair("a", arr(vec![pair("en", arr(vec![Value::Int(1)]))])),
    ]);
    assert!(matches!(
        file(vec![labels("L1", vec![]), pair("L1", block)]).get_messages(),
        Err(ExtractError::MissingChoiceText { .. })
    ));
}

#[test]
fn choice_with_a_table_that_is_no_array_has_no_options() {
    let block = arr(vec![record("select", vec![pair("text", text("a"))]), pair("a", text("flat"))]);
    let m = run(vec![labels("L1", vec![]), pair("L1", block)]);
    match &m.messages[0] {
        Message::Select(s) => assert!(s.sels.is_empty()),
        other => panic!("unexpected event: {:?}", other),
    }
}

#[test]
fn excall_is_recorded_not_followed() {
    let block = arr(vec![
        record("excall", vec![pair("file", text("other")), pair("label", text("start"))]),
        record("excall", vec![pair("label", text("only"))]),
        record("excall", vec![]),
        record("select", vec![pair("text", text("missing"))]),
        spoken("en", vec!["not read"]),
    ]);
    let m = run(vec![
        labels("L1", vec![("here", "L1")]),
        pair("L1", block),
        pair("other", arr(vec![spoken("en", vec!["not reached"])])),
    ]);
    assert_eq!(m.messages.len(), 1);
    match &m.messages[0] {
        Message::ExCall(e) => {
            assert_eq!(e.labels, Some(strings(vec!["top", "here"])));
            assert_eq!(e.excalls.len(), 3);
            assert_eq!(e.excalls[0].file, Some("other".to_string()));
            assert_eq!(e.excalls[0].label, Some("start".to_string()));
            assert_eq!(e.excalls[1].file, None);
            assert_eq!(e.excalls[1].label, Some("only".to_string()));
            assert_eq!(e.excalls[2].file, None);
            assert_eq!(e.excalls[2].label, None);
        },
        other => panic!("unexpected event: {:?}", other),
    }
}

#[test]
fn the_first_title_holds() {
    let m = run(vec![
        labels("L1", vec![]),
        pair("L1", arr(vec![spoken("en", vec!["a"]), pair("linknext", text("L2"))])),
        pair(
            "L2",
            arr(vec![
                record("savetitle", vec![pair("text", text("Chapter 1"))]),
                record("savetitle", vec![pair("text", text("ignored"))]),
                spoken("en", vec!["b"]),
                pair("linknext", text("L3")),
            ]),
        ),
        pair(
            "L3",
            arr(vec![record("savetitle", vec![pair("text", text("Chapter 2"))]), spoken("en", vec!["c"])]),
        ),
    ]);
    assert_eq!(m.savetitle, Some("Chapter 1".to_string()));
    assert_eq!(m.messages.len(), 3);
}

#[test]
fn only_the_first_savetitle_of_a_block_is_read() {
    let m = run(vec![
        labels("L1", vec![]),
        pair(
            "L1",
            arr(vec![
                record("savetitle", vec![]),
                record("savetitle", vec![pair("text", text("second"))]),
                spoken("en", vec!["a"]),
                pair("linknext", text("L2")),
            ]),
        ),
        pair("L2", arr(vec![record("savetitle", vec![pair("text", text("later"))]), spoken("en", vec!["b"])])),
    ]);
    assert_eq!(m.savetitle, Some("later".to_string()));
}

#[test]
fn dialogue_lines_by_language_with_speakers() {
    let ja = pair(
        "ja",
        arr(vec![
            arr(vec![pair("name", arr(vec![text("name"), text("Alice")])), text("konnichiwa")]),
            arr(vec![text("second"), record("rt2", vec![]), text("line")]),
        ]),
    );
    let en = pair("en", arr(vec![arr(vec![pair("name", arr(vec![text("Alice")])), text("hello")])]));
    let vo = pair("vo", arr(vec![arr(vec![record("bogus", vec![])])]));
    let ja_more = pair("ja", arr(vec![arr(vec![text("more")])]));
    let empty = pair("zh", text("no lines"));
    let block = arr(vec![pair("text", arr(vec![vo, ja, text("stray"), en, ja_more, empty]))]);
    let m = run(vec![labels("L1", vec![]), pair("L1", block)]);
    match &m.messages[0] {
        Message::Dialogue(d) => {
            let keys: Vec<&str> = d.dialogues.entries.iter().map(|e| e.0.as_str()).collect();
            assert_eq!(keys, vec!["ja", "en", "zh"]);
            let ja = d.dialogues.get("ja").unwrap();
            assert_eq!(ja.len(), 3);
            assert_eq!(ja[0].text, "konnichiwa");
            assert_eq!(ja[0].name, Some("Alice".to_string()));
            assert_eq!(ja[1].text, "second\nline");
            assert_eq!(ja[1].name, None);
            assert_eq!(ja[2].text, "more");
            let en = d.dialogues.get("en").unwrap();
            assert_eq!(en.len(), 1);
            assert_eq!(en[0].text, "hello");
            assert_eq!(en[0].name, Some("Alice".to_string()));
            assert!(d.dialogues.get("zh").unwrap().is_empty());
            assert!(d.dialogues.get("vo").is_none());
        },
        other => panic!("unexpected event: {:?}", other),
    }
}

#[test]
fn text_that_is_no_array_yields_no_event() {
    let m = run(vec![
        labels("L1", vec![]),
        pair("L1", arr(vec![pair("text", text("flat")), pair("linknext", text("L2"))])),
        pair("L2", arr(vec![pair("text", Value::Int(3))])),
    ]);
    assert!(m.messages.is_empty());
}

#[test]
fn invalid_markup_aborts_the_traversal() {
    let bad = pair("text", arr(vec![pair("en", arr(vec![arr(vec![text("x"), record("bogus", vec![])])]))]));
    let r = file(vec![
        labels("L1", vec![]),
        pair("L1", arr(vec![spoken("en", vec!["fine"]), pair("linknext", text("L2"))])),
        pair("L2", arr(vec![bad])),
    ])
    .get_messages();
    match r {
        Err(ExtractError::InvalidMarkup { block, offending }) => {
            assert_eq!(block, "L2");
            assert_eq!(offending.tag(), Some("bogus"));
        },
        other => panic!("unexpected: {:?}", other),
    }
}

#[test]
fn missing_label_block_is_a_missing_entry_point() {
    let r = file(vec![pair("L1", arr(vec![spoken("en", vec!["Hi"])]))]).get_messages();
    assert!(matches!(r, Err(ExtractError::MissingEntryPoint)));
    let r = AstFile { astver: "2".to_string(), astname: None, ast: Value::Int(0) }.get_messages();
    assert!(matches!(r, Err(ExtractError::MissingEntryPoint)));
}

#[test]
fn malformed_label_aborts() {
    let lb = pair(
        "label",
        arr(vec![pair("top", arr(vec![pair("block", text("L1"))])), pair("broken", arr(vec![]))]),
    );
    let r = file(vec![lb, pair("L1", arr(vec![spoken("en", vec!["Hi"])]))]).get_messages();
    match r {
        Err(ExtractError::MalformedLabel { label }) => assert_eq!(label, "broken"),
        other => panic!("unexpected: {:?}", other),
    }
}

#[test]
fn a_chain_that_comes_back_is_cyclic() {
    let r = file(vec![
        labels("L1", vec![]),
        pair("L1", arr(vec![spoken("en", vec!["a"]), pair("linknext", text("L2"))])),
        pair("L2", arr(vec![pair("linknext", text("L1"))])),
    ])
    .get_messages();
    assert!(matches!(r, Err(ExtractError::CyclicTraversal { .. })));
    let r = file(vec![labels("L1", vec![]), pair("L1", arr(vec![pair("linknext", text("L1"))]))])
        .get_messages();
    assert!(matches!(r, Err(ExtractError::CyclicTraversal { .. })));
}

#[test]
fn a_chain_through_every_block_is_not_cyclic() {
    let mut blocks: StrMap<Value> = StrMap::new();
    blocks.insert("b3".to_string(), arr(vec![spoken("en", vec!["3"])]));
    blocks.insert("b1".to_string(), arr(vec![spoken("en", vec!["1"]), pair("linknext", text("b2"))]));
    blocks.insert("b2".to_string(), arr(vec![spoken("en", vec!["2"]), pair("linknext", text("b3"))]));
    let anchored: StrMap<Vec<String>> = StrMap::new();
    let m = extract_messages(&blocks, &anchored, "b1").unwrap();
    assert_eq!(m.messages.len(), 3);
    let m = run(vec![
        pair("b1", arr(vec![spoken("en", vec!["1"]), pair("linknext", text("b2"))])),
        pair("b2", arr(vec![spoken("en", vec!["2"]), pair("linknext", text("b3"))])),
        pair("b3", arr(vec![spoken("en", vec!["3"])])),
        labels("b1", vec![]),
    ]);
    assert_eq!(m.messages.len(), 3);
}

#[test]
fn a_cycle_is_reported_with_a_block_on_it() {
    let mut blocks: StrMap<Value> = StrMap::new();
    blocks.insert("in".to_string(), arr(vec![pair("linknext", text("x"))]));
    blocks.insert("x".to_string(), arr(vec![pair("linknext", text("y"))]));
    blocks.insert("y".to_string(), arr(vec![pair("linknext", text("x"))]));
    let anchored: StrMap<Vec<String>> = StrMap::new();
    match extract_messages(&blocks, &anchored, "in") {
        Err(ExtractError::CyclicTraversal { block }) => assert_eq!(block, "x"),
        other => panic!("unexpected: {:?}", other),
    }
}

#[test]
fn patched_blocks_are_the_ones_walked() {
    let m = run(vec![
        labels("L1", vec![]),
        pair("L1", arr(vec![spoken("en", vec!["old"]), pair("line", Value::Int(1))])),
        pair("L1", arr(vec![spoken("en", vec!["new"]), pair("line", Value::Int(2))])),
    ]);
    match &m.messages[0] {
        Message::Dialogue(d) => assert_eq!(d.dialogues.get("en").unwrap()[0].text, "new"),
        other => panic!("unexpected event: {:?}", other),
    }
}

#[test]
fn extract_messages_takes_its_indexes_as_they_are() {
    let mut blocks: StrMap<Value> = StrMap::new();
    blocks.insert("a".to_string(), arr(vec![spoken("en", vec!["A"]), pair("linknext", text("b"))]));
    blocks.insert("b".to_string(), arr(vec![spoken("en", vec!["B"])]));
    let mut anchored: StrMap<Vec<String>> = StrMap::new();
    anchored.insert("b".to_string(), strings(vec!["x", "y"]));
    let m = extract_messages(&blocks, &anchored, "a").unwrap();
    assert_eq!(m.messages.len(), 2);
    match (&m.messages[0], &m.messages[1]) {
        (Message::Dialogue(first), Message::Dialogue(second)) => {
            assert_eq!(first.labels, None);
            assert_eq!(second.labels, Some(strings(vec!["x", "y"])));
        },
        other => panic!("unexpected events: {:?}", other),
    }
    let m = extract_messages(&blocks, &anchored, "zzz").unwrap();
    assert!(m.messages.is_empty());
}

#[test]
fn read_event_classifies_in_order_of_priority() {
    let block = arr(vec![
        record("select", vec![pair("text", text("t"))]),
        pair("t", arr(vec![pair("en", arr(vec![text("opt")]))])),
        spoken("en", vec!["line"]),
    ]);
    match read_event(&block, "b", None) {
        Ok(Some(Message::Select(s))) => assert_eq!(s.sels.get("en").unwrap()[0].text, "opt"),
        other => panic!("unexpected: {:?}", other),
    }
    let block = arr(vec![pair("linknext", text("n"))]);
    assert!(matches!(read_event(&block, "b", None), Ok(None)));
    let block = arr(vec![]);
    assert!(matches!(read_event(&block, "b", None), Err(ExtractError::MissingDialogueText { .. })));
}
