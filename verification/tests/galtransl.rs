use artemis_ast::galtransl::galtransl_messages;
use artemis_ast::messages::{
    Dialogue, Dialogues, ExCall, ExCalls, Message, Messages, Select, Selects,
};
use artemis_ast::strmap::StrMap;
use artemis_ast::types::{AstFile, Value};

fn line(text: &str, name: Option<&str>) -> Dialogue {
    Dialogue { text: text.to_string(), name: name.map(|n| n.to_string()) }
}

fn dialogue(langs: Vec<(&str, Vec<Dialogue>)>) -> Message {
    let mut dialogues = StrMap::new();
    for (k, v) in langs {
        dialogues.insert(k.to_string(), v);
    }
    Message::Dialogue(Dialogues { labels: None, dialogues })
}

fn choice(langs: Vec<(&str, Vec<&str>)>) -> Message {
    let mut sels = StrMap::new();
    for (k, v) in langs {
        let options: Vec<Select> = v
            .into_iter()
            .map(|t| Select { text: t.to_string(), file: Some("f".to_string()), label: None })
            .collect();
        sels.insert(k.to_string(), options);
    }
    Message::Select(Selects { labels: None, sels })
}

fn call() -> Message {
    Message::ExCall(ExCalls { labels: None, excalls: vec![ExCall { file: Some("f".to_string()), label: None }] })
}

fn export(title: Option<&str>, messages: Vec<Message>, lang: Option<&str>) -> Vec<(String, Option<String>)> {
    let m = Messages { savetitle: title.map(|t| t.to_string()), messages };
    galtransl_messages(&m, lang.map(|l| l.to_string()))
        .into_iter()
        .map(|r| (r.message, r.name))
        .collect()
}

fn rec(message: &str, name: Option<&str>) -> (String, Option<String>) {
    (message.to_string(), name.map(|n| n.to_string()))
}

#[test]
fn nothing_to_export() {
    assert!(export(None, vec![], None).is_empty());
    assert!(export(None, vec![call()], None).is_empty());
    assert!(export(None, vec![dialogue(vec![])], Some("en")).is_empty());
}

#[test]
fn title_comes_first_without_speaker() {
    let out = export(Some("T"), vec![dialogue(vec![("en", vec![line("a", Some("A"))])])], None);
    assert_eq!(out, vec![rec("T", None), rec("a", Some("A"))]);
}

#[test]
fn first_language_met_is_exported() {
    let out = export(
        None,
        vec![
            call(),
            dialogue(vec![("ja", vec![line("j1", None), line("j2", Some("S"))]), ("en", vec![line("e1", None)])]),
            choice(vec![("en", vec!["go"]), ("ja", vec!["iku", "matsu"])]),
            dialogue(vec![("en", vec![line("e2", None)])]),
        ],
        None,
    );
    assert_eq!(out, vec![rec("j1", None), rec("j2", Some("S")), rec("iku", None), rec("matsu", None)]);
}

#[test]
fn explicit_language_is_exported() {
    let out = export(
        None,
        vec![
            dialogue(vec![("ja", vec![line("j1", None)]), ("en", vec![line("e1", Some("E"))])]),
            choice(vec![("ja", vec!["iku"])]),
            choice(vec![("en", vec!["go"])]),
        ],
        Some("en"),
    );
    assert_eq!(out, vec![rec("e1", Some("E")), rec("go", None)]);
}

#[test]
fn a_choice_can_set_the_language() {
    let out = export(
        None,
        vec![choice(vec![("en", vec!["go"])]), dialogue(vec![("ja", vec![line("j", None)]), ("en", vec![line("e", None)])])],
        None,
    );
    assert_eq!(out, vec![rec("go", None), rec("e", None)]);
}

#[test]
fn export_of_a_file() {
    let text = |s: &str| Value::Str(s.to_string());
    let pair = |k: &str, v: Value| Value::KeyVal((k.to_string(), Box::new(v)));
    let f = AstFile {
        astver: "2".to_string(),
        astname: None,
        ast: Value::Array(vec![
            pair("label", Value::Array(vec![pair("top", Value::Array(vec![pair("block", text("b"))]))])),
            pair(
                "b",
                Value::Array(vec![
                    Value::Array(vec![text("savetitle"), pair("text", text("Title"))]),
                    pair(
                        "text",
                        Value::Array(vec![pair(
                            "en",
                            Value::Array(vec![Value::Array(vec![
                                pair("name", Value::Array(vec![text("Bob")])),
                                text("Hi"),
                            ])]),
                        )]),
                    ),
                ]),
            ),
        ]),
    };
    let out: Vec<(String, Option<String>)> =
        f.to_galtransl(None).unwrap().into_iter().map(|r| (r.message, r.name)).collect();
    assert_eq!(out, vec![rec("Title", None), rec("Hi", Some("Bob"))]);
    let g = AstFile { astver: "2".to_string(), astname: None, ast: Value::Array(vec![]) };
    assert!(g.to_galtransl(None).is_err());
}
