use artemis_ast::error::ExtractError;
use artemis_ast::markup::TokenizeError;
use artemis_ast::types::Value;

#[test]
fn each_failure_reads_with_the_name_it_is_about() {
    assert_eq!(ExtractError::MissingEntryPoint.message(), "Can not get top block from label");
    assert_eq!(
        ExtractError::MalformedLabel { label: "l".to_string() }.message(),
        "Can not get block from label l"
    );
    assert_eq!(
        ExtractError::MissingChoiceText { block: "b".to_string(), text: "t".to_string() }.message(),
        "Can not get text t from select block b"
    );
    assert_eq!(
        ExtractError::MissingDialogueText { block: "b".to_string() }.message(),
        "Can not get text from dialogue block b"
    );
    assert_eq!(
        ExtractError::InvalidMarkup { block: "b".to_string(), offending: Value::Int(1) }.message(),
        "Invalid text in dialogue block b"
    );
    assert_eq!(
        ExtractError::CyclicTraversal { block: "b".to_string() }.message(),
        "Traversal never ends: it comes back to block b"
    );
}

#[test]
fn a_markup_failure_keeps_its_block_and_run() {
    let e = TokenizeError::InvalidMarkup { block_name: "blk".to_string(), offending: Value::Int(3) };
    match ExtractError::from_markup(e) {
        ExtractError::InvalidMarkup { block, offending } => {
            assert_eq!(block, "blk");
            assert_eq!(offending.as_int(), Some(3));
        },
        other => panic!("unexpected: {:?}", other),
    }
}
