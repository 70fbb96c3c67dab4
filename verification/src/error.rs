//! Why the narrative of a file could not be extracted.

use vstd::prelude::*;
use vstd::string::*;
use crate::markup::{TokenizeError, TokenizeErrorModel};
use crate::types::{Tree, Value};

verus! {

/// A structural failure. It ends the traversal of the file: there is no
/// partial result. Each failure names the block or label that it is about.
#[derive(Debug)]
pub enum ExtractError {
    /// The label block is missing, or names no block to start at.
    MissingEntryPoint,
    /// The label `label` does not say which block it is anchored on.
    MalformedLabel { label: String },
    /// A choice of the block `block` has no text under the key `text`.
    MissingChoiceText { block: String, text: String },
    /// The block `block` has neither text nor a block to go on with.
    MissingDialogueText { block: String },
    /// A run of a line of the block `block` is neither text nor known markup.
    InvalidMarkup { block: String, offending: Value },
    /// The chain of blocks comes back to the block `block` and so never ends.
    CyclicTraversal { block: String },
}

/// The mathematical value of an `ExtractError`.
pub enum ExtractErrorModel {
    MissingEntryPoint,
    MalformedLabel { label: Seq<char> },
    MissingChoiceText { block: Seq<char>, text: Seq<char> },
    MissingDialogueText { block: Seq<char> },
    InvalidMarkup { block: Seq<char>, offending: Tree },
    CyclicTraversal { block: Seq<char> },
}

impl DeepView for ExtractError {
    type V = ExtractErrorModel;

    open spec fn deep_view(&self) -> ExtractErrorModel {
        match self {
            ExtractError::MissingEntryPoint => ExtractErrorModel::MissingEntryPoint,
            ExtractError::MalformedLabel { label } => ExtractErrorModel::MalformedLabel {
                label: label@,
            },
            ExtractError::MissingChoiceText { block, text } => {
                ExtractErrorModel::MissingChoiceText { block: block@, text: text@ }
            },
            ExtractError::MissingDialogueText { block } => {
                ExtractErrorModel::MissingDialogueText { block: block@ }
            },
            ExtractError::InvalidMarkup { block, offending } => ExtractErrorModel::InvalidMarkup {
                block: block@,
                offending: offending@,
            },
            ExtractError::CyclicTraversal { block } => ExtractErrorModel::CyclicTraversal {
                block: block@,
            },
        }
    }
}

impl View for ExtractError {
    type V = ExtractErrorModel;

    open spec fn view(&self) -> ExtractErrorModel {
        self.deep_view()
    }
}

/// The mathematical value of an outcome: that of what was computed, or that
/// of the failure.
pub open spec fn result_view<T: DeepView, E: DeepView>(r: Result<T, E>) -> Result<T::V, E::V> {
    match r {
        Ok(v) => Ok(v.deep_view()),
        Err(e) => Err(e.deep_view()),
    }
}

/// The failure of a traversal that a failure of the tokenizer amounts to.
pub open spec fn markup_failure(e: TokenizeErrorModel) -> ExtractErrorModel {
    match e {
        TokenizeErrorModel::InvalidMarkup { block_name, offending } => {
            ExtractErrorModel::InvalidMarkup { block: block_name, offending }
        },
    }
}

/// What a failure reads as.
pub open spec fn message_text(e: ExtractErrorModel) -> Seq<char> {
    match e {
        ExtractErrorModel::MissingEntryPoint => "Can not get top block from label"@,
        ExtractErrorModel::MalformedLabel { label } => "Can not get block from label "@ + label,
        ExtractErrorModel::MissingChoiceText { block, text } => "Can not get text "@ + text
            + " from select block "@ + block,
        ExtractErrorModel::MissingDialogueText { block } => "Can not get text from dialogue block "@
            + block,
        ExtractErrorModel::InvalidMarkup { block, offending } => "Invalid text in dialogue block "@
            + block,
        ExtractErrorModel::CyclicTraversal { block } => "Traversal never ends: it comes back to block "@
            + block,
    }
}

impl ExtractError {
    /// The failure of a traversal that a failure of the tokenizer amounts to.
    pub fn from_markup(e: TokenizeError) -> (r: ExtractError)
        ensures
            r@ == markup_failure(e@),
    {
        match e {
            TokenizeError::InvalidMarkup { block_name, offending } => ExtractError::InvalidMarkup {
                block: block_name,
                offending,
            },
        }
    }

    /// What the failure reads as.
    pub fn message(&self) -> (r: String)
        ensures
            r@ == message_text(self@),
    {
        match self {
            ExtractError::MissingEntryPoint => "Can not get top block from label".to_owned(),
            ExtractError::MalformedLabel { label } => {
                let mut out = "Can not get block from label ".to_owned();
                out.append(label.as_str());
                out
            },
            ExtractError::MissingChoiceText { block, text } => {
                let mut out = "Can not get text ".to_owned();
                out.append(text.as_str());
                out.append(" from select block ");
                out.append(block.as_str());
                out
            },
            ExtractError::MissingDialogueText { block } => {
                let mut out = "Can not get text from dialogue block ".to_owned();
                out.append(block.as_str());
                out
            },
            ExtractError::InvalidMarkup { block, offending } => {
                let mut out = "Invalid text in dialogue block ".to_owned();
                out.append(block.as_str());
                out
            },
            ExtractError::CyclicTraversal { block } => {
                let mut out = "Traversal never ends: it comes back to block ".to_owned();
                out.append(block.as_str());
                out
            },
        }
    }
}

} // verus!
