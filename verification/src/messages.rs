//! What a traversal of a script yields: an optional title and the narrative
//! events in order.
//!
//! Each type here comes with its mathematical value, a type of the same shape
//! over sequences of characters, which is what the contracts speak of.

use vstd::prelude::*;
use crate::strmap::{distinct_keys, StrMap};

verus! {

/// One spoken line, with its speaker if it has one.
#[derive(Debug)]
pub struct Dialogue {
    pub text: String,
    pub name: Option<String>,
}

/// The mathematical value of a `Dialogue`.
pub struct DialogueModel {
    pub text: Seq<char>,
    pub name: Option<Seq<char>>,
}

impl DeepView for Dialogue {
    type V = DialogueModel;

    open spec fn deep_view(&self) -> DialogueModel {
        DialogueModel { text: self.text@, name: self.name.deep_view() }
    }
}

impl View for Dialogue {
    type V = DialogueModel;

    open spec fn view(&self) -> DialogueModel {
        self.deep_view()
    }
}

/// The lines of one block, language by language, with the labels anchored on
/// the block.
#[derive(Debug)]
pub struct Dialogues {
    pub labels: Option<Vec<String>>,
    pub dialogues: StrMap<Vec<Dialogue>>,
}

/// The mathematical value of a `Dialogues`.
pub struct DialoguesModel {
    pub labels: Option<Seq<Seq<char>>>,
    pub dialogues: Seq<(Seq<char>, Seq<DialogueModel>)>,
}

impl DeepView for Dialogues {
    type V = DialoguesModel;

    open spec fn deep_view(&self) -> DialoguesModel {
        DialoguesModel { labels: self.labels.deep_view(), dialogues: self.dialogues.deep_view() }
    }
}

impl View for Dialogues {
    type V = DialoguesModel;

    open spec fn view(&self) -> DialoguesModel {
        self.deep_view()
    }
}

/// A call into another file, or to a label, or both.
#[derive(Debug)]
pub struct ExCall {
    pub file: Option<String>,
    pub label: Option<String>,
}

/// The mathematical value of an `ExCall`.
pub struct ExCallModel {
    pub file: Option<Seq<char>>,
    pub label: Option<Seq<char>>,
}

impl DeepView for ExCall {
    type V = ExCallModel;

    open spec fn deep_view(&self) -> ExCallModel {
        ExCallModel { file: self.file.deep_view(), label: self.label.deep_view() }
    }
}

impl View for ExCall {
    type V = ExCallModel;

    open spec fn view(&self) -> ExCallModel {
        self.deep_view()
    }
}

/// The calls of one block, with the labels anchored on the block.
#[derive(Debug)]
pub struct ExCalls {
    pub labels: Option<Vec<String>>,
    pub excalls: Vec<ExCall>,
}

/// The mathematical value of an `ExCalls`.
pub struct ExCallsModel {
    pub labels: Option<Seq<Seq<char>>>,
    pub excalls: Seq<ExCallModel>,
}

impl DeepView for ExCalls {
    type V = ExCallsModel;

    open spec fn deep_view(&self) -> ExCallsModel {
        ExCallsModel { labels: self.labels.deep_view(), excalls: self.excalls.deep_view() }
    }
}

impl View for ExCalls {
    type V = ExCallsModel;

    open spec fn view(&self) -> ExCallsModel {
        self.deep_view()
    }
}

/// One option of a choice: what it reads, and where it leads.
#[derive(Debug)]
pub struct Select {
    pub text: String,
    pub file: Option<String>,
    pub label: Option<String>,
}

/// The mathematical value of a `Select`.
pub struct SelectModel {
    pub text: Seq<char>,
    pub file: Option<Seq<char>>,
    pub label: Option<Seq<char>>,
}

impl DeepView for Select {
    type V = SelectModel;

    open spec fn deep_view(&self) -> SelectModel {
        SelectModel {
            text: self.text@,
            file: self.file.deep_view(),
            label: self.label.deep_view(),
        }
    }
}

impl View for Select {
    type V = SelectModel;

    open spec fn view(&self) -> SelectModel {
        self.deep_view()
    }
}

/// The options of one block, language by language, with the labels anchored
/// on the block.
#[derive(Debug)]
pub struct Selects {
    pub labels: Option<Vec<String>>,
    pub sels: StrMap<Vec<Select>>,
}

/// The mathematical value of a `Selects`.
pub struct SelectsModel {
    pub labels: Option<Seq<Seq<char>>>,
    pub sels: Seq<(Seq<char>, Seq<SelectModel>)>,
}

impl DeepView for Selects {
    type V = SelectsModel;

    open spec fn deep_view(&self) -> SelectsModel {
        SelectsModel { labels: self.labels.deep_view(), sels: self.sels.deep_view() }
    }
}

impl View for Selects {
    type V = SelectsModel;

    open spec fn view(&self) -> SelectsModel {
        self.deep_view()
    }
}

/// One narrative event.
#[derive(Debug)]
pub enum Message {
    Dialogue(Dialogues),
    ExCall(ExCalls),
    Select(Selects),
}

/// The mathematical value of a `Message`.
pub enum MessageModel {
    Dialogue(DialoguesModel),
    ExCall(ExCallsModel),
    Select(SelectsModel),
}

impl DeepView for Message {
    type V = MessageModel;

    open spec fn deep_view(&self) -> MessageModel {
        match self {
            Message::Dialogue(d) => MessageModel::Dialogue(d.deep_view()),
            Message::ExCall(e) => MessageModel::ExCall(e.deep_view()),
            Message::Select(s) => MessageModel::Select(s.deep_view()),
        }
    }
}

impl View for Message {
    type V = MessageModel;

    open spec fn view(&self) -> MessageModel {
        self.deep_view()
    }
}

/// Whether no language occurs twice in the event.
pub open spec fn well_keyed(m: MessageModel) -> bool {
    match m {
        MessageModel::Dialogue(d) => distinct_keys(d.dialogues),
        MessageModel::ExCall(_) => true,
        MessageModel::Select(s) => distinct_keys(s.sels),
    }
}

/// The outcome of a traversal.
#[derive(Debug)]
pub struct Messages {
    pub savetitle: Option<String>,
    pub messages: Vec<Message>,
}

/// The mathematical value of a `Messages`.
pub struct MessagesModel {
    pub savetitle: Option<Seq<char>>,
    pub messages: Seq<MessageModel>,
}

impl DeepView for Messages {
    type V = MessagesModel;

    open spec fn deep_view(&self) -> MessagesModel {
        MessagesModel { savetitle: self.savetitle.deep_view(), messages: self.messages.deep_view() }
    }
}

impl View for Messages {
    type V = MessagesModel;

    open spec fn view(&self) -> MessagesModel {
        self.deep_view()
    }
}

/// Whether no language occurs twice in any event of the narrative.
pub open spec fn all_well_keyed(m: MessagesModel) -> bool {
    forall|i: int| 0 <= i < m.messages.len() ==> well_keyed(#[trigger] m.messages[i])
}

impl Default for Messages {
    fn default() -> (r: Messages)
        ensures
            r@ == (MessagesModel { savetitle: None, messages: Seq::empty() }),
    {
        let r = Messages { savetitle: None, messages: Vec::new() };
        assert(r.messages.deep_view() =~= Seq::<MessageModel>::empty());
        r
    }
}

} // verus!
