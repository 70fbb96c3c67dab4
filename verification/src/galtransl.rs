//! The line-based export for translation: one record for each line of the
//! narrative, in a single language.

use vstd::prelude::*;
use crate::error::{result_view, ExtractError, ExtractErrorModel};
use crate::extract::messages_of;
use crate::messages::{
    Dialogue, DialogueModel, Message, MessageModel, Messages, MessagesModel, Select, SelectModel,
};
use crate::strmap::chosen;
use crate::text::copy_of;
use crate::types::AstFile;

verus! {

/// One record of the export: a line, and its speaker if it has one.
#[derive(Debug)]
pub struct GalTranslMessage {
    pub message: String,
    pub name: Option<String>,
}

/// The mathematical value of a `GalTranslMessage`.
pub struct GalTranslMessageModel {
    pub message: Seq<char>,
    pub name: Option<Seq<char>>,
}

impl DeepView for GalTranslMessage {
    type V = GalTranslMessageModel;

    open spec fn deep_view(&self) -> GalTranslMessageModel {
        GalTranslMessageModel { message: self.message@, name: self.name.deep_view() }
    }
}

impl View for GalTranslMessage {
    type V = GalTranslMessageModel;

    open spec fn view(&self) -> GalTranslMessageModel {
        self.deep_view()
    }
}

/// The records of spoken lines: each with its speaker.
pub open spec fn dialogue_records(lines: Seq<DialogueModel>) -> Seq<GalTranslMessageModel> {
    Seq::new(
        lines.len(),
        |i: int| GalTranslMessageModel { message: lines[i].text, name: lines[i].name },
    )
}

/// The records of the options of a choice: none has a speaker.
pub open spec fn select_records(options: Seq<SelectModel>) -> Seq<GalTranslMessageModel> {
    Seq::new(options.len(), |i: int| GalTranslMessageModel { message: options[i].text, name: None })
}

/// What the export carries from event to event.
pub struct ExportState {
    /// The records so far.
    pub records: Seq<GalTranslMessageModel>,
    /// The language that is exported, once it is set.
    pub language: Option<Seq<char>>,
}

/// The state after the event `m`: the lines or options that it has in the
/// language exported are added; an event that has none in that language, and
/// a call, add nothing.
pub open spec fn event_exported(st: ExportState, m: MessageModel) -> ExportState {
    match m {
        MessageModel::Dialogue(d) => {
            let (lines, language) = chosen(d.dialogues, st.language);
            match lines {
                Some(ls) => ExportState { records: st.records + dialogue_records(ls), language },
                None => ExportState { records: st.records, language },
            }
        },
        MessageModel::Select(s) => {
            let (options, language) = chosen(s.sels, st.language);
            match options {
                Some(o) => ExportState { records: st.records + select_records(o), language },
                None => ExportState { records: st.records, language },
            }
        },
        MessageModel::ExCall(_) => st,
    }
}

/// The state after the events `events`, from first to last.
pub open spec fn events_exported(st: ExportState, events: Seq<MessageModel>) -> ExportState
    decreases events.len(),
{
    if events.len() == 0 {
        st
    } else {
        events_exported(event_exported(st, events[0]), events.drop_first())
    }
}

/// The export of the narrative `m` in the language `lang`, or, where `lang`
/// is not given, in the first language met: the title as a record without
/// speaker, if there is a title, then the records of the events.
pub open spec fn exported(m: MessagesModel, lang: Option<Seq<char>>) -> Seq<GalTranslMessageModel> {
    let titled = match m.savetitle {
        Some(t) => seq![GalTranslMessageModel { message: t, name: None }],
        None => Seq::empty(),
    };
    events_exported(ExportState { records: titled, language: lang }, m.messages).records
}

/// Adds the records of spoken lines to `out`.
fn push_dialogues(out: &mut Vec<GalTranslMessage>, lines: &Vec<Dialogue>)
    ensures
        final(out).deep_view() == old(out).deep_view() + dialogue_records(lines.deep_view()),
{
    let n = lines.len();
    let mut i: usize = 0;
    while i < n
        invariant
            i <= n,
            n == lines@.len(),
            out.deep_view() == old(out).deep_view() + dialogue_records(lines.deep_view()).take(
                i as int,
            ),
        decreases n - i,
    {
        let ghost before = out.deep_view();
        let record = GalTranslMessage { message: lines[i].text.clone(), name: copy_of(&lines[i].name) };
        out.push(record);
        proof {
            assert(out.deep_view() =~= before.push(record@));
        }
        i += 1;
    }
}

/// Adds the records of the options of a choice to `out`.
fn push_selects(out: &mut Vec<GalTranslMessage>, options: &Vec<Select>)
    ensures
        final(out).deep_view() == old(out).deep_view() + select_records(options.deep_view()),
{
    let n = options.len();
    let mut i: usize = 0;
    while i < n
        invariant
            i <= n,
            n == options@.len(),
            out.deep_view() == old(out).deep_view() + select_records(options.deep_view()).take(
                i as int,
            ),
        decreases n - i,
    {
        let ghost before = out.deep_view();
        let record = GalTranslMessage { message: options[i].text.clone(), name: None };
        out.push(record);
        proof {
            assert(out.deep_view() =~= before.push(record@));
        }
        i += 1;
    }
}

/// The export of a narrative in the language `lang`, or in the first language
/// met where `lang` is not given.
pub fn galtransl_messages(messages: &Messages, lang: Option<String>) -> (r: Vec<GalTranslMessage>)
    ensures
        r.deep_view() == exported(messages@, lang.deep_view()),
{
    let mut out: Vec<GalTranslMessage> = Vec::new();
    let mut language = lang;
    match &messages.savetitle {
        Some(title) => {
            let record = GalTranslMessage { message: title.clone(), name: None };
            out.push(record);
            assert(out.deep_view() =~= seq![record@]);
        },
        None => {
            assert(out.deep_view() =~= Seq::<GalTranslMessageModel>::empty());
        },
    }
    let ghost start = ExportState { records: out.deep_view(), language: language.deep_view() };
    let ghost all = messages.messages.deep_view();
    let n = messages.messages.len();
    let mut i: usize = 0;
    assert(all.skip(0) =~= all);
    while i < n
        invariant
            i <= n,
            n == messages.messages@.len(),
            all == messages.messages.deep_view(),
            events_exported(start, all) == events_exported(
                ExportState { records: out.deep_view(), language: language.deep_view() },
                all.skip(i as int),
            ),
        decreases n - i,
    {
        proof {
            assert(all.skip(i as int).drop_first() =~= all.skip(i + 1));
        }
        match &messages.messages[i] {
            Message::Dialogue(d) => {
                match d.dialogues.choose_from(&mut language) {
                    Some(lines) => {
                        push_dialogues(&mut out, lines);
                    },
                    None => {},
                }
            },
            Message::Select(s) => {
                match s.sels.choose_from(&mut language) {
                    Some(options) => {
                        push_selects(&mut out, options);
                    },
                    None => {},
                }
            },
            Message::ExCall(_) => {},
        }
        i += 1;
    }
    out
}

impl AstFile {
    /// The export of the narrative of the file.
    pub fn to_galtransl(&self, lang: Option<String>) -> (r: Result<
        Vec<GalTranslMessage>,
        ExtractError,
    >)
        ensures
            result_view(r) == (match messages_of(self.ast@) {
                Ok(m) => Ok::<Seq<GalTranslMessageModel>, ExtractErrorModel>(
                    exported(m, lang.deep_view()),
                ),
                Err(e) => Err(e),
            }),
    {
        match self.get_messages() {
            Ok(messages) => Ok(galtransl_messages(&messages, lang)),
            Err(e) => Err(e),
        }
    }
}

} // verus!
