//! The Markdown renderer: a narrative as a numbered list, with anchors for
//! the labels and links for the calls and choices.
//!
//! The renderer reads in one language: the one it is set on, or else the
//! first language of the first event that has lines.

use vstd::prelude::*;
use vstd::string::*;
use crate::messages::{
    Dialogue, DialogueModel, ExCall, ExCallModel, Message, MessageModel, Messages, MessagesModel,
    Select, SelectModel,
};
use crate::strmap::chosen;
use crate::text::{digits, markdown_text, push_digits, push_markdown_text};

verus! {

/// What a renderer has written and what it carries from event to event.
pub struct RendererState {
    /// The document so far.
    pub out: Seq<char>,
    /// The number of the last event written.
    pub count: nat,
    /// The language that the renderer reads in, once it is set.
    pub language: Option<Seq<char>>,
}

/// The anchor of one label.
pub open spec fn anchor(label: Seq<char>) -> Seq<char> {
    "<a name=\""@ + label + "\"></a>"@
}

/// The anchors of the labels `labels`, in order.
pub open spec fn anchors(labels: Seq<Seq<char>>) -> Seq<char>
    decreases labels.len(),
{
    if labels.len() == 0 {
        Seq::empty()
    } else {
        anchors(labels.drop_last()) + anchor(labels.last())
    }
}

/// What opens the entry of an event: its number, and its anchors.
pub open spec fn entry_head(count: nat, labels: Option<Seq<Seq<char>>>) -> Seq<char> {
    digits(count) + ". "@ + match labels {
        Some(l) => anchors(l),
        None => Seq::empty(),
    }
}

/// One spoken line: its speaker if it has one, and its text.
pub open spec fn dialogue_line(d: DialogueModel) -> Seq<char> {
    match d.name {
        Some(name) => name + ": "@ + markdown_text(d.text) + "\n"@,
        None => markdown_text(d.text) + "\n"@,
    }
}

/// Spoken lines as list items.
pub open spec fn dialogue_items(lines: Seq<DialogueModel>) -> Seq<char>
    decreases lines.len(),
{
    if lines.len() == 0 {
        Seq::empty()
    } else {
        dialogue_items(lines.drop_last()) + "  - "@ + dialogue_line(lines.last())
    }
}

/// The lines of a block: a single line on the line of the number, several
/// as a list below it, none as an empty entry.
pub open spec fn dialogue_body(lines: Option<Seq<DialogueModel>>) -> Seq<char> {
    match lines {
        Some(ls) => if ls.len() == 1 {
            dialogue_line(ls[0])
        } else {
            "\n"@ + dialogue_items(ls)
        },
        None => "\n"@,
    }
}

/// The link that reads `text` and leads to `file` and `label`; nothing where
/// it would lead nowhere.
pub open spec fn link(text: Seq<char>, file: Option<Seq<char>>, label: Option<Seq<char>>) -> Option<
    Seq<char>,
> {
    match (file, label) {
        (Some(f), Some(l)) => Some("["@ + text + "]("@ + f + ".ast#"@ + l + ")"@),
        (Some(f), None) => Some("["@ + text + "]("@ + f + ".ast)"@),
        (None, Some(l)) => Some("["@ + text + "](#"@ + l + ")"@),
        (None, None) => None,
    }
}

/// What a call reads: the file it leads to, or else the label.
pub open spec fn excall_text(e: ExCallModel) -> Seq<char> {
    match (e.file, e.label) {
        (Some(f), _) => f,
        (None, Some(l)) => l,
        (None, None) => Seq::empty(),
    }
}

/// One call as a line, with `lead` before the link; nothing for a call that
/// leads nowhere.
pub open spec fn excall_line(lead: Seq<char>, e: ExCallModel) -> Seq<char> {
    match link(excall_text(e), e.file, e.label) {
        Some(l) => lead + l + "\n"@,
        None => Seq::empty(),
    }
}

/// Calls as list items.
pub open spec fn excall_items(calls: Seq<ExCallModel>) -> Seq<char>
    decreases calls.len(),
{
    if calls.len() == 0 {
        Seq::empty()
    } else {
        excall_items(calls.drop_last()) + excall_line("  - "@, calls.last())
    }
}

/// The calls of a block: a single call on the line of the number, any other
/// number of them as a list below it.
pub open spec fn excall_body(calls: Seq<ExCallModel>) -> Seq<char> {
    if calls.len() == 1 {
        excall_line(Seq::empty(), calls[0])
    } else {
        "\n"@ + excall_items(calls)
    }
}

/// One option as a list item: a link where it leads somewhere, its bare text
/// where it does not.
pub open spec fn select_line(s: SelectModel) -> Seq<char> {
    match link(s.text, s.file, s.label) {
        Some(l) => "  - "@ + l + "\n"@,
        None => "  - "@ + s.text + "\n"@,
    }
}

/// Options as list items.
pub open spec fn select_items(options: Seq<SelectModel>) -> Seq<char>
    decreases options.len(),
{
    if options.len() == 0 {
        Seq::empty()
    } else {
        select_items(options.drop_last()) + select_line(options.last())
    }
}

/// The options of a block as a list below the number; nothing where the
/// block has none in the language read.
pub open spec fn select_body(options: Option<Seq<SelectModel>>) -> Seq<char> {
    match options {
        Some(o) => "\n"@ + select_items(o),
        None => Seq::empty(),
    }
}

/// The state after the title `title`.
pub open spec fn title_rendered(st: RendererState, title: Seq<char>) -> RendererState {
    RendererState { out: st.out + "# "@ + title + "\n"@, ..st }
}

/// The state after the event `m`.
pub open spec fn message_rendered(st: RendererState, m: MessageModel) -> RendererState {
    let count = st.count + 1;
    match m {
        MessageModel::Dialogue(d) => {
            let (lines, language) = chosen(d.dialogues, st.language);
            RendererState {
                out: st.out + entry_head(count, d.labels) + dialogue_body(lines),
                count,
                language,
            }
        },
        MessageModel::ExCall(e) => RendererState {
            out: st.out + entry_head(count, e.labels) + excall_body(e.excalls),
            count,
            language: st.language,
        },
        MessageModel::Select(s) => {
            let (options, language) = chosen(s.sels, st.language);
            RendererState {
                out: st.out + entry_head(count, s.labels) + select_body(options),
                count,
                language,
            }
        },
    }
}

/// The state after the events `events`, from first to last.
pub open spec fn messages_rendered(st: RendererState, events: Seq<MessageModel>) -> RendererState
    decreases events.len(),
{
    if events.len() == 0 {
        st
    } else {
        messages_rendered(message_rendered(st, events[0]), events.drop_first())
    }
}

/// The state after the narrative `m`: its title as a heading, if it has one,
/// then its events.
pub open spec fn rendered(st: RendererState, m: MessagesModel) -> RendererState {
    let titled = match m.savetitle {
        Some(t) => title_rendered(st, t),
        None => st,
    };
    messages_rendered(titled, m.messages)
}

/// The number of events written only grows, by one with each event.
pub proof fn lemma_messages_rendered_count(st: RendererState, events: Seq<MessageModel>)
    ensures
        messages_rendered(st, events).count == st.count + events.len(),
    decreases events.len(),
{
    if events.len() > 0 {
        lemma_messages_rendered_count(message_rendered(st, events[0]), events.drop_first());
    }
}

/// Writes a narrative as Markdown.
pub struct MarkdownRenderer {
    out: String,
    count: usize,
    language: Option<String>,
}

impl View for MarkdownRenderer {
    type V = RendererState;

    closed spec fn view(&self) -> RendererState {
        RendererState {
            out: self.out@,
            count: self.count as nat,
            language: self.language.deep_view(),
        }
    }
}

/// Appends the link that reads `text` and leads to `file` and `label`, and
/// says whether there was one to append.
fn push_link(out: &mut String, text: &str, file: &Option<String>, label: &Option<String>) -> (r:
    bool)
    ensures
        (match link(text@, file.deep_view(), label.deep_view()) {
            Some(l) => r && final(out)@ == old(out)@ + l,
            None => !r && final(out)@ == old(out)@,
        }),
{
    match (file, label) {
        (Some(f), Some(l)) => {
            out.append("[");
            out.append(text);
            out.append("](");
            out.append(f.as_str());
            out.append(".ast#");
            out.append(l.as_str());
            out.append(")");
            true
        },
        (Some(f), None) => {
            out.append("[");
            out.append(text);
            out.append("](");
            out.append(f.as_str());
            out.append(".ast)");
            true
        },
        (None, Some(l)) => {
            out.append("[");
            out.append(text);
            out.append("](#");
            out.append(l.as_str());
            out.append(")");
            true
        },
        (None, None) => false,
    }
}

/// Appends one spoken line.
fn push_dialogue_line(out: &mut String, d: &Dialogue)
    ensures
        final(out)@ == old(out)@ + dialogue_line(d@),
{
    match &d.name {
        Some(name) => {
            out.append(name.as_str());
            out.append(": ");
            push_markdown_text(out, d.text.as_str());
            out.append("\n");
        },
        None => {
            push_markdown_text(out, d.text.as_str());
            out.append("\n");
        },
    }
}

/// Appends one call as a line, with `lead` before the link.
fn push_excall_line(out: &mut String, lead: &str, e: &ExCall)
    ensures
        final(out)@ == old(out)@ + excall_line(lead@, e@),
{
    let text: &str = match (&e.file, &e.label) {
        (Some(f), _) => f.as_str(),
        (None, Some(l)) => l.as_str(),
        (None, None) => "",
    };
    if e.file.is_some() || e.label.is_some() {
        out.append(lead);
        push_link(out, text, &e.file, &e.label);
        out.append("\n");
    }
}

/// Appends one option as a list item.
fn push_select_line(out: &mut String, s: &Select)
    ensures
        final(out)@ == old(out)@ + select_line(s@),
{
    out.append("  - ");
    let linked = push_link(out, s.text.as_str(), &s.file, &s.label);
    if !linked {
        out.append(s.text.as_str());
    }
    out.append("\n");
}

/// Appends the anchors of the labels anchored on a block, if there are any.
fn push_anchors(out: &mut String, labels: &Option<Vec<String>>)
    ensures
        final(out)@ == old(out)@ + (match labels.deep_view() {
            Some(l) => anchors(l),
            None => Seq::empty(),
        }),
{
    match labels {
        Some(names) => {
            let ghost all = names.deep_view();
            let n = names.len();
            let mut i: usize = 0;
            while i < n
                invariant
                    i <= n,
                    n == names@.len(),
                    all == names.deep_view(),
                    out@ == old(out)@ + anchors(all.take(i as int)),
                decreases n - i,
            {
                out.append("<a name=\"");
                out.append(names[i].as_str());
                out.append("\"></a>");
                assert(all.take(i + 1).drop_last() =~= all.take(i as int));
                i += 1;
            }
            assert(all.take(n as int) =~= all);
        },
        None => {},
    }
}

/// Appends what opens the entry of an event: its number, and its anchors.
fn push_entry_head(out: &mut String, count: usize, labels: &Option<Vec<String>>)
    ensures
        final(out)@ == old(out)@ + entry_head(count as nat, labels.deep_view()),
{
    push_digits(out, count as u64);
    out.append(". ");
    push_anchors(out, labels);
    assert(out@ =~= old(out)@ + entry_head(count as nat, labels.deep_view()));
}

/// Appends the lines of a block.
fn push_dialogue_body(out: &mut String, lines: Option<&Vec<Dialogue>>)
    ensures
        final(out)@ == old(out)@ + dialogue_body(lines.deep_view()),
{
    match lines {
        Some(lines) => {
            if lines.len() == 1 {
                push_dialogue_line(out, &lines[0]);
            } else {
                out.append("\n");
                let ghost listed = out@;
                let ghost all = lines.deep_view();
                let n = lines.len();
                let mut i: usize = 0;
                while i < n
                    invariant
                        i <= n,
                        n == lines@.len(),
                        all == lines.deep_view(),
                        out@ == listed + dialogue_items(all.take(i as int)),
                    decreases n - i,
                {
                    out.append("  - ");
                    push_dialogue_line(out, &lines[i]);
                    assert(all.take(i + 1).drop_last() =~= all.take(i as int));
                    i += 1;
                }
                assert(all.take(n as int) =~= all);
            }
        },
        None => {
            out.append("\n");
        },
    }
}

/// Appends the calls of a block.
fn push_excall_body(out: &mut String, calls: &Vec<ExCall>)
    ensures
        final(out)@ == old(out)@ + excall_body(calls.deep_view()),
{
    if calls.len() == 1 {
        proof {
            reveal_strlit("");
        }
        push_excall_line(out, "", &calls[0]);
    } else {
        out.append("\n");
        let ghost listed = out@;
        let ghost all = calls.deep_view();
        let n = calls.len();
        let mut i: usize = 0;
        while i < n
            invariant
                i <= n,
                n == calls@.len(),
                all == calls.deep_view(),
                out@ == listed + excall_items(all.take(i as int)),
            decreases n - i,
        {
            push_excall_line(out, "  - ", &calls[i]);
            assert(all.take(i + 1).drop_last() =~= all.take(i as int));
            i += 1;
        }
        assert(all.take(n as int) =~= all);
    }
}

/// Appends the options of a block.
fn push_select_body(out: &mut String, options: Option<&Vec<Select>>)
    ensures
        final(out)@ == old(out)@ + select_body(options.deep_view()),
{
    match options {
        Some(options) => {
            out.append("\n");
            let ghost listed = out@;
            let ghost all = options.deep_view();
            let n = options.len();
            let mut i: usize = 0;
            while i < n
                invariant
                    i <= n,
                    n == options@.len(),
                    all == options.deep_view(),
                    out@ == listed + select_items(all.take(i as int)),
                decreases n - i,
            {
                push_select_line(out, &options[i]);
                assert(all.take(i + 1).drop_last() =~= all.take(i as int));
                i += 1;
            }
            assert(all.take(n as int) =~= all);
        },
        None => {},
    }
}

impl MarkdownRenderer {
    /// A renderer that has written nothing and is set on no language.
    pub fn new() -> (r: Self)
        ensures
            r@ == (RendererState { out: Seq::empty(), count: 0, language: None }),
    {
        MarkdownRenderer { out: String::new(), count: 0, language: None }
    }

    /// Renders the narrative and gives the document.
    pub fn render(self, messages: &Messages) -> (r: String)
        requires
            self@.count + messages@.messages.len() <= usize::MAX,
        ensures
            r@ == rendered(self@, messages@).out,
    {
        let mut this = self;
        if let Some(title) = &messages.savetitle {
            this.render_title(title.as_str());
        }
        let ghost titled = this@;
        let ghost all = messages.messages.deep_view();
        let n = messages.messages.len();
        let mut i: usize = 0;
        assert(all.skip(0) =~= all);
        while i < n
            invariant
                i <= n,
                n == messages.messages@.len(),
                all == messages.messages.deep_view(),
                titled.count + n <= usize::MAX,
                messages_rendered(titled, all) == messages_rendered(this@, all.skip(i as int)),
                this@.count == titled.count + i,
            decreases n - i,
        {
            proof {
                assert(all.skip(i as int).drop_first() =~= all.skip(i + 1));
            }
            this.render_message(&messages.messages[i]);
            i += 1;
        }
        this.out
    }

    /// Writes the title as a heading.
    pub fn render_title(&mut self, title: &str)
        ensures
            final(self)@ == title_rendered(old(self)@, title@),
    {
        self.out.append("# ");
        self.out.append(title);
        self.out.append("\n");
    }

    /// Writes one event as the next entry of the list.
    pub fn render_message(&mut self, message: &Message)
        requires
            old(self)@.count < usize::MAX,
        ensures
            final(self)@ == message_rendered(old(self)@, message@),
    {
        self.count += 1;
        match message {
            Message::Dialogue(d) => {
                push_entry_head(&mut self.out, self.count, &d.labels);
                let lines = d.dialogues.choose_from(&mut self.language);
                push_dialogue_body(&mut self.out, lines);
            },
            Message::ExCall(e) => {
                push_entry_head(&mut self.out, self.count, &e.labels);
                push_excall_body(&mut self.out, &e.excalls);
            },
            Message::Select(s) => {
                push_entry_head(&mut self.out, self.count, &s.labels);
                let options = s.sels.choose_from(&mut self.language);
                push_select_body(&mut self.out, options);
            },
        }
    }
}

} // verus!
