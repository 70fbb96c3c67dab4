//! The traversal engine: from the block index and the label index to the
//! narrative of a file.
//!
//! The traversal starts at the entry block and follows `linknext` from block
//! to block. Each block yields at most one event: the calls it makes, or the
//! choice it offers, or the lines it speaks. Calls and choices are recorded,
//! not followed.

use vstd::prelude::*;
use crate::blocks::block_index;
use crate::error::{markup_failure, result_view, ExtractError, ExtractErrorModel};
use crate::labels::{build_labels, label_index};
use crate::markup::{tokenize, tokenized};
use crate::messages::{
    Dialogue, DialogueModel, Dialogues, DialoguesModel, ExCall, ExCallModel, ExCalls, ExCallsModel,
    all_well_keyed, well_keyed, Message, MessageModel, Messages, MessagesModel, Select,
    SelectModel, Selects, SelectsModel,
};
use crate::strmap::{distinct_keys, extend_key, lemma_extend_key, lookup, put, StrMap};
use crate::text::{copy_all, copy_of, owned, str_eq};
use crate::types::{lemma_trees, trees, AstFile, Tree, Value};

verus! {

/// The title that a block sets: the text of its first `savetitle` record.
pub open spec fn block_title(block: Tree) -> Option<Seq<char>> {
    let records = block.find_array_attrs("savetitle"@);
    if records.len() > 0 {
        records[0].str_attr("text"@)
    } else {
        None
    }
}

/// Where one `excall` record leads.
pub open spec fn excall_target(record: Tree) -> ExCallModel {
    ExCallModel { file: record.str_attr("file"@), label: record.str_attr("label"@) }
}

/// Where the `excall` records of a block lead, in stored order.
pub open spec fn excall_targets(records: Seq<Tree>) -> Seq<ExCallModel> {
    Seq::new(records.len(), |i: int| excall_target(records[i]))
}

/// The speaker of a line: the string that its `name` attribute ends with.
pub open spec fn speaker(line: Tree) -> Option<Seq<char>> {
    match line.find_keyval("name"@) {
        Some(name) => match name.last() {
            Some(last) => last.as_str(),
            None => None,
        },
        None => None,
    }
}

/// The lines `lines` of the block `block`, tokenized from first to last and
/// added to `acc`, or the failure of the first line that cannot be tokenized.
pub open spec fn dialogue_lines(lines: Seq<Tree>, block: Seq<char>, acc: Seq<DialogueModel>) -> Result<
    Seq<DialogueModel>,
    ExtractErrorModel,
>
    decreases lines.len(),
{
    if lines.len() == 0 {
        Ok(acc)
    } else {
        match tokenized(lines[0], block) {
            Ok(text) => dialogue_lines(
                lines.drop_first(),
                block,
                acc.push(DialogueModel { text, name: speaker(lines[0]) }),
            ),
            Err(e) => Err(markup_failure(e)),
        }
    }
}

/// The lines of the block `block` language by language: each child of its
/// `text` that is a pair gives the lines of the language it is named after,
/// but for the voice-over pair `vo`; any other child is passed over.
pub open spec fn dialogue_languages(
    children: Seq<Tree>,
    block: Seq<char>,
    acc: Seq<(Seq<char>, Seq<DialogueModel>)>,
) -> Result<Seq<(Seq<char>, Seq<DialogueModel>)>, ExtractErrorModel>
    decreases children.len(),
{
    if children.len() == 0 {
        Ok(acc)
    } else {
        match children[0] {
            Tree::KeyVal(k, v) => if k == "vo"@ {
                dialogue_languages(children.drop_first(), block, acc)
            } else {
                match dialogue_lines(v.items(), block, Seq::empty()) {
                    Ok(lines) => dialogue_languages(
                        children.drop_first(),
                        block,
                        extend_key(acc, k, lines),
                    ),
                    Err(e) => Err(e),
                }
            },
            _ => dialogue_languages(children.drop_first(), block, acc),
        }
    }
}

/// The options that one `select` record adds, language by language: each
/// pair among the children of its text table gives one option, whose text is
/// the member of that pair at the position `count`; the position moves on by
/// one with each option taken. Nothing where a text is missing.
pub open spec fn choice_languages(
    children: Seq<Tree>,
    file: Option<Seq<char>>,
    label: Option<Seq<char>>,
    sels: Seq<(Seq<char>, Seq<SelectModel>)>,
    count: nat,
) -> Option<(Seq<(Seq<char>, Seq<SelectModel>)>, nat)>
    decreases children.len(),
{
    if children.len() == 0 {
        Some((sels, count))
    } else {
        match children[0] {
            Tree::KeyVal(k, v) => match v.get_member(count as int) {
                Some(member) => match member.as_str() {
                    Some(text) => choice_languages(
                        children.drop_first(),
                        file,
                        label,
                        extend_key(sels, k, seq![SelectModel { text, file, label }]),
                        count + 1,
                    ),
                    None => None,
                },
                None => None,
            },
            _ => choice_languages(children.drop_first(), file, label, sels, count),
        }
    }
}

/// What the reading of a choice carries from record to record.
pub struct ChoiceState {
    /// The options so far, language by language.
    pub sels: Seq<(Seq<char>, Seq<SelectModel>)>,
    /// For each text table, how many of its members are taken.
    pub used: Seq<(Seq<char>, nat)>,
}

/// The state after the `select` record `record` of the block `block`, named
/// `name`. A record without a text key is passed over.
pub open spec fn choice_record(record: Tree, block: Tree, name: Seq<char>, st: ChoiceState) -> Result<
    ChoiceState,
    ExtractErrorModel,
> {
    match record.str_attr("text"@) {
        None => Ok(st),
        Some(text) => {
            let count = match lookup(st.used, text) {
                Some(c) => c,
                None => 0,
            };
            let failure = ExtractErrorModel::MissingChoiceText { block: name, text };
            match block.find_keyval(text) {
                None => Err(failure),
                Some(table) => match choice_languages(
                    table.items(),
                    record.str_attr("file"@),
                    record.str_attr("label"@),
                    st.sels,
                    count,
                ) {
                    Some((sels, next)) => Ok(ChoiceState { sels, used: put(st.used, text, next) }),
                    None => Err(failure),
                },
            }
        },
    }
}

/// The state after the `select` records `records`, taken from first to last.
pub open spec fn choice_records(
    records: Seq<Tree>,
    block: Tree,
    name: Seq<char>,
    st: ChoiceState,
) -> Result<ChoiceState, ExtractErrorModel>
    decreases records.len(),
{
    if records.len() == 0 {
        Ok(st)
    } else {
        match choice_record(records[0], block, name, st) {
            Ok(next) => choice_records(records.drop_first(), block, name, next),
            Err(e) => Err(e),
        }
    }
}

/// The event of the block `block`, named `name`, on which the labels `labels`
/// are anchored. In this order: its calls, if it makes any; else its choice,
/// if it offers one; else its lines, if its `text` is an array. A block with
/// no `text` yields no event if it names a block to go on with, and is a
/// failure if it does not.
pub open spec fn block_event(block: Tree, name: Seq<char>, labels: Option<Seq<Seq<char>>>) -> Result<
    Option<MessageModel>,
    ExtractErrorModel,
> {
    let excalls = block.find_array_attrs("excall"@);
    let selects = block.find_array_attrs("select"@);
    if excalls.len() > 0 {
        Ok(Some(MessageModel::ExCall(ExCallsModel { labels, excalls: excall_targets(excalls) })))
    } else if selects.len() > 0 {
        match choice_records(
            selects,
            block,
            name,
            ChoiceState { sels: Seq::empty(), used: Seq::empty() },
        ) {
            Ok(st) => Ok(Some(MessageModel::Select(SelectsModel { labels, sels: st.sels }))),
            Err(e) => Err(e),
        }
    } else {
        match block.find_keyval("text"@) {
            None => if block.str_attr("linknext"@) is None {
                Err(ExtractErrorModel::MissingDialogueText { block: name })
            } else {
                Ok(None)
            },
            Some(text) => match text {
                Tree::Array(children) => match dialogue_languages(children, name, Seq::empty()) {
                    Ok(dialogues) => Ok(
                        Some(MessageModel::Dialogue(DialoguesModel { labels, dialogues })),
                    ),
                    Err(e) => Err(e),
                },
                _ => Ok(None),
            },
        }
    }
}

/// The narrative from the block named `label` on, after what `acc` holds.
///
/// The traversal ends where `label` names no block, or where a block names
/// none to go on with. The title is set by the first block that has one.
/// `fuel` bounds the number of blocks visited: a traversal that would visit
/// more is a failure.
pub open spec fn walk(
    blocks: Seq<(Seq<char>, Tree)>,
    labels: Seq<(Seq<char>, Seq<Seq<char>>)>,
    label: Seq<char>,
    acc: MessagesModel,
    fuel: nat,
) -> Result<MessagesModel, ExtractErrorModel>
    decreases fuel,
{
    match lookup(blocks, label) {
        None => Ok(acc),
        Some(block) => if fuel == 0 {
            Err(ExtractErrorModel::CyclicTraversal { block: label })
        } else {
            let savetitle = if acc.savetitle is None {
                block_title(block)
            } else {
                acc.savetitle
            };
            match block_event(block, label, lookup(labels, label)) {
                Err(e) => Err(e),
                Ok(event) => {
                    let messages = match event {
                        Some(m) => acc.messages.push(m),
                        None => acc.messages,
                    };
                    let next = MessagesModel { savetitle, messages };
                    match block.str_attr("linknext"@) {
                        Some(target) => walk(blocks, labels, target, next, (fuel - 1) as nat),
                        None => Ok(next),
                    }
                },
            }
        },
    }
}

/// The narrative of the blocks `blocks` with the labels `labels`, from the
/// block `entry` on. A chain of blocks without repetition visits each block
/// at most once, so one that visits more blocks than there are never ends.
pub open spec fn narrative(
    blocks: Seq<(Seq<char>, Tree)>,
    labels: Seq<(Seq<char>, Seq<Seq<char>>)>,
    entry: Seq<char>,
) -> Result<MessagesModel, ExtractErrorModel> {
    walk(
        blocks,
        labels,
        entry,
        MessagesModel { savetitle: None, messages: Seq::empty() },
        blocks.len(),
    )
}

/// The narrative of the file whose tree is `root`.
pub open spec fn messages_of(root: Tree) -> Result<MessagesModel, ExtractErrorModel> {
    let blocks = block_index(root);
    match lookup(blocks, "label"@) {
        None => Err(ExtractErrorModel::MissingEntryPoint),
        Some(label_block) => match label_index(label_block) {
            Ok((entry, labels)) => narrative(blocks, labels, entry),
            Err(e) => Err(e),
        },
    }
}

/// A block that makes no call, offers no choice and has no `text` is a
/// failure if it names no block to go on with, and yields no event if it
/// names one.
pub proof fn lemma_block_without_text(block: Tree, name: Seq<char>, labels: Option<Seq<Seq<char>>>)
    requires
        block.find_array_attrs("excall"@).len() == 0,
        block.find_array_attrs("select"@).len() == 0,
        block.find_keyval("text"@) is None,
    ensures
        block.str_attr("linknext"@) is None ==> block_event(block, name, labels) == Err::<
            Option<MessageModel>,
            ExtractErrorModel,
        >(ExtractErrorModel::MissingDialogueText { block: name }),
        block.str_attr("linknext"@) is Some ==> block_event(block, name, labels) == Ok::<
            Option<MessageModel>,
            ExtractErrorModel,
        >(None),
{
}

/// A traversal that comes to such a block ends in a failure there if the
/// block names no block to go on with, and goes on from the block it names,
/// with no event added, if it names one.
pub proof fn lemma_walk_without_text(
    blocks: Seq<(Seq<char>, Tree)>,
    labels: Seq<(Seq<char>, Seq<Seq<char>>)>,
    label: Seq<char>,
    acc: MessagesModel,
    fuel: nat,
)
    requires
        fuel > 0,
        lookup(blocks, label) matches Some(block) && ({
            &&& block.find_array_attrs("excall"@).len() == 0
            &&& block.find_array_attrs("select"@).len() == 0
            &&& block.find_keyval("text"@) is None
        }),
    ensures
        walk(blocks, labels, label, acc, fuel) == (match lookup(blocks, label)->0.str_attr(
            "linknext"@,
        ) {
            None => Err(ExtractErrorModel::MissingDialogueText { block: label }),
            Some(target) => walk(
                blocks,
                labels,
                target,
                MessagesModel {
                    savetitle: if acc.savetitle is None {
                        block_title(lookup(blocks, label)->0)
                    } else {
                        acc.savetitle
                    },
                    messages: acc.messages,
                },
                (fuel - 1) as nat,
            ),
        }),
{
    lemma_block_without_text(lookup(blocks, label)->0, label, lookup(labels, label));
}

/// No language occurs twice among the lines of a block.
pub proof fn lemma_dialogue_languages_distinct(
    children: Seq<Tree>,
    block: Seq<char>,
    acc: Seq<(Seq<char>, Seq<DialogueModel>)>,
)
    requires
        distinct_keys(acc),
    ensures
        dialogue_languages(children, block, acc) matches Ok(r) ==> distinct_keys(r),
    decreases children.len(),
{
    if children.len() > 0 {
        match children[0] {
            Tree::KeyVal(k, v) => if k == "vo"@ {
                lemma_dialogue_languages_distinct(children.drop_first(), block, acc);
            } else {
                match dialogue_lines(v.items(), block, Seq::empty()) {
                    Ok(lines) => {
                        lemma_extend_key(acc, k, lines, k);
                        lemma_dialogue_languages_distinct(
                            children.drop_first(),
                            block,
                            extend_key(acc, k, lines),
                        );
                    },
                    Err(_) => {},
                }
            },
            _ => {
                lemma_dialogue_languages_distinct(children.drop_first(), block, acc);
            },
        }
    }
}

/// No language occurs twice among the options that a record adds to.
pub proof fn lemma_choice_languages_distinct(
    children: Seq<Tree>,
    file: Option<Seq<char>>,
    label: Option<Seq<char>>,
    sels: Seq<(Seq<char>, Seq<SelectModel>)>,
    count: nat,
)
    requires
        distinct_keys(sels),
    ensures
        choice_languages(children, file, label, sels, count) matches Some(r) ==> distinct_keys(
            r.0,
        ),
    decreases children.len(),
{
    if children.len() > 0 {
        match children[0] {
            Tree::KeyVal(k, v) => match v.get_member(count as int) {
                Some(member) => match member.as_str() {
                    Some(text) => {
                        let one = seq![SelectModel { text, file, label }];
                        lemma_extend_key(sels, k, one, k);
                        lemma_choice_languages_distinct(
                            children.drop_first(),
                            file,
                            label,
                            extend_key(sels, k, one),
                            count + 1,
                        );
                    },
                    None => {},
                },
                None => {},
            },
            _ => {
                lemma_choice_languages_distinct(children.drop_first(), file, label, sels, count);
            },
        }
    }
}

/// No language occurs twice among the options of a block.
pub proof fn lemma_choice_records_distinct(
    records: Seq<Tree>,
    block: Tree,
    name: Seq<char>,
    st: ChoiceState,
)
    requires
        distinct_keys(st.sels),
    ensures
        choice_records(records, block, name, st) matches Ok(r) ==> distinct_keys(r.sels),
    decreases records.len(),
{
    if records.len() > 0 {
        let record = records[0];
        match record.str_attr("text"@) {
            None => {
                lemma_choice_records_distinct(records.drop_first(), block, name, st);
            },
            Some(text) => {
                let count = match lookup(st.used, text) {
                    Some(c) => c,
                    None => 0,
                };
                match block.find_keyval(text) {
                    None => {},
                    Some(table) => {
                        lemma_choice_languages_distinct(
                            table.items(),
                            record.str_attr("file"@),
                            record.str_attr("label"@),
                            st.sels,
                            count,
                        );
                        match choice_record(record, block, name, st) {
                            Ok(next) => {
                                lemma_choice_records_distinct(
                                    records.drop_first(),
                                    block,
                                    name,
                                    next,
                                );
                            },
                            Err(_) => {},
                        }
                    },
                }
            },
        }
    }
}

/// No language occurs twice in the event of a block.
pub proof fn lemma_block_event_well_keyed(
    block: Tree,
    name: Seq<char>,
    labels: Option<Seq<Seq<char>>>,
)
    ensures
        block_event(block, name, labels) matches Ok(Some(m)) ==> well_keyed(m),
{
    let start = ChoiceState { sels: Seq::empty(), used: Seq::empty() };
    lemma_choice_records_distinct(block.find_array_attrs("select"@), block, name, start);
    match block.find_keyval("text"@) {
        Some(Tree::Array(children)) => {
            lemma_dialogue_languages_distinct(children, name, Seq::empty());
        },
        _ => {},
    }
}

/// No language occurs twice in any event of a narrative.
pub proof fn lemma_walk_well_keyed(
    blocks: Seq<(Seq<char>, Tree)>,
    labels: Seq<(Seq<char>, Seq<Seq<char>>)>,
    label: Seq<char>,
    acc: MessagesModel,
    fuel: nat,
)
    requires
        all_well_keyed(acc),
    ensures
        walk(blocks, labels, label, acc, fuel) matches Ok(r) ==> all_well_keyed(r),
    decreases fuel,
{
    match lookup(blocks, label) {
        None => {},
        Some(block) => if fuel > 0 {
            lemma_block_event_well_keyed(block, label, lookup(labels, label));
            match block_event(block, label, lookup(labels, label)) {
                Err(_) => {},
                Ok(event) => {
                    let savetitle = if acc.savetitle is None {
                        block_title(block)
                    } else {
                        acc.savetitle
                    };
                    let messages = match event {
                        Some(m) => acc.messages.push(m),
                        None => acc.messages,
                    };
                    let next = MessagesModel { savetitle, messages };
                    match block.str_attr("linknext"@) {
                        Some(target) => {
                            lemma_walk_well_keyed(blocks, labels, target, next, (fuel - 1) as nat);
                        },
                        None => {},
                    }
                },
            }
        },
    }
}

/// A position in a text table, counted from the first member.
struct Count(usize);

impl DeepView for Count {
    type V = nat;

    closed spec fn deep_view(&self) -> nat {
        self.0 as nat
    }
}

/// The title that the block sets, if it sets one.
fn read_title(block: &Value) -> (r: Option<String>)
    ensures
        r.deep_view() == block_title(block@),
{
    let records = block.find_array_attrs("savetitle");
    if records.len() > 0 {
        owned(records[0].str_attr("text"))
    } else {
        None
    }
}

/// Where the `excall` records lead.
fn read_excalls(records: &Vec<&Value>) -> (r: Vec<ExCall>)
    ensures
        r.deep_view() == excall_targets(records.deep_view()),
{
    let mut out: Vec<ExCall> = Vec::new();
    let n = records.len();
    let mut i: usize = 0;
    while i < n
        invariant
            i <= n,
            n == records@.len(),
            out@.len() == i,
            forall|j: int| 0 <= j < i ==> (#[trigger] out@[j])@ == excall_target(records@[j]@),
        decreases n - i,
    {
        let record = records[i];
        let file = owned(record.str_attr("file"));
        let label = owned(record.str_attr("label"));
        out.push(ExCall { file, label });
        i += 1;
    }
    out
}

/// The speaker of the line, if it names one.
fn read_speaker(line: &Value) -> (r: Option<String>)
    ensures
        r.deep_view() == speaker(line@),
{
    match line.find_keyval("name") {
        Some(name) => match name.last() {
            Some(last) => owned(last.as_str()),
            None => None,
        },
        None => None,
    }
}

/// The lines that `runs` holds, tokenized.
fn read_lines(runs: &Value, block: &str) -> (r: Result<Vec<Dialogue>, ExtractError>)
    ensures
        result_view(r) == dialogue_lines(runs@.items(), block@, Seq::empty()),
{
    let mut out: Vec<Dialogue> = Vec::new();
    assert(out.deep_view() =~= Seq::<DialogueModel>::empty());
    match runs {
        Value::Array(items) => {
            let ghost all = trees(items@);
            let n = items.len();
            let mut i: usize = 0;
            assert(all.skip(0) =~= all);
            while i < n
                invariant
                    i <= n,
                    n == items@.len(),
                    all == trees(items@),
                    runs@.items() == all,
                    dialogue_lines(all, block@, Seq::empty()) == dialogue_lines(
                        all.skip(i as int),
                        block@,
                        out.deep_view(),
                    ),
                decreases n - i,
            {
                proof {
                    lemma_trees(items@);
                    assert(all.skip(i as int).drop_first() =~= all.skip(i + 1));
                }
                let line = &items[i];
                let name = read_speaker(line);
                let ghost before = out.deep_view();
                match tokenize(line, block) {
                    Ok(text) => {
                        let d = Dialogue { text, name };
                        out.push(d);
                        assert(out.deep_view() =~= before.push(d@));
                    },
                    Err(e) => {
                        return Err(ExtractError::from_markup(e));
                    },
                }
                i += 1;
            }
        },
        _ => {},
    }
    Ok(out)
}

/// The lines of a block, language by language.
fn read_dialogues(children: &Vec<Value>, block: &str) -> (r: Result<
    StrMap<Vec<Dialogue>>,
    ExtractError,
>)
    ensures
        result_view(r) == dialogue_languages(trees(children@), block@, Seq::empty()),
{
    let mut out: StrMap<Vec<Dialogue>> = StrMap::new();
    let ghost all = trees(children@);
    let n = children.len();
    let mut i: usize = 0;
    assert(all.skip(0) =~= all);
    while i < n
        invariant
            i <= n,
            n == children@.len(),
            all == trees(children@),
            dialogue_languages(all, block@, Seq::empty()) == dialogue_languages(
                all.skip(i as int),
                block@,
                out@,
            ),
        decreases n - i,
    {
        proof {
            lemma_trees(children@);
            assert(all.skip(i as int).drop_first() =~= all.skip(i + 1));
        }
        match &children[i] {
            Value::KeyVal((k, v)) => {
                if !str_eq(k.as_str(), "vo") {
                    match read_lines(v, block) {
                        Ok(lines) => {
                            out.extend(k.clone(), lines);
                        },
                        Err(e) => {
                            return Err(e);
                        },
                    }
                }
            },
            _ => {},
        }
        i += 1;
    }
    Ok(out)
}

/// Adds the options of one `select` record to `sels`, and gives the position
/// after them; nothing where a text is missing.
fn read_choice_languages(
    children: &Vec<Value>,
    file: &Option<String>,
    label: &Option<String>,
    sels: &mut StrMap<Vec<Select>>,
    count: usize,
) -> (r: Option<usize>)
    ensures
        (match r {
            Some(next) => choice_languages(
                trees(children@),
                file.deep_view(),
                label.deep_view(),
                old(sels)@,
                count as nat,
            ) == Some((final(sels)@, next as nat)),
            None => choice_languages(
                trees(children@),
                file.deep_view(),
                label.deep_view(),
                old(sels)@,
                count as nat,
            ) is None,
        }),
{
    let ghost all = trees(children@);
    let mut at = count;
    let n = children.len();
    let mut i: usize = 0;
    assert(all.skip(0) =~= all);
    while i < n
        invariant
            i <= n,
            n == children@.len(),
            all == trees(children@),
            choice_languages(
                all,
                file.deep_view(),
                label.deep_view(),
                old(sels)@,
                count as nat,
            ) == choice_languages(
                all.skip(i as int),
                file.deep_view(),
                label.deep_view(),
                sels@,
                at as nat,
            ),
        decreases n - i,
    {
        proof {
            lemma_trees(children@);
            assert(all.skip(i as int).drop_first() =~= all.skip(i + 1));
        }
        match &children[i] {
            Value::KeyVal((k, v)) => {
                let text = match v.get_member(at) {
                    Some(member) => match member.as_str() {
                        Some(t) => t,
                        None => {
                            return None;
                        },
                    },
                    None => {
                        return None;
                    },
                };
                let option = Select { text: text.to_owned(), file: copy_of(file), label: copy_of(label) };
                let mut one: Vec<Select> = Vec::new();
                one.push(option);
                assert(one.deep_view() =~= seq![option@]);
                sels.extend(k.clone(), one);
                at += 1;
            },
            _ => {},
        }
        i += 1;
    }
    Some(at)
}

/// The options of a block, language by language.
fn read_choices(records: &Vec<&Value>, block: &Value, name: &str) -> (r: Result<
    StrMap<Vec<Select>>,
    ExtractError,
>)
    ensures
        result_view(r) == (match choice_records(
            records.deep_view(),
            block@,
            name@,
            ChoiceState { sels: Seq::empty(), used: Seq::empty() },
        ) {
            Ok(st) => Ok::<Seq<(Seq<char>, Seq<SelectModel>)>, ExtractErrorModel>(st.sels),
            Err(e) => Err(e),
        }),
{
    let mut sels: StrMap<Vec<Select>> = StrMap::new();
    let mut used: StrMap<Count> = StrMap::new();
    let ghost all = records.deep_view();
    let ghost start = ChoiceState { sels: Seq::empty(), used: Seq::empty() };
    let n = records.len();
    let mut i: usize = 0;
    assert(all.skip(0) =~= all);
    while i < n
        invariant
            i <= n,
            n == records@.len(),
            all == records.deep_view(),
            start == (ChoiceState { sels: Seq::empty(), used: Seq::empty() }),
            choice_records(all, block@, name@, start) == choice_records(
                all.skip(i as int),
                block@,
                name@,
                ChoiceState { sels: sels@, used: used@ },
            ),
        decreases n - i,
    {
        proof {
            assert(all.skip(i as int).drop_first() =~= all.skip(i + 1));
        }
        let record = records[i];
        match record.str_attr("text") {
            Some(text) => {
                let count = match used.get(text) {
                    Some(c) => c.0,
                    None => 0,
                };
                let file = owned(record.str_attr("file"));
                let label = owned(record.str_attr("label"));
                let table = match block.find_keyval(text) {
                    Some(t) => t,
                    None => {
                        return Err(
                            ExtractError::MissingChoiceText {
                                block: name.to_owned(),
                                text: text.to_owned(),
                            },
                        );
                    },
                };
                let next = match table {
                    Value::Array(children) => {
                        match read_choice_languages(children, &file, &label, &mut sels, count) {
                            Some(next) => next,
                            None => {
                                return Err(
                                    ExtractError::MissingChoiceText {
                                        block: name.to_owned(),
                                        text: text.to_owned(),
                                    },
                                );
                            },
                        }
                    },
                    _ => count,
                };
                used.insert(text.to_owned(), Count(next));
            },
            None => {},
        }
        i += 1;
    }
    Ok(sels)
}

/// The event of one block, if it has one.
pub fn read_event(block: &Value, name: &str, labels: Option<Vec<String>>) -> (r: Result<
    Option<Message>,
    ExtractError,
>)
    ensures
        result_view(r) == block_event(block@, name@, labels.deep_view()),
        r matches Ok(Some(m)) ==> well_keyed(m@),
{
    proof {
        lemma_block_event_well_keyed(block@, name@, labels.deep_view());
    }
    let excalls = block.find_array_attrs("excall");
    if excalls.len() > 0 {
        let targets = read_excalls(&excalls);
        return Ok(Some(Message::ExCall(ExCalls { labels, excalls: targets })));
    }
    let selects = block.find_array_attrs("select");
    if selects.len() > 0 {
        return match read_choices(&selects, block, name) {
            Ok(sels) => Ok(Some(Message::Select(Selects { labels, sels }))),
            Err(e) => Err(e),
        };
    }
    match block.find_keyval("text") {
        None => {
            if block.str_attr("linknext").is_none() {
                Err(ExtractError::MissingDialogueText { block: name.to_owned() })
            } else {
                Ok(None)
            }
        },
        Some(text) => match text {
            Value::Array(children) => match read_dialogues(children, name) {
                Ok(dialogues) => Ok(Some(Message::Dialogue(Dialogues { labels, dialogues }))),
                Err(e) => Err(e),
            },
            _ => Ok(None),
        },
    }
}

/// Walks the blocks from the block `entry` on and gives the narrative: the
/// title and the events in the order of the walk. A walk that comes back to a
/// block it has left would never end, and is a failure.
pub fn extract_messages(blocks: &StrMap<Value>, labels: &StrMap<Vec<String>>, entry: &str) -> (r:
    Result<Messages, ExtractError>)
    ensures
        result_view(r) == narrative(blocks@, labels@, entry@),
        r matches Ok(m) ==> all_well_keyed(m@),
{
    proof {
        lemma_walk_well_keyed(
            blocks@,
            labels@,
            entry@,
            MessagesModel { savetitle: None, messages: Seq::empty() },
            blocks@.len(),
        );
    }
    let mut result = Messages::default();
    let mut label: &str = entry;
    let mut fuel: usize = blocks.len();
    loop
        invariant
            narrative(blocks@, labels@, entry@) matches Ok(m) ==> all_well_keyed(m),
            narrative(blocks@, labels@, entry@) == walk(
                blocks@,
                labels@,
                label@,
                result@,
                fuel as nat,
            ),
        decreases fuel,
    {
        let block = match blocks.get(label) {
            Some(b) => b,
            None => {
                return Ok(result);
            },
        };
        if fuel == 0 {
            return Err(ExtractError::CyclicTraversal { block: label.to_owned() });
        }
        fuel = fuel - 1;
        if result.savetitle.is_none() {
            result.savetitle = read_title(block);
        }
        let anchored = match labels.get(label) {
            Some(names) => Some(copy_all(names)),
            None => None,
        };
        let ghost before = result.messages.deep_view();
        match read_event(block, label, anchored) {
            Ok(event) => {
                match event {
                    Some(m) => {
                        result.messages.push(m);
                        assert(result.messages.deep_view() =~= before.push(m@));
                    },
                    None => {},
                }
            },
            Err(e) => {
                return Err(e);
            },
        }
        match block.str_attr("linknext") {
            Some(next) => {
                label = next;
            },
            None => {
                return Ok(result);
            },
        }
    }
}

impl AstFile {
    /// The narrative of the file: its blocks indexed, its labels read, and
    /// the blocks walked from the entry block on.
    pub fn get_messages(&self) -> (r: Result<Messages, ExtractError>)
        ensures
            result_view(r) == messages_of(self.ast@),
            r matches Ok(m) ==> all_well_keyed(m@),
    {
        let blocks = self.get_blocks();
        let label_block = match blocks.get("label") {
            Some(b) => b,
            None => {
                return Err(ExtractError::MissingEntryPoint);
            },
        };
        let (entry, labels) = match build_labels(label_block) {
            Ok(found) => found,
            Err(e) => {
                return Err(e);
            },
        };
        extract_messages(&blocks, &labels, entry.as_str())
    }
}

} // verus!
