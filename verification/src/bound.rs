//! What the bound on a traversal means.
//!
//! A traversal follows `linknext` from block to block, and where it goes
//! from a block depends on that block alone. So a traversal that comes to a
//! block for the second time goes round for ever. The traversal engine
//! visits no more blocks than the index holds, and reports a traversal that
//! would as cyclic. The laws here say that this is right: a traversal that
//! is not reported as cyclic is the same under every larger bound, and one
//! that is reported as cyclic ends under no bound at all.

use vstd::prelude::*;
use vstd::set_lib::{lemma_int_range, lemma_len_subset, set_int_range};
use crate::error::{markup_failure, ExtractErrorModel};
use crate::extract::{
    block_event, block_title, choice_record, choice_records, dialogue_languages, dialogue_lines,
    narrative, speaker, walk, ChoiceState,
};
use crate::markup::tokenized;
use crate::messages::{DialogueModel, MessagesModel};
use crate::strmap::{extend_key, key_index, lemma_key_index, lookup};
use crate::types::Tree;

verus! {

/// Whether an outcome is the failure of a traversal that met its bound.
pub open spec fn is_cyclic(r: Result<MessagesModel, ExtractErrorModel>) -> bool {
    r matches Err(ExtractErrorModel::CyclicTraversal { .. })
}

/// Whether the traversal gets past the block named `label`: the block is
/// there, its event is read, and it names a block to go on with.
pub open spec fn passes(
    blocks: Seq<(Seq<char>, Tree)>,
    labels: Seq<(Seq<char>, Seq<Seq<char>>)>,
    label: Seq<char>,
) -> bool {
    match lookup(blocks, label) {
        Some(block) => block_event(block, label, lookup(labels, label)) is Ok && block.str_attr(
            "linknext"@,
        ) is Some,
        None => false,
    }
}

/// The block that the traversal goes on with after the block named `label`.
pub open spec fn successor(blocks: Seq<(Seq<char>, Tree)>, label: Seq<char>) -> Seq<char> {
    match lookup(blocks, label) {
        Some(block) => match block.str_attr("linknext"@) {
            Some(target) => target,
            None => label,
        },
        None => label,
    }
}

/// The block that the traversal comes to after `k` blocks, from `label` on.
pub open spec fn reached(blocks: Seq<(Seq<char>, Tree)>, label: Seq<char>, k: nat) -> Seq<char>
    decreases k,
{
    if k == 0 {
        label
    } else {
        reached(blocks, successor(blocks, label), (k - 1) as nat)
    }
}

/// The lines of a block fail only for their markup.
proof fn lemma_dialogue_lines_failure(lines: Seq<Tree>, block: Seq<char>, acc: Seq<DialogueModel>)
    ensures
        dialogue_lines(lines, block, acc) matches Err(e) ==> e is InvalidMarkup,
    decreases lines.len(),
{
    if lines.len() > 0 {
        match tokenized(lines[0], block) {
            Ok(text) => {
                lemma_dialogue_lines_failure(
                    lines.drop_first(),
                    block,
                    acc.push(DialogueModel { text, name: speaker(lines[0]) }),
                );
            },
            Err(e) => {
                assert(markup_failure(e) is InvalidMarkup);
            },
        }
    }
}

/// The lines of a block, language by language, fail only for their markup.
proof fn lemma_dialogue_languages_failure(
    children: Seq<Tree>,
    block: Seq<char>,
    acc: Seq<(Seq<char>, Seq<DialogueModel>)>,
)
    ensures
        dialogue_languages(children, block, acc) matches Err(e) ==> e is InvalidMarkup,
    decreases children.len(),
{
    if children.len() > 0 {
        match children[0] {
            Tree::KeyVal(k, v) => if k == "vo"@ {
                lemma_dialogue_languages_failure(children.drop_first(), block, acc);
            } else {
                lemma_dialogue_lines_failure(v.items(), block, Seq::empty());
                match dialogue_lines(v.items(), block, Seq::empty()) {
                    Ok(lines) => {
                        lemma_dialogue_languages_failure(
                            children.drop_first(),
                            block,
                            extend_key(acc, k, lines),
                        );
                    },
                    Err(_) => {},
                }
            },
            _ => {
                lemma_dialogue_languages_failure(children.drop_first(), block, acc);
            },
        }
    }
}

/// The options of a block fail only for a missing text.
proof fn lemma_choice_records_failure(
    records: Seq<Tree>,
    block: Tree,
    name: Seq<char>,
    st: ChoiceState,
)
    ensures
        choice_records(records, block, name, st) matches Err(e) ==> e is MissingChoiceText,
    decreases records.len(),
{
    if records.len() > 0 {
        match choice_record(records[0], block, name, st) {
            Ok(next) => {
                lemma_choice_records_failure(records.drop_first(), block, name, next);
            },
            Err(_) => {},
        }
    }
}

/// The event of a block never fails as a traversal that met its bound does.
proof fn lemma_block_event_failure(block: Tree, name: Seq<char>, labels: Option<Seq<Seq<char>>>)
    ensures
        block_event(block, name, labels) matches Err(e) ==> !(e is CyclicTraversal),
{
    let start = ChoiceState { sels: Seq::empty(), used: Seq::empty() };
    lemma_choice_records_failure(block.find_array_attrs("select"@), block, name, start);
    match block.find_keyval("text"@) {
        Some(Tree::Array(children)) => {
            lemma_dialogue_languages_failure(children, name, Seq::empty());
        },
        _ => {},
    }
}

/// A traversal that does not meet its bound is the same under a larger one.
pub proof fn lemma_walk_fuel(
    blocks: Seq<(Seq<char>, Tree)>,
    labels: Seq<(Seq<char>, Seq<Seq<char>>)>,
    label: Seq<char>,
    acc: MessagesModel,
    fuel: nat,
    more: nat,
)
    requires
        !is_cyclic(walk(blocks, labels, label, acc, fuel)),
        more >= fuel,
    ensures
        walk(blocks, labels, label, acc, more) == walk(blocks, labels, label, acc, fuel),
    decreases fuel,
{
    match lookup(blocks, label) {
        None => {},
        Some(block) => {
            if fuel > 0 {
                match block_event(block, label, lookup(labels, label)) {
                    Err(_) => {},
                    Ok(event) => {
                        let savetitle = if acc.savetitle is None {
                            block_title(block)
                        } else {
                            acc.savetitle
                        };
                        let messages = match event {
                            Some(m) => acc.messages.push(m),
                            None => acc.messages,
                        };
                        let next = MessagesModel { savetitle, messages };
                        match block.str_attr("linknext"@) {
                            Some(target) => {
                                lemma_walk_fuel(
                                    blocks,
                                    labels,
                                    target,
                                    next,
                                    (fuel - 1) as nat,
                                    (more - 1) as nat,
                                );
                            },
                            None => {},
                        }
                    },
                }
            }
        },
    }
}

/// A traversal that meets the bound `fuel` got past `fuel` blocks, and came
/// to one more.
proof fn lemma_cyclic_passes(
    blocks: Seq<(Seq<char>, Tree)>,
    labels: Seq<(Seq<char>, Seq<Seq<char>>)>,
    label: Seq<char>,
    acc: MessagesModel,
    fuel: nat,
)
    requires
        is_cyclic(walk(blocks, labels, label, acc, fuel)),
    ensures
        forall|k: nat| k < fuel ==> passes(blocks, labels, #[trigger] reached(blocks, label, k)),
        lookup(blocks, reached(blocks, label, fuel)) is Some,
    decreases fuel,
{
    match lookup(blocks, label) {
        None => {},
        Some(block) => {
            if fuel > 0 {
                lemma_block_event_failure(block, label, lookup(labels, label));
                match block_event(block, label, lookup(labels, label)) {
                    Err(_) => {},
                    Ok(event) => {
                        let savetitle = if acc.savetitle is None {
                            block_title(block)
                        } else {
                            acc.savetitle
                        };
                        let messages = match event {
                            Some(m) => acc.messages.push(m),
                            None => acc.messages,
                        };
                        let next = MessagesModel { savetitle, messages };
                        match block.str_attr("linknext"@) {
                            Some(target) => {
                                lemma_cyclic_passes(
                                    blocks,
                                    labels,
                                    target,
                                    next,
                                    (fuel - 1) as nat,
                                );
                                assert(successor(blocks, label) == target);
                                assert forall|k: nat| k < fuel implies passes(
                                    blocks,
                                    labels,
                                    #[trigger] reached(blocks, label, k),
                                ) by {
                                    if k > 0 {
                                        assert(reached(blocks, label, k) == reached(
                                            blocks,
                                            target,
                                            (k - 1) as nat,
                                        ));
                                    }
                                }
                            },
                            None => {},
                        }
                    },
                }
            }
        },
    }
}

/// Going on for `i` blocks and then for `m` more is going on for `i + m`.
proof fn lemma_reached_add(blocks: Seq<(Seq<char>, Tree)>, label: Seq<char>, i: nat, m: nat)
    ensures
        reached(blocks, label, i + m) == reached(blocks, reached(blocks, label, i), m),
    decreases i,
{
    if i > 0 {
        lemma_reached_add(blocks, successor(blocks, label), (i - 1) as nat, m);
    }
}

/// Among more blocks than the index holds, one occurs twice.
proof fn lemma_comes_back(blocks: Seq<(Seq<char>, Tree)>, label: Seq<char>) -> (r: (nat, nat))
    requires
        forall|k: nat|
            k <= blocks.len() ==> lookup(blocks, #[trigger] reached(blocks, label, k)) is Some,
    ensures
        r.0 < r.1 <= blocks.len(),
        reached(blocks, label, r.0) == reached(blocks, label, r.1),
{
    let n = blocks.len();
    let places = Seq::new(
        n + 1,
        |k: int| key_index(blocks, reached(blocks, label, k as nat))->0,
    );
    assert forall|k: int| 0 <= k <= n implies 0 <= #[trigger] places[k] < n && blocks[places[k]].0
        == reached(blocks, label, k as nat) by {
        lemma_key_index(blocks, reached(blocks, label, k as nat));
        assert(lookup(blocks, reached(blocks, label, k as nat)) is Some);
    }
    if places.no_duplicates() {
        places.unique_seq_to_set();
        lemma_int_range(0, n as int);
        assert(places.to_set().subset_of(set_int_range(0, n as int))) by {
            assert forall|x: int| places.to_set().contains(x) implies set_int_range(
                0,
                n as int,
            ).contains(x) by {
                let k = choose|k: int| 0 <= k < places.len() && places[k] == x;
                assert(0 <= places[k] < n);
            }
        }
        lemma_len_subset(places.to_set(), set_int_range(0, n as int));
        assert(false);
    }
    let (i, j) = choose|i: int, j: int|
        0 <= i < places.len() && 0 <= j < places.len() && i != j && places[i] == places[j];
    assert(blocks[places[i]].0 == reached(blocks, label, i as nat));
    assert(blocks[places[j]].0 == reached(blocks, label, j as nat));
    if i < j {
        (i as nat, j as nat)
    } else {
        (j as nat, i as nat)
    }
}

/// A traversal that comes back to a block gets past every block it comes to.
proof fn lemma_round(
    blocks: Seq<(Seq<char>, Tree)>,
    labels: Seq<(Seq<char>, Seq<Seq<char>>)>,
    label: Seq<char>,
    i: nat,
    j: nat,
    k: nat,
)
    requires
        i < j,
        reached(blocks, label, i) == reached(blocks, label, j),
        forall|m: nat| m < j ==> passes(blocks, labels, #[trigger] reached(blocks, label, m)),
    ensures
        passes(blocks, labels, reached(blocks, label, k)),
    decreases k,
{
    if k >= j {
        let back = (k - j) as nat;
        lemma_reached_add(blocks, label, j, back);
        lemma_reached_add(blocks, label, i, back);
        lemma_round(blocks, labels, label, i, j, i + back);
    }
}

/// A traversal that gets past every block it comes to meets every bound.
proof fn lemma_never_ends(
    blocks: Seq<(Seq<char>, Tree)>,
    labels: Seq<(Seq<char>, Seq<Seq<char>>)>,
    label: Seq<char>,
    acc: MessagesModel,
    fuel: nat,
)
    requires
        forall|k: nat| passes(blocks, labels, #[trigger] reached(blocks, label, k)),
    ensures
        is_cyclic(walk(blocks, labels, label, acc, fuel)),
    decreases fuel,
{
    assert(passes(blocks, labels, reached(blocks, label, 0)));
    if fuel > 0 {
        let block = lookup(blocks, label)->0;
        let event = block_event(block, label, lookup(labels, label))->Ok_0;
        let savetitle = if acc.savetitle is None {
            block_title(block)
        } else {
            acc.savetitle
        };
        let messages = match event {
            Some(m) => acc.messages.push(m),
            None => acc.messages,
        };
        let next = MessagesModel { savetitle, messages };
        let target = successor(blocks, label);
        assert forall|k: nat| passes(blocks, labels, #[trigger] reached(blocks, target, k)) by {
            assert(reached(blocks, label, k + 1) == reached(blocks, target, k));
            assert(passes(blocks, labels, reached(blocks, label, k + 1)));
        }
        lemma_never_ends(blocks, labels, target, next, (fuel - 1) as nat);
    }
}

/// A narrative that is not reported as cyclic is the narrative under every
/// larger bound on the number of blocks visited: the bound took nothing from
/// it.
pub proof fn lemma_narrative_unbounded(
    blocks: Seq<(Seq<char>, Tree)>,
    labels: Seq<(Seq<char>, Seq<Seq<char>>)>,
    entry: Seq<char>,
    fuel: nat,
)
    requires
        !is_cyclic(narrative(blocks, labels, entry)),
        fuel >= blocks.len(),
    ensures
        walk(
            blocks,
            labels,
            entry,
            MessagesModel { savetitle: None, messages: Seq::empty() },
            fuel,
        ) == narrative(blocks, labels, entry),
{
    let start = MessagesModel { savetitle: None, messages: Seq::empty() };
    lemma_walk_fuel(blocks, labels, entry, start, blocks.len(), fuel);
}

/// A narrative that is reported as cyclic ends under no bound on the number
/// of blocks visited: its traversal comes back to a block, and from there it
/// goes round for ever.
pub proof fn lemma_cyclic_never_ends(
    blocks: Seq<(Seq<char>, Tree)>,
    labels: Seq<(Seq<char>, Seq<Seq<char>>)>,
    entry: Seq<char>,
    fuel: nat,
)
    requires
        is_cyclic(narrative(blocks, labels, entry)),
    ensures
        is_cyclic(
            walk(
                blocks,
                labels,
                entry,
                MessagesModel { savetitle: None, messages: Seq::empty() },
                fuel,
            ),
        ),
        exists|i: nat, j: nat|
            i < j <= blocks.len() && #[trigger] reached(blocks, entry, i) == #[trigger] reached(
                blocks,
                entry,
                j,
            ),
{
    let start = MessagesModel { savetitle: None, messages: Seq::empty() };
    lemma_cyclic_passes(blocks, labels, entry, start, blocks.len());
    assert forall|k: nat| k <= blocks.len() implies lookup(
        blocks,
        #[trigger] reached(blocks, entry, k),
    ) is Some by {
        if k < blocks.len() {
            assert(passes(blocks, labels, reached(blocks, entry, k)));
        }
    }
    let (i, j) = lemma_comes_back(blocks, entry);
    assert forall|k: nat| passes(blocks, labels, #[trigger] reached(blocks, entry, k)) by {
        lemma_round(blocks, labels, entry, i, j, k);
    }
    lemma_never_ends(blocks, labels, entry, start, fuel);
}

} // verus!
