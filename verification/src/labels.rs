//! The label index: from the name of a block to the labels anchored on it,
//! and the block that the narrative starts at.

use vstd::prelude::*;
use crate::error::{result_view, ExtractError, ExtractErrorModel};
use crate::strmap::{distinct_keys, extend_key, lemma_extend_key, StrMap};
use crate::types::{lemma_trees, trees, Tree, Value};

verus! {

/// The block that the narrative starts at: what the label `top` names.
pub open spec fn entry_block(label_block: Tree) -> Option<Seq<char>> {
    match label_block.find_keyval("top"@) {
        Some(top) => top.str_attr("block"@),
        None => None,
    }
}

/// The index after the labels `children`, taken from left to right: each
/// label is added to those of the block it names; a label that names none is
/// a failure; a child that is no label is passed over.
pub open spec fn label_index_from(
    children: Seq<Tree>,
    acc: Seq<(Seq<char>, Seq<Seq<char>>)>,
) -> Result<Seq<(Seq<char>, Seq<Seq<char>>)>, ExtractErrorModel>
    decreases children.len(),
{
    if children.len() == 0 {
        Ok(acc)
    } else {
        match children[0] {
            Tree::KeyVal(k, v) => match v.str_attr("block"@) {
                Some(b) => label_index_from(children.drop_first(), extend_key(acc, b, seq![k])),
                None => Err(ExtractErrorModel::MalformedLabel { label: k }),
            },
            _ => label_index_from(children.drop_first(), acc),
        }
    }
}

/// The entry block and the label index that the label block stands for.
pub open spec fn label_index(label_block: Tree) -> Result<
    (Seq<char>, Seq<(Seq<char>, Seq<Seq<char>>)>),
    ExtractErrorModel,
> {
    match entry_block(label_block) {
        None => Err(ExtractErrorModel::MissingEntryPoint),
        Some(entry) => match label_index_from(label_block.items(), Seq::empty()) {
            Ok(index) => Ok((entry, index)),
            Err(e) => Err(e),
        },
    }
}

/// No block occurs twice in the label index.
pub proof fn lemma_label_index_distinct(
    children: Seq<Tree>,
    acc: Seq<(Seq<char>, Seq<Seq<char>>)>,
)
    requires
        distinct_keys(acc),
    ensures
        label_index_from(children, acc) matches Ok(index) ==> distinct_keys(index),
    decreases children.len(),
{
    if children.len() > 0 {
        match children[0] {
            Tree::KeyVal(k, v) => match v.str_attr("block"@) {
                Some(b) => {
                    lemma_extend_key(acc, b, seq![k], b);
                    lemma_label_index_distinct(
                        children.drop_first(),
                        extend_key(acc, b, seq![k]),
                    );
                },
                None => {},
            },
            _ => {
                lemma_label_index_distinct(children.drop_first(), acc);
            },
        }
    }
}

/// Reads the label block: the name of the entry block, and for each block the
/// labels anchored on it in the order of their first appearance.
pub fn build_labels(label_block: &Value) -> (r: Result<
    (String, StrMap<Vec<String>>),
    ExtractError,
>)
    ensures
        result_view(r) == label_index(label_block@),
        r matches Ok(found) ==> distinct_keys(found.1@),
{
    proof {
        lemma_label_index_distinct(label_block@.items(), Seq::empty());
    }
    let entry = match label_block.find_keyval("top") {
        Some(top) => match top.str_attr("block") {
            Some(b) => b,
            None => {
                return Err(ExtractError::MissingEntryPoint);
            },
        },
        None => {
            return Err(ExtractError::MissingEntryPoint);
        },
    };
    let mut index: StrMap<Vec<String>> = StrMap::new();
    match label_block {
        Value::Array(items) => {
            let ghost all = trees(items@);
            let n = items.len();
            let mut i: usize = 0;
            assert(all.skip(0) =~= all);
            while i < n
                invariant
                    i <= n,
                    n == items@.len(),
                    all == trees(items@),
                    label_block@.items() == all,
                    entry_block(label_block@) == Some(entry@),
                    label_index_from(all, Seq::empty()) == label_index_from(
                        all.skip(i as int),
                        index@,
                    ),
                decreases n - i,
            {
                proof {
                    lemma_trees(items@);
                    assert(all.skip(i as int).drop_first() =~= all.skip(i + 1));
                }
                match &items[i] {
                    Value::KeyVal((k, v)) => {
                        match v.str_attr("block") {
                            Some(b) => {
                                let mut one: Vec<String> = Vec::new();
                                one.push(k.clone());
                                assert(one.deep_view() =~= seq![k@]);
                                index.extend(b.to_owned(), one);
                            },
                            None => {
                                return Err(ExtractError::MalformedLabel { label: k.clone() });
                            },
                        }
                    },
                    _ => {},
                }
                i += 1;
            }
        },
        _ => {},
    }
    Ok((entry.to_owned(), index))
}

} // verus!
