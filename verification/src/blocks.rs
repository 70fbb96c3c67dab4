//! The block index: from the name of a block to its body.
//!
//! A file may define a block more than once, a later definition patching an
//! earlier one. Of two definitions of one name the one with the larger `line`
//! attribute holds; one with a `line` holds against one without; otherwise
//! the earlier one holds.

use vstd::prelude::*;
use crate::strmap::{distinct_keys, lemma_key_index_none, lemma_put, lookup, put, StrMap};
use crate::types::{lemma_trees, trees, AstFile, Tree, Value};

verus! {

/// The source line that a block body was defined at, if it says so.
pub open spec fn line_of(body: Tree) -> Option<i64> {
    body.int_attr("line"@)
}

/// Whether the definition `new` holds against the earlier definition `old`.
pub open spec fn supersedes(new: Tree, old: Tree) -> bool {
    match (line_of(old), line_of(new)) {
        (Some(a), Some(b)) => b > a,
        (None, Some(_)) => true,
        _ => false,
    }
}

/// The index after the top-level entry `el`: a named entry is taken unless
/// the index holds a definition of that name that it does not supersede;
/// anything else is passed over.
pub open spec fn index_step(acc: Seq<(Seq<char>, Tree)>, el: Tree) -> Seq<(Seq<char>, Tree)> {
    match el {
        Tree::KeyVal(k, v) => match lookup(acc, k) {
            Some(old) => if supersedes(*v, old) {
                put(acc, k, *v)
            } else {
                acc
            },
            None => put(acc, k, *v),
        },
        _ => acc,
    }
}

/// The index after the entries `children`, taken from left to right.
pub open spec fn block_index_from(children: Seq<Tree>, acc: Seq<(Seq<char>, Tree)>) -> Seq<
    (Seq<char>, Tree),
>
    decreases children.len(),
{
    if children.len() == 0 {
        acc
    } else {
        block_index_from(children.drop_first(), index_step(acc, children[0]))
    }
}

/// The block index of the tree `root`.
pub open spec fn block_index(root: Tree) -> Seq<(Seq<char>, Tree)> {
    block_index_from(root.items(), Seq::empty())
}

/// The body of a top-level entry.
pub open spec fn body_of(entry: Tree) -> Tree {
    match entry {
        Tree::KeyVal(_, v) => *v,
        _ => entry,
    }
}

/// Whether the definition of `name` at `w` is the one that holds among the
/// entries `s`: it supersedes every earlier definition of `name`, and no later
/// one supersedes it.
pub open spec fn holds_at(s: Seq<Tree>, name: Seq<char>, w: int) -> bool {
    &&& 0 <= w < s.len()
    &&& s[w].has_key(name)
    &&& forall|j: int|
        0 <= j < w && (#[trigger] s[j]).has_key(name) ==> supersedes(body_of(s[w]), body_of(s[j]))
    &&& forall|j: int|
        w < j < s.len() && (#[trigger] s[j]).has_key(name) ==> !supersedes(
            body_of(s[j]),
            body_of(s[w]),
        )
}

/// What the index says of `name`, against the entries `s` that it was built
/// from: the body of the definition that holds, or nothing where `name` is
/// not defined.
pub open spec fn index_agrees(s: Seq<Tree>, index: Seq<(Seq<char>, Tree)>, name: Seq<char>) -> bool {
    match lookup(index, name) {
        Some(body) => exists|w: int| #[trigger] holds_at(s, name, w) && body == body_of(s[w]),
        None => forall|j: int| 0 <= j < s.len() ==> !(#[trigger] s[j]).has_key(name),
    }
}

/// How much a definition counts: one with a line more than one without, and
/// the more the larger its line.
spec fn rank(body: Tree) -> int {
    match line_of(body) {
        Some(l) => l - i64::MIN + 1,
        None => 0,
    }
}

/// A definition supersedes another exactly when it counts more.
proof fn lemma_supersedes_rank(new: Tree, old: Tree)
    ensures
        supersedes(new, old) <==> rank(new) > rank(old),
{
}

/// One more entry keeps the index in agreement with the entries.
proof fn lemma_index_step_agrees(
    p: Seq<Tree>,
    acc: Seq<(Seq<char>, Tree)>,
    el: Tree,
    name: Seq<char>,
)
    requires
        index_agrees(p, acc, name),
    ensures
        index_agrees(p.push(el), index_step(acc, el), name),
{
    let q = p.push(el);
    assert forall|j: int| 0 <= j < p.len() implies q[j] == p[j] by {}
    match el {
        Tree::KeyVal(k, v) => {
            lemma_put(acc, k, *v, name);
            if k == name {
                match lookup(acc, name) {
                    Some(old) => {
                        let w = choose|w: int| #[trigger]
                            holds_at(p, name, w) && old == body_of(p[w]);
                        if supersedes(*v, old) {
                            // The new definition holds: it counts more than
                            // the one that held, which counted no less than
                            // any other.
                            assert forall|j: int|
                                0 <= j < p.len() && (#[trigger] q[j]).has_key(
                                    name,
                                ) implies supersedes(*v, body_of(q[j])) by {
                                lemma_supersedes_rank(*v, old);
                                lemma_supersedes_rank(*v, body_of(p[j]));
                                lemma_supersedes_rank(old, body_of(p[j]));
                                lemma_supersedes_rank(body_of(p[j]), old);
                            }
                            assert(holds_at(q, name, p.len() as int));
                        } else {
                            assert(holds_at(q, name, w));
                        }
                    },
                    None => {
                        assert(holds_at(q, name, p.len() as int));
                    },
                }
            } else {
                lemma_agrees_pushed(p, acc, el, name);
            }
        },
        _ => {
            lemma_agrees_pushed(p, acc, el, name);
        },
    }
}

/// An entry that does not define `name` changes nothing of what holds for
/// `name`.
proof fn lemma_agrees_pushed(p: Seq<Tree>, acc: Seq<(Seq<char>, Tree)>, el: Tree, name: Seq<char>)
    requires
        index_agrees(p, acc, name),
        !el.has_key(name),
    ensures
        (match lookup(acc, name) {
            Some(body) => exists|w: int| #[trigger]
                holds_at(p.push(el), name, w) && body == body_of(p.push(el)[w]),
            None => forall|j: int|
                0 <= j < p.push(el).len() ==> !(#[trigger] p.push(el)[j]).has_key(name),
        }),
{
    let q = p.push(el);
    assert forall|j: int| 0 <= j < p.len() implies q[j] == p[j] by {}
    match lookup(acc, name) {
        Some(body) => {
            let w = choose|w: int| #[trigger] holds_at(p, name, w) && body == body_of(p[w]);
            assert(holds_at(q, name, w));
        },
        None => {},
    }
}

/// More entries keep the index in agreement with the entries.
proof fn lemma_index_from_agrees(
    p: Seq<Tree>,
    s: Seq<Tree>,
    acc: Seq<(Seq<char>, Tree)>,
    name: Seq<char>,
)
    requires
        index_agrees(p, acc, name),
    ensures
        index_agrees(p + s, block_index_from(s, acc), name),
    decreases s.len(),
{
    if s.len() == 0 {
        assert(p + s =~= p);
    } else {
        lemma_index_step_agrees(p, acc, s[0], name);
        lemma_index_from_agrees(p.push(s[0]), s.drop_first(), index_step(acc, s[0]), name);
        assert(p.push(s[0]) + s.drop_first() =~= p + s);
    }
}

/// For each name the block index holds the definition that holds among the
/// top-level entries: the one that supersedes every earlier definition of
/// the name and that no later one supersedes. It has no entry for a name
/// that is not defined.
pub proof fn lemma_block_index_holds(children: Seq<Tree>, name: Seq<char>)
    ensures
        index_agrees(children, block_index(Tree::Array(children)), name),
{
    let none = Seq::<Tree>::empty();
    lemma_key_index_none(Seq::<(Seq<char>, Tree)>::empty(), name);
    lemma_index_from_agrees(none, children, Seq::empty(), name);
}

/// Whether the definition `new` holds against the earlier definition `old`
/// of the same name.
pub fn holds_against(new: &Value, old: &Value) -> (r: bool)
    ensures
        r == supersedes(new@, old@),
{
    match (old.int_attr("line"), new.int_attr("line")) {
        (Some(a), Some(b)) => b > a,
        (None, Some(_)) => true,
        _ => false,
    }
}

/// The block index of the tree `root`. No name occurs twice in it. A tree
/// that is not an array has no blocks.
pub fn build_blocks(root: &Value) -> (r: StrMap<Value>)
    ensures
        r@ == block_index(root@),
        distinct_keys(r@),
{
    let mut blocks: StrMap<Value> = StrMap::new();
    match root {
        Value::Array(items) => {
            let ghost all = trees(items@);
            let n = items.len();
            let mut i: usize = 0;
            assert(all.skip(0) =~= all);
            while i < n
                invariant
                    i <= n,
                    n == items@.len(),
                    all == trees(items@),
                    distinct_keys(blocks@),
                    block_index_from(all, Seq::empty()) == block_index_from(
                        all.skip(i as int),
                        blocks@,
                    ),
                decreases n - i,
            {
                proof {
                    lemma_trees(items@);
                    assert(all.skip(i as int).drop_first() =~= all.skip(i + 1));
                }
                let ghost before = blocks@;
                match &items[i] {
                    Value::KeyVal((k, v)) => {
                        proof {
                            lemma_put(before, k@, v@, k@);
                        }
                        let take = match blocks.get(k.as_str()) {
                            Some(old) => holds_against(v, old),
                            None => true,
                        };
                        if take {
                            blocks.insert(k.clone(), (**v).clone());
                        }
                    },
                    _ => {},
                }
                i += 1;
            }
        },
        _ => {},
    }
    blocks
}

impl AstFile {
    /// The block index of the file. No name occurs twice in it.
    pub fn get_blocks(&self) -> (r: StrMap<Value>)
        ensures
            r@ == block_index(self.ast@),
            distinct_keys(r@),
    {
        build_blocks(&self.ast)
    }
}

} // verus!
