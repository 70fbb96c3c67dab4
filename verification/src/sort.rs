//! The canonical order of the top-level entries of a file.
//!
//! Blocks that say which source line they were defined at come first, by
//! ascending line, blocks of one line in the order they had. Blocks that do not
//! say come next, in the reverse of the order they had. What is no block comes
//! last, in the order it had.

use vstd::prelude::*;
use vstd::seq_lib::{lemma_multiset_commutative, to_multiset_build};
use crate::blocks::line_of;
use crate::types::{lemma_trees, trees, AstFile, Tree, Value};

verus! {

/// Whether `t` is a block that says which line it was defined at.
pub open spec fn is_lined(t: Tree) -> bool {
    t matches Tree::KeyVal(_, v) && line_of(*v) is Some
}

/// Whether `t` is a block that does not say which line it was defined at.
pub open spec fn is_unlined(t: Tree) -> bool {
    t matches Tree::KeyVal(_, v) && line_of(*v) is None
}

/// Whether `t` is no block at all.
pub open spec fn is_loose(t: Tree) -> bool {
    !(t is KeyVal)
}

/// The line that a block was defined at; 0 for anything that does not say.
pub open spec fn entry_line(t: Tree) -> int {
    match t {
        Tree::KeyVal(_, v) => match line_of(*v) {
            Some(l) => l as int,
            None => 0,
        },
        _ => 0,
    }
}

/// The blocks of `s` that say their line, in stored order.
pub open spec fn lined_of(s: Seq<Tree>) -> Seq<Tree> {
    s.filter(|t: Tree| is_lined(t))
}

/// The blocks of `s` that do not say their line, in stored order.
pub open spec fn unlined_of(s: Seq<Tree>) -> Seq<Tree> {
    s.filter(|t: Tree| is_unlined(t))
}

/// What is no block in `s`, in stored order.
pub open spec fn loose_of(s: Seq<Tree>) -> Seq<Tree> {
    s.filter(|t: Tree| is_loose(t))
}

/// The entries of `s` whose line is `l`, in stored order.
pub open spec fn with_line(s: Seq<Tree>, l: int) -> Seq<Tree> {
    s.filter(|t: Tree| entry_line(t) == l)
}

/// Whether the lines of `s` never go down.
pub open spec fn ascending(s: Seq<Tree>) -> bool {
    forall|i: int, j: int| 0 <= i < j < s.len() ==> entry_line(s[i]) <= entry_line(s[j])
}

/// Whether `r` is `s` sorted by line, entries of one line kept in the order
/// they have in `s`: `r` is ascending, and for each line it holds the same
/// entries in the same order as `s`.
pub open spec fn stable_sort_of(r: Seq<Tree>, s: Seq<Tree>) -> bool {
    &&& r.len() == s.len()
    &&& ascending(r)
    &&& forall|l: int| #[trigger] with_line(r, l) == with_line(s, l)
}

/// Whether `r` is the canonical order of `s`.
pub open spec fn canonical_order(r: Seq<Tree>, s: Seq<Tree>) -> bool {
    let k = lined_of(s).len() as int;
    &&& r.len() == s.len()
    &&& stable_sort_of(r.take(k), lined_of(s))
    &&& r.skip(k) == unlined_of(s).reverse() + loose_of(s)
}

/// What a filter keeps of a single entry.
proof fn lemma_filter_one(x: Tree, pred: spec_fn(Tree) -> bool)
    ensures
        seq![x].filter(pred) == (if pred(x) {
            seq![x]
        } else {
            Seq::<Tree>::empty()
        }),
{
    reveal_with_fuel(Seq::filter, 2);
}

/// A filter keeps nothing of entries that all fail it.
proof fn lemma_filter_none(s: Seq<Tree>, pred: spec_fn(Tree) -> bool)
    requires
        forall|i: int| 0 <= i < s.len() ==> !pred(#[trigger] s[i]),
    ensures
        s.filter(pred) == Seq::<Tree>::empty(),
    decreases s.len(),
{
    reveal(Seq::filter);
    if s.len() > 0 {
        lemma_filter_none(s.drop_last(), pred);
    }
}

/// What a filter keeps of `s` with `x` put in front.
proof fn lemma_filter_front(x: Tree, s: Seq<Tree>, pred: spec_fn(Tree) -> bool)
    ensures
        (seq![x] + s).filter(pred) == (if pred(x) {
            seq![x] + s.filter(pred)
        } else {
            s.filter(pred)
        }),
{
    Seq::filter_distributes_over_add(seq![x], s, pred);
    lemma_filter_one(x, pred);
}

/// What a filter keeps of `s` with `x` put in at `p`.
proof fn lemma_filter_insert(s: Seq<Tree>, p: int, x: Tree, pred: spec_fn(Tree) -> bool)
    requires
        0 <= p <= s.len(),
    ensures
        s.filter(pred) == s.take(p).filter(pred) + s.skip(p).filter(pred),
        s.insert(p, x).filter(pred) == s.take(p).filter(pred) + (seq![x] + s.skip(p)).filter(pred),
{
    assert(s =~= s.take(p) + s.skip(p));
    Seq::filter_distributes_over_add(s.take(p), s.skip(p), pred);
    assert(s.insert(p, x) =~= s.take(p) + (seq![x] + s.skip(p)));
    Seq::filter_distributes_over_add(s.take(p), seq![x] + s.skip(p), pred);
}

/// The bodies of the entries of `s`.
spec fn bodies(s: Seq<(i64, Value)>) -> Seq<Tree> {
    Seq::new(s.len(), |i: int| s[i].1@)
}

/// Puts `x`, whose line is `l`, into `lined` before the first entry whose
/// line is not smaller. `x` stood before every entry of `lined`.
fn insert_lined(lined: &mut Vec<(i64, Value)>, l: i64, x: Value, Ghost(rest): Ghost<Seq<Tree>>)
    requires
        is_lined(x@),
        entry_line(x@) == l,
        forall|i: int| 0 <= i < old(lined)@.len() ==> (#[trigger] old(lined)@[i]).0 == entry_line(
            old(lined)@[i].1@,
        ),
        stable_sort_of(bodies(old(lined)@), rest),
    ensures
        forall|i: int| 0 <= i < final(lined)@.len() ==> (#[trigger] final(lined)@[i]).0
            == entry_line(final(lined)@[i].1@),
        stable_sort_of(bodies(final(lined)@), seq![x@] + rest),
{
    let ghost before = bodies(lined@);
    let n = lined.len();
    let mut p: usize = 0;
    while p < n && lined[p].0 < l
        invariant
            p <= n,
            n == lined@.len(),
            forall|i: int| 0 <= i < p ==> (#[trigger] lined@[i]).0 < l,
        decreases n - p,
    {
        p += 1;
    }
    lined.insert(p, (l, x));
    proof {
        let after = bodies(lined@);
        assert(after =~= before.insert(p as int, x@));
        assert(ascending(after)) by {
            assert forall|i: int, j: int| 0 <= i < j < after.len() implies entry_line(after[i])
                <= entry_line(after[j]) by {
                if i == p {
                    // What follows `x` does not come before it.
                    assert(old(lined)@[p as int].0 == entry_line(before[p as int]));
                }
            }
        }
        assert forall|m: int| #[trigger] with_line(after, m) == with_line(seq![x@] + rest, m) by {
            let pred = |t: Tree| entry_line(t) == m;
            lemma_filter_insert(before, p as int, x@, pred);
            lemma_filter_front(x@, before.skip(p as int), pred);
            lemma_filter_front(x@, rest, pred);
            assert(with_line(before, m) == with_line(rest, m));
            if m == l {
                // What comes before `x` has a smaller line.
                lemma_filter_none(before.take(p as int), pred);
            }
        }
    }
}

/// Whether the three piles hold the entries `done`, which are the end of the
/// file: the blocks with a line sorted, the others in reverse.
spec fn piled(lined: Seq<(i64, Value)>, unlined: Seq<Value>, loose: Seq<Value>, done: Seq<Tree>) -> bool {
    &&& forall|i: int| 0 <= i < lined.len() ==> (#[trigger] lined[i]).0 == entry_line(lined[i].1@)
    &&& stable_sort_of(bodies(lined), lined_of(done))
    &&& trees(unlined) == unlined_of(done).reverse()
    &&& trees(loose) == loose_of(done).reverse()
}

/// Puts `x`, which stood right before the entries `done`, on its pile.
fn place(
    x: Value,
    lined: &mut Vec<(i64, Value)>,
    unlined: &mut Vec<Value>,
    loose: &mut Vec<Value>,
    Ghost(done): Ghost<Seq<Tree>>,
)
    requires
        piled(old(lined)@, old(unlined)@, old(loose)@, done),
    ensures
        piled(final(lined)@, final(unlined)@, final(loose)@, seq![x@] + done),
{
    proof {
        lemma_filter_front(x@, done, |t: Tree| is_lined(t));
        lemma_filter_front(x@, done, |t: Tree| is_unlined(t));
        lemma_filter_front(x@, done, |t: Tree| is_loose(t));
    }
    let line = match &x {
        Value::KeyVal((_, v)) => Some(v.int_attr("line")),
        _ => None,
    };
    match line {
        Some(Some(l)) => {
            insert_lined(lined, l, x, Ghost(lined_of(done)));
        },
        Some(None) => {
            let ghost had = trees(unlined@);
            unlined.push(x);
            proof {
                lemma_trees(unlined@);
                assert(trees(unlined@) =~= had.push(x@));
                assert((seq![x@] + unlined_of(done)).reverse() =~= unlined_of(done).reverse().push(
                    x@,
                ));
            }
        },
        None => {
            let ghost had = trees(loose@);
            loose.push(x);
            proof {
                lemma_trees(loose@);
                assert(trees(loose@) =~= had.push(x@));
                assert((seq![x@] + loose_of(done)).reverse() =~= loose_of(done).reverse().push(x@));
            }
        },
    }
}

/// Puts the entries of `arr` in canonical order.
pub fn sort_entries(arr: &mut Vec<Value>)
    ensures
        canonical_order(trees(final(arr)@), trees(old(arr)@)),
        trees(final(arr)@).to_multiset() == trees(old(arr)@).to_multiset(),
{
    let ghost orig = trees(arr@);
    let mut lined: Vec<(i64, Value)> = Vec::new();
    let mut unlined: Vec<Value> = Vec::new();
    let mut loose: Vec<Value> = Vec::new();
    proof {
        lemma_trees(arr@);
        assert(orig.skip(orig.len() as int) =~= Seq::<Tree>::empty());
        reveal(Seq::filter);
        assert(bodies(lined@) =~= Seq::<Tree>::empty());
        assert(trees(loose@) =~= Seq::<Tree>::empty());
    }
    while arr.len() > 0
        invariant
            arr@.len() <= orig.len(),
            trees(arr@) == orig.take(arr@.len() as int),
            piled(lined@, unlined@, loose@, orig.skip(arr@.len() as int)),
        decreases arr@.len(),
    {
        let ghost done = orig.skip(arr@.len() as int);
        let ghost held = trees(arr@);
        proof {
            lemma_trees(arr@);
        }
        let x = arr.pop().unwrap();
        proof {
            lemma_trees(arr@);
            assert(x@ == held[arr@.len() as int]);
            assert(orig.skip(arr@.len() as int) =~= seq![x@] + done);
        }
        place(x, &mut lined, &mut unlined, &mut loose, Ghost(done));
    }
    assert(orig.skip(0) =~= orig);
    let ghost head = bodies(lined@);
    let ghost middle = trees(unlined@);
    let ghost tail = loose_of(orig);
    for e in it: lined
        invariant
            it.seq() == lined@,
            head == bodies(lined@),
            trees(arr@) == head.take(it.index() as int),
    {
        arr.push(e.1);
        proof {
            lemma_trees(arr@);
            assert(head.take(it.index() + 1) =~= head.take(it.index() as int).push(e.1@));
        }
    }
    for e in it: unlined
        invariant
            it.seq() == unlined@,
            middle == trees(unlined@),
            trees(arr@) == head + middle.take(it.index() as int),
    {
        let ghost had = trees(arr@);
        arr.push(e);
        proof {
            lemma_trees(arr@);
            lemma_trees(unlined@);
            assert(trees(arr@) =~= had.push(e@));
        }
    }
    proof {
        lemma_trees(loose@);
    }
    while loose.len() > 0
        invariant
            loose@.len() <= tail.len(),
            trees(loose@) == tail.reverse().take(loose@.len() as int),
            trees(arr@) == head + middle + tail.take(tail.len() - loose@.len()),
        decreases loose@.len(),
    {
        let ghost had = trees(arr@);
        let ghost left = trees(loose@);
        proof {
            lemma_trees(loose@);
        }
        let x = loose.pop().unwrap();
        arr.push(x);
        proof {
            lemma_trees(arr@);
            lemma_trees(loose@);
            assert(trees(arr@) =~= had.push(x@));
            assert(x@ == left[loose@.len() as int]);
        }
    }
    proof {
        let r = trees(arr@);
        let k = lined_of(orig).len() as int;
        assert(r.take(k) =~= head);
        assert(r.skip(k) =~= middle + tail);
        lemma_partition_len(orig);
        lemma_canonical_order_permutes(r, orig);
    }
}

/// Every entry is a block with a line, a block without, or no block, and
/// only one of these.
proof fn lemma_partition_len(s: Seq<Tree>)
    ensures
        lined_of(s).len() + unlined_of(s).len() + loose_of(s).len() == s.len(),
    decreases s.len(),
{
    reveal(Seq::filter);
    if s.len() > 0 {
        lemma_partition_len(s.drop_last());
    }
}

/// What `with_line` keeps of `r` without its last entry.
proof fn lemma_with_line_drop_last(r: Seq<Tree>, l: int)
    requires
        r.len() > 0,
    ensures
        with_line(r, l) == (if entry_line(r.last()) == l {
            with_line(r.drop_last(), l).push(r.last())
        } else {
            with_line(r.drop_last(), l)
        }),
{
    reveal(Seq::filter);
}

/// An entry of `r` is among the entries of its line.
proof fn lemma_with_line_has(r: Seq<Tree>, i: int)
    requires
        0 <= i < r.len(),
    ensures
        with_line(r, entry_line(r[i])).len() > 0,
    decreases r.len(),
{
    lemma_with_line_drop_last(r, entry_line(r[i]));
    if i < r.len() - 1 {
        lemma_with_line_has(r.drop_last(), i);
    }
}

/// An entry among those of the line `l` is an entry of `r` with that line.
proof fn lemma_with_line_from(r: Seq<Tree>, l: int)
    requires
        with_line(r, l).len() > 0,
    ensures
        exists|i: int| 0 <= i < r.len() && entry_line(#[trigger] r[i]) == l,
    decreases r.len(),
{
    reveal(Seq::filter);
    if r.len() > 0 {
        lemma_with_line_drop_last(r, l);
        if entry_line(r.last()) != l {
            lemma_with_line_from(r.drop_last(), l);
            let i = choose|i: int|
                0 <= i < r.drop_last().len() && entry_line(#[trigger] r.drop_last()[i]) == l;
            assert(r[i] == r.drop_last()[i]);
        }
    }
}

/// Two ascending sequences that hold, for each line, the same entries in the
/// same order are the same sequence.
pub proof fn lemma_ascending_unique(a: Seq<Tree>, b: Seq<Tree>)
    requires
        a.len() == b.len(),
        ascending(a),
        ascending(b),
        forall|l: int| #[trigger] with_line(a, l) == with_line(b, l),
    ensures
        a == b,
    decreases a.len(),
{
    if a.len() > 0 {
        let la = entry_line(a.last());
        let lb = entry_line(b.last());
        // The last entries have the same line: each line of one sequence
        // occurs in the other, and the last line is the largest.
        lemma_with_line_has(a, a.len() - 1);
        lemma_with_line_has(b, b.len() - 1);
        lemma_with_line_from(a, lb);
        lemma_with_line_from(b, la);
        assert(la == lb);
        // So they are the same entry: the last of that line.
        lemma_with_line_drop_last(a, la);
        lemma_with_line_drop_last(b, la);
        assert(with_line(a, la).last() == a.last());
        assert(with_line(b, la).last() == b.last());
        let a0 = a.drop_last();
        let b0 = b.drop_last();
        assert forall|l: int| #[trigger] with_line(a0, l) == with_line(b0, l) by {
            lemma_with_line_drop_last(a, l);
            lemma_with_line_drop_last(b, l);
            if l == la {
                assert(with_line(a0, l) =~= with_line(a, l).drop_last());
                assert(with_line(b0, l) =~= with_line(b, l).drop_last());
            }
        }
        lemma_ascending_unique(a0, b0);
        assert(a =~= a0.push(a.last()));
        assert(b =~= b0.push(b.last()));
    }
}

/// The entries `s` have one canonical order and no other.
pub proof fn lemma_canonical_order_unique(r1: Seq<Tree>, r2: Seq<Tree>, s: Seq<Tree>)
    requires
        canonical_order(r1, s),
        canonical_order(r2, s),
    ensures
        r1 == r2,
{
    let k = lined_of(s).len() as int;
    lemma_partition_len(s);
    lemma_ascending_unique(r1.take(k), r2.take(k));
    assert(r1 =~= r1.take(k) + r1.skip(k));
    assert(r2 =~= r2.take(k) + r2.skip(k));
}

/// How often `x` occurs among what a filter keeps of `q`: as often as in `q`
/// if the filter keeps `x`, and never if it does not.
proof fn lemma_filter_count(q: Seq<Tree>, pred: spec_fn(Tree) -> bool, x: Tree)
    ensures
        q.filter(pred).to_multiset().count(x) == (if pred(x) {
            q.to_multiset().count(x)
        } else {
            0
        }),
    decreases q.len(),
{
    broadcast use vstd::multiset::group_multiset_axioms;

    reveal(Seq::filter);
    if q.len() == 0 {
        assert(q.to_multiset().count(x) == 0) by {
            q.to_multiset_ensures();
        }
    } else {
        let q0 = q.drop_last();
        lemma_filter_count(q0, pred, x);
        assert(q =~= q0.push(q.last()));
        to_multiset_build(q0, q.last());
        if pred(q.last()) {
            to_multiset_build(q0.filter(pred), q.last());
        }
    }
}

/// The canonical order loses no entry and adds none: it holds each entry as
/// often as the file does.
pub proof fn lemma_canonical_order_permutes(r: Seq<Tree>, s: Seq<Tree>)
    requires
        canonical_order(r, s),
    ensures
        r.to_multiset() == s.to_multiset(),
{
    broadcast use vstd::multiset::group_multiset_axioms;

    let k = lined_of(s).len() as int;
    let head = r.take(k);
    let middle = unlined_of(s).reverse();
    let tail = loose_of(s);
    lemma_partition_len(s);
    assert(r =~= head + (middle + tail));
    lemma_multiset_commutative(head, middle + tail);
    lemma_multiset_commutative(middle, tail);
    unlined_of(s).lemma_reverse_to_multiset();
    assert forall|x: Tree| r.to_multiset().count(x) == s.to_multiset().count(x) by {
        let l = entry_line(x);
        // Among the blocks with a line, `x` occurs as often as among those
        // of its own line, which the order keeps as they are.
        lemma_filter_count(head, |t: Tree| entry_line(t) == l, x);
        lemma_filter_count(lined_of(s), |t: Tree| entry_line(t) == l, x);
        assert(with_line(head, l) == with_line(lined_of(s), l));
        lemma_filter_count(s, |t: Tree| is_lined(t), x);
        lemma_filter_count(s, |t: Tree| is_unlined(t), x);
        lemma_filter_count(s, |t: Tree| is_loose(t), x);
    }
    assert(r.to_multiset() =~= s.to_multiset());
}

impl AstFile {
    /// Puts the top-level entries of the file in canonical order. A file
    /// whose tree is not an array is left as it is.
    pub fn sort_blocks(&mut self)
        ensures
            final(self).astver == old(self).astver,
            final(self).astname == old(self).astname,
            (match old(self).ast@ {
                Tree::Array(s) => final(self).ast@ matches Tree::Array(r) && canonical_order(r, s)
                    && r.to_multiset() == s.to_multiset(),
                _ => final(self).ast@ == old(self).ast@,
            }),
    {
        match &mut self.ast {
            Value::Array(arr) => {
                sort_entries(arr);
            },
            _ => {},
        }
    }
}

} // verus!
