//! The tree that a parsed script is made of, and the queries on it.
//!
//! A script is an untyped tree: scalars, named attributes and ordered arrays
//! that may mix all of them. The queries are total: on a node of the wrong
//! shape or on a missing key they answer "absent".

use vstd::prelude::*;
use crate::text::str_eq;

verus! {

/// The mathematical value of a tree node: what the contracts speak of.
pub enum Tree {
    /// A floating-point scalar, as its canonical decimal text.
    Float(Seq<char>),
    Int(i64),
    Str(Seq<char>),
    /// A named attribute.
    KeyVal(Seq<char>, Box<Tree>),
    /// An ordered, possibly mixed sequence of nodes.
    Array(Seq<Tree>),
}

impl Tree {
    /// The string that this node is, if it is one.
    pub open spec fn as_str(self) -> Option<Seq<char>> {
        match self {
            Tree::Str(s) => Some(s),
            _ => None,
        }
    }

    /// The integer that this node is, if it is one.
    pub open spec fn as_int(self) -> Option<i64> {
        match self {
            Tree::Int(i) => Some(i),
            _ => None,
        }
    }

    /// Whether this node is an array.
    pub open spec fn is_array(self) -> bool {
        self is Array
    }

    /// The children of an array; no children for any other node.
    pub open spec fn items(self) -> Seq<Tree> {
        match self {
            Tree::Array(s) => s,
            _ => Seq::empty(),
        }
    }

    /// Whether this node is the attribute named `key`.
    pub open spec fn has_key(self, key: Seq<char>) -> bool {
        self matches Tree::KeyVal(k, _) && k == key
    }

    /// The tag of a record: the string that an array starts with.
    pub open spec fn tag(self) -> Option<Seq<char>> {
        match self {
            Tree::Array(s) => if s.len() > 0 {
                s[0].as_str()
            } else {
                None
            },
            _ => None,
        }
    }

    /// The records tagged `tag` among the direct children, in stored order.
    pub open spec fn find_array_attrs(self, tag: Seq<char>) -> Seq<Tree> {
        self.items().filter(|t: Tree| t.tag() == Some(tag))
    }

    /// The value of the attribute `key`: of this very pair, or of the first
    /// pair with that key among an array's children.
    pub open spec fn find_keyval(self, key: Seq<char>) -> Option<Tree> {
        match self {
            Tree::KeyVal(k, v) => if k == key {
                Some(*v)
            } else {
                None
            },
            Tree::Array(s) => first_keyval(s, key),
            _ => None,
        }
    }

    /// The member of an array at the position `index`, if there is one.
    pub open spec fn get_member(self, index: int) -> Option<Tree> {
        match self {
            Tree::Array(s) => if 0 <= index < s.len() {
                Some(s[index])
            } else {
                None
            },
            _ => None,
        }
    }

    /// The last member of an array, if it has one.
    pub open spec fn last(self) -> Option<Tree> {
        match self {
            Tree::Array(s) => if s.len() > 0 {
                Some(s.last())
            } else {
                None
            },
            _ => None,
        }
    }

    /// The string held by the attribute `key`, if there is one.
    pub open spec fn str_attr(self, key: Seq<char>) -> Option<Seq<char>> {
        match self.find_keyval(key) {
            Some(v) => v.as_str(),
            None => None,
        }
    }

    /// The integer held by the attribute `key`, if there is one.
    pub open spec fn int_attr(self, key: Seq<char>) -> Option<i64> {
        match self.find_keyval(key) {
            Some(v) => v.as_int(),
            None => None,
        }
    }
}

/// The value of the first pair named `key` in `s`.
pub open spec fn first_keyval(s: Seq<Tree>, key: Seq<char>) -> Option<Tree>
    decreases s.len(),
{
    if s.len() == 0 {
        None
    } else {
        match s[0] {
            Tree::KeyVal(k, v) => if k == key {
                Some(*v)
            } else {
                first_keyval(s.drop_first(), key)
            },
            _ => first_keyval(s.drop_first(), key),
        }
    }
}

/// Whether `i` is where the first pair named `key` stands in `s`.
pub open spec fn is_first_with_key(s: Seq<Tree>, key: Seq<char>, i: int) -> bool {
    &&& 0 <= i < s.len()
    &&& s[i].has_key(key)
    &&& forall|j: int| 0 <= j < i ==> !(#[trigger] s[j]).has_key(key)
}

/// A key lookup in an array answers with the first pair of that name in
/// stored order, whatever follows it; it answers "absent" exactly when no
/// child is such a pair.
pub proof fn lemma_find_keyval_is_first(s: Seq<Tree>, key: Seq<char>)
    ensures
        (match Tree::Array(s).find_keyval(key) {
            Some(v) => exists|i: int| #[trigger]
                is_first_with_key(s, key, i) && s[i] == Tree::KeyVal(key, Box::new(v)),
            None => forall|i: int| 0 <= i < s.len() ==> !(#[trigger] s[i]).has_key(key),
        }),
    decreases s.len(),
{
    if s.len() > 0 {
        if s[0].has_key(key) {
            assert(is_first_with_key(s, key, 0));
        } else {
            let t = s.drop_first();
            lemma_find_keyval_is_first(t, key);
            match first_keyval(t, key) {
                Some(v) => {
                    let i = choose|i: int| #[trigger]
                        is_first_with_key(t, key, i) && t[i] == Tree::KeyVal(key, Box::new(v));
                    assert forall|j: int| 0 <= j < i + 1 implies !(#[trigger] s[j]).has_key(
                        key,
                    ) by {
                        if j > 0 {
                            assert(s[j] == t[j - 1]);
                        }
                    }
                    assert(is_first_with_key(s, key, i + 1));
                },
                None => {
                    assert forall|i: int| 0 <= i < s.len() implies !(#[trigger] s[i]).has_key(
                        key,
                    ) by {
                        if i > 0 {
                            assert(s[i] == t[i - 1]);
                        }
                    }
                },
            }
        }
    }
}

/// A node of a parsed script.
#[derive(Debug)]
pub enum Value {
    /// A floating-point scalar, kept as its canonical decimal text.
    Float(String),
    Int(i64),
    Str(String),
    KeyVal((String, Box<Value>)),
    Array(Vec<Value>),
}

impl Value {
    /// The tree that this node stands for.
    pub open spec fn tree(&self) -> Tree
        decreases self,
    {
        match self {
            Value::Float(s) => Tree::Float(s@),
            Value::Int(i) => Tree::Int(*i),
            Value::Str(s) => Tree::Str(s@),
            Value::KeyVal((k, v)) => Tree::KeyVal(k@, Box::new(v.tree())),
            Value::Array(items) => Tree::Array(trees(items@)),
        }
    }
}

/// The trees that a sequence of nodes stands for.
pub open spec fn trees(items: Seq<Value>) -> Seq<Tree>
    decreases items,
{
    Seq::new(items.len(), |i: int| if 0 <= i < items.len() { items[i].tree() } else { Tree::Int(0) })
}

impl View for Value {
    type V = Tree;

    open spec fn view(&self) -> Tree {
        self.tree()
    }
}

impl DeepView for Value {
    type V = Tree;

    open spec fn deep_view(&self) -> Tree {
        self.tree()
    }
}

/// What `trees` is at each position.
pub proof fn lemma_trees(items: Seq<Value>)
    ensures
        trees(items).len() == items.len(),
        forall|i: int| 0 <= i < items.len() ==> (#[trigger] trees(items)[i]) == items[i]@,
{
}

impl Value {
    /// The string that this node is, if it is one.
    pub fn as_str(&self) -> (r: Option<&str>)
        ensures
            r.deep_view() == self@.as_str(),
    {
        match self {
            Value::Str(s) => Some(s.as_str()),
            _ => None,
        }
    }

    /// The integer that this node is, if it is one.
    pub fn as_int(&self) -> (r: Option<i64>)
        ensures
            r.deep_view() == self@.as_int(),
    {
        match self {
            Value::Int(i) => Some(*i),
            _ => None,
        }
    }

    /// Whether this node is an array.
    pub fn is_array(&self) -> (r: bool)
        ensures
            r == self@.is_array(),
    {
        match self {
            Value::Array(_) => true,
            _ => false,
        }
    }

    /// The tag of a record: the string that an array starts with.
    pub fn tag(&self) -> (r: Option<&str>)
        ensures
            r.deep_view() == self@.tag(),
    {
        match self {
            Value::Array(items) => {
                proof {
                    lemma_trees(items@);
                }
                if items.len() > 0 {
                    items[0].as_str()
                } else {
                    None
                }
            },
            _ => None,
        }
    }

    /// The records tagged `key` among the direct children, in stored order.
    pub fn find_array_attrs(&self, key: &str) -> (r: Vec<&Value>)
        ensures
            r.deep_view() == self@.find_array_attrs(key@),
    {
        let mut result: Vec<&Value> = Vec::new();
        match self {
            Value::Array(items) => {
                let ghost all = trees(items@);
                let ghost pred = |t: Tree| t.tag() == Some(key@);
                let n = items.len();
                let mut i: usize = 0;
                while i < n
                    invariant
                        i <= n,
                        n == items@.len(),
                        all == trees(items@),
                        pred == (|t: Tree| t.tag() == Some(key@)),
                        result.deep_view() == all.take(i as int).filter(pred),
                    decreases n - i,
                {
                    let v = &items[i];
                    let hit = match v.tag() {
                        Some(t) => str_eq(t, key),
                        None => false,
                    };
                    if hit {
                        result.push(v);
                    }
                    proof {
                        lemma_trees(items@);
                        assert(all.take(i + 1).drop_last() =~= all.take(i as int));
                        reveal(Seq::filter);
                    }
                    i += 1;
                }
                assert(all.take(n as int) =~= all);
            },
            _ => {},
        }
        result
    }

    /// The value of the attribute `key`: of this very pair, or of the first
    /// pair with that key among an array's children. A later pair of the same
    /// name is never the answer.
    pub fn find_keyval(&self, key: &str) -> (r: Option<&Value>)
        ensures
            r.deep_view() == self@.find_keyval(key@),
            self@ matches Tree::Array(s) ==> (match r {
                Some(v) => exists|i: int| #[trigger]
                    is_first_with_key(s, key@, i) && s[i] == Tree::KeyVal(key@, Box::new(v@)),
                None => forall|i: int| 0 <= i < s.len() ==> !(#[trigger] s[i]).has_key(key@),
            }),
    {
        match self {
            Value::KeyVal((k, v)) => {
                if str_eq(k.as_str(), key) {
                    Some(v)
                } else {
                    None
                }
            },
            Value::Array(items) => {
                let ghost all = trees(items@);
                let n = items.len();
                let mut i: usize = 0;
                assert(all.skip(0) =~= all);
                while i < n
                    invariant
                        i <= n,
                        n == items@.len(),
                        all == trees(items@),
                        self@ == Tree::Array(all),
                        first_keyval(all, key@) == first_keyval(all.skip(i as int), key@),
                    decreases n - i,
                {
                    proof {
                        lemma_trees(items@);
                        assert(all.skip(i as int).drop_first() =~= all.skip(i + 1));
                    }
                    match &items[i] {
                        Value::KeyVal((k, v)) => {
                            if str_eq(k.as_str(), key) {
                                proof {
                                    lemma_find_keyval_is_first(all, key@);
                                }
                                return Some(v);
                            }
                        },
                        _ => {},
                    }
                    i += 1;
                }
                proof {
                    lemma_find_keyval_is_first(all, key@);
                }
                None
            },
            _ => None,
        }
    }

    /// The member of an array at the position `index`, if there is one.
    pub fn get_member(&self, index: usize) -> (r: Option<&Value>)
        ensures
            r.deep_view() == self@.get_member(index as int),
            r is Some ==> index < usize::MAX,
    {
        match self {
            Value::Array(items) => {
                proof {
                    lemma_trees(items@);
                }
                if index < items.len() {
                    Some(&items[index])
                } else {
                    None
                }
            },
            _ => None,
        }
    }

    /// The last member of an array, if it has one.
    pub fn last(&self) -> (r: Option<&Value>)
        ensures
            r.deep_view() == self@.last(),
    {
        match self {
            Value::Array(items) => {
                proof {
                    lemma_trees(items@);
                }
                if items.len() > 0 {
                    Some(&items[items.len() - 1])
                } else {
                    None
                }
            },
            _ => None,
        }
    }

    /// The string held by the attribute `key`, if there is one.
    pub fn str_attr(&self, key: &str) -> (r: Option<&str>)
        ensures
            r.deep_view() == self@.str_attr(key@),
    {
        match self.find_keyval(key) {
            Some(v) => v.as_str(),
            None => None,
        }
    }

    /// The integer held by the attribute `key`, if there is one.
    pub fn int_attr(&self, key: &str) -> (r: Option<i64>)
        ensures
            r.deep_view() == self@.int_attr(key@),
    {
        match self.find_keyval(key) {
            Some(v) => v.as_int(),
            None => None,
        }
    }
}

impl Clone for Value {
    /// A copy of the whole tree below this node.
    fn clone(&self) -> (r: Value)
        ensures
            r@ == self@,
        decreases self,
    {
        match self {
            Value::Float(s) => Value::Float(s.clone()),
            Value::Int(i) => Value::Int(*i),
            Value::Str(s) => Value::Str(s.clone()),
            Value::KeyVal((k, v)) => {
                let inner: Value = (**v).clone();
                Value::KeyVal((k.clone(), Box::new(inner)))
            },
            Value::Array(items) => {
                let mut out: Vec<Value> = Vec::new();
                let n = items.len();
                let mut i: usize = 0;
                while i < n
                    invariant
                        i <= n,
                        n == items@.len(),
                        out@.len() == i,
                        decreases_to!(self => items@),
                        forall|j: int| 0 <= j < i ==> (#[trigger] out@[j])@ == items@[j]@,
                    decreases n - i,
                {
                    out.push(items[i].clone());
                    i += 1;
                }
                assert(trees(out@) =~= trees(items@));
                Value::Array(out)
            },
        }
    }
}

/// A parsed script file: the version of its format, its name if it has one,
/// and its tree. The tree of a well-formed file is an array of named blocks.
#[derive(Debug)]
pub struct AstFile {
    /// The format version, kept as its canonical decimal text.
    pub astver: String,
    pub astname: Option<String>,
    pub ast: Value,
}

} // verus!
