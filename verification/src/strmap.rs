//! A map from strings to values that remembers the order in which its keys
//! came.
//!
//! Its mathematical value is the sequence of its entries, each a key with a
//! value. A lookup answers with the first entry of that key, so every
//! operation is total on every sequence; `insert` never adds a key twice, so
//! a map grown from `new` by `insert` keeps its keys distinct.

use vstd::prelude::*;
use crate::text::str_eq;

verus! {

/// Where the first entry of `s` with the key `key` stands.
pub open spec fn key_index<T>(s: Seq<(Seq<char>, T)>, key: Seq<char>) -> Option<int>
    decreases s.len(),
{
    if s.len() == 0 {
        None
    } else if s[0].0 == key {
        Some(0)
    } else {
        match key_index(s.drop_first(), key) {
            Some(i) => Some(i + 1),
            None => None,
        }
    }
}

/// The value that `s` holds for `key`.
pub open spec fn lookup<T>(s: Seq<(Seq<char>, T)>, key: Seq<char>) -> Option<T> {
    match key_index(s, key) {
        Some(i) => Some(s[i].1),
        None => None,
    }
}

/// `s` with `value` for `key`: in the place of the entry that `key` has, or
/// as a new last entry.
pub open spec fn put<T>(s: Seq<(Seq<char>, T)>, key: Seq<char>, value: T) -> Seq<
    (Seq<char>, T),
> {
    match key_index(s, key) {
        Some(i) => s.update(i, (key, value)),
        None => s.push((key, value)),
    }
}

/// Whether no key occurs twice in `s`.
pub open spec fn distinct_keys<T>(s: Seq<(Seq<char>, T)>) -> bool {
    forall|i: int, j: int| 0 <= i < j < s.len() ==> (#[trigger] s[i]).0 != (#[trigger] s[j]).0
}

/// `key_index` finds the first entry with the key, and finds none only where
/// there is none.
pub proof fn lemma_key_index<T>(s: Seq<(Seq<char>, T)>, key: Seq<char>)
    ensures
        (match key_index(s, key) {
            Some(i) => {
                &&& 0 <= i < s.len()
                &&& s[i].0 == key
                &&& forall|j: int| 0 <= j < i ==> (#[trigger] s[j]).0 != key
            },
            None => forall|j: int| 0 <= j < s.len() ==> (#[trigger] s[j]).0 != key,
        }),
    decreases s.len(),
{
    if s.len() > 0 && s[0].0 != key {
        let t = s.drop_first();
        lemma_key_index(t, key);
        match key_index(t, key) {
            Some(i) => {
                assert forall|j: int| 0 <= j < i + 1 implies (#[trigger] s[j]).0 != key by {
                    if j > 0 {
                        assert(s[j] == t[j - 1]);
                    }
                }
            },
            None => {
                assert forall|j: int| 0 <= j < s.len() implies (#[trigger] s[j]).0 != key by {
                    if j > 0 {
                        assert(s[j] == t[j - 1]);
                    }
                }
            },
        }
    }
}

/// The first entry with the key is where `key_index` points.
pub proof fn lemma_key_index_at<T>(s: Seq<(Seq<char>, T)>, key: Seq<char>, i: int)
    requires
        0 <= i < s.len(),
        s[i].0 == key,
        forall|j: int| 0 <= j < i ==> (#[trigger] s[j]).0 != key,
    ensures
        key_index(s, key) == Some(i),
{
    lemma_key_index(s, key);
}

/// A key that no entry has is not found.
pub proof fn lemma_key_index_none<T>(s: Seq<(Seq<char>, T)>, key: Seq<char>)
    requires
        forall|j: int| 0 <= j < s.len() ==> (#[trigger] s[j]).0 != key,
    ensures
        key_index(s, key) is None,
{
    lemma_key_index(s, key);
}

/// After `put`, the key holds the new value, every other key holds what it
/// held, and distinct keys stay distinct.
pub proof fn lemma_put<T>(s: Seq<(Seq<char>, T)>, key: Seq<char>, value: T, other: Seq<char>)
    ensures
        lookup(put(s, key, value), key) == Some(value),
        other != key ==> lookup(put(s, key, value), other) == lookup(s, other),
        distinct_keys(s) ==> distinct_keys(put(s, key, value)),
{
    let r = put(s, key, value);
    lemma_key_index(s, key);
    lemma_key_index(s, other);
    match key_index(s, key) {
        Some(i) => {
            lemma_key_index_at(r, key, i);
            if other != key {
                match key_index(s, other) {
                    Some(k) => {
                        lemma_key_index_at(r, other, k);
                    },
                    None => {
                        lemma_key_index_none(r, other);
                    },
                }
            }
        },
        None => {
            lemma_key_index_at(r, key, s.len() as int);
            if other != key {
                match key_index(s, other) {
                    Some(k) => {
                        lemma_key_index_at(r, other, k);
                    },
                    None => {
                        lemma_key_index_none(r, other);
                    },
                }
            }
        },
    }
}

/// A map from strings to values, in the order in which the keys came.
#[derive(Debug)]
pub struct StrMap<V> {
    pub entries: Vec<(String, V)>,
}

impl<V: DeepView> DeepView for StrMap<V> {
    type V = Seq<(Seq<char>, V::V)>;

    open spec fn deep_view(&self) -> Self::V {
        self.entries.deep_view()
    }
}

impl<V: DeepView> View for StrMap<V> {
    type V = Seq<(Seq<char>, V::V)>;

    open spec fn view(&self) -> Self::V {
        self.entries.deep_view()
    }
}

impl<V: DeepView> StrMap<V> {
    /// A map without entries.
    pub fn new() -> (r: Self)
        ensures
            r@ == Seq::<(Seq<char>, V::V)>::empty(),
            distinct_keys(r@),
    {
        let r = StrMap { entries: Vec::new() };
        r
    }

    /// The number of entries.
    pub fn len(&self) -> (r: usize)
        ensures
            r == self@.len(),
    {
        self.entries.len()
    }

    /// Whether the map has no entries.
    pub fn is_empty(&self) -> (r: bool)
        ensures
            r == (self@.len() == 0),
    {
        self.entries.len() == 0
    }

    /// Where the entry of `key` stands.
    pub fn position(&self, key: &str) -> (r: Option<usize>)
        ensures
            (match r {
                Some(i) => key_index(self@, key@) == Some(i as int),
                None => key_index(self@, key@) is None,
            }),
    {
        let n = self.entries.len();
        let mut i: usize = 0;
        while i < n
            invariant
                i <= n,
                n == self.entries@.len(),
                forall|j: int| 0 <= j < i ==> (#[trigger] self@[j]).0 != key@,
            decreases n - i,
        {
            if str_eq(self.entries[i].0.as_str(), key) {
                proof {
                    lemma_key_index_at(self@, key@, i as int);
                }
                return Some(i);
            }
            i += 1;
        }
        proof {
            lemma_key_index_none(self@, key@);
        }
        None
    }

    /// Whether the map holds a value for `key`.
    pub fn contains_key(&self, key: &str) -> (r: bool)
        ensures
            r == lookup(self@, key@).is_some(),
    {
        self.position(key).is_some()
    }

    /// The value held for `key`.
    pub fn get(&self, key: &str) -> (r: Option<&V>)
        ensures
            r.deep_view() == lookup(self@, key@),
    {
        match self.position(key) {
            Some(i) => {
                proof {
                    lemma_key_index(self@, key@);
                }
                Some(&self.entries[i].1)
            },
            None => None,
        }
    }

    /// Sets the value held for `key`: in the place of the entry that `key`
    /// has, or as a new last entry.
    pub fn insert(&mut self, key: String, value: V)
        ensures
            final(self)@ == put(old(self)@, key@, value.deep_view()),
            distinct_keys(old(self)@) ==> distinct_keys(final(self)@),
    {
        proof {
            lemma_put(self@, key@, value.deep_view(), key@);
        }
        match self.position(key.as_str()) {
            Some(i) => {
                proof {
                    lemma_key_index(self@, key@);
                }
                self.entries.set(i, (key, value));
            },
            None => {
                self.entries.push((key, value));
            },
        }
    }

    /// The entry that came first.
    pub fn first_key_value(&self) -> (r: Option<(&String, &V)>)
        ensures
            (match r {
                Some((k, v)) => self@.len() > 0 && self@[0] == (k@, v.deep_view()),
                None => self@.len() == 0,
            }),
    {
        if self.entries.len() > 0 {
            Some((&self.entries[0].0, &self.entries[0].1))
        } else {
            None
        }
    }
}

/// `s` with `items` added to what `key` holds: at the end of the list that
/// `key` has, or as the list of a new last entry.
pub open spec fn extend_key<T>(s: Seq<(Seq<char>, Seq<T>)>, key: Seq<char>, items: Seq<T>) -> Seq<
    (Seq<char>, Seq<T>),
> {
    match key_index(s, key) {
        Some(i) => s.update(i, (key, s[i].1 + items)),
        None => s.push((key, items)),
    }
}

/// After `extend_key`, the key holds what it held with the new items after
/// it, every other key holds what it held, and distinct keys stay distinct.
pub proof fn lemma_extend_key<T>(
    s: Seq<(Seq<char>, Seq<T>)>,
    key: Seq<char>,
    items: Seq<T>,
    other: Seq<char>,
)
    ensures
        lookup(extend_key(s, key, items), key) == Some(
            match lookup(s, key) {
                Some(held) => held + items,
                None => items,
            },
        ),
        other != key ==> lookup(extend_key(s, key, items), other) == lookup(s, other),
        distinct_keys(s) ==> distinct_keys(extend_key(s, key, items)),
{
    let r = extend_key(s, key, items);
    lemma_key_index(s, key);
    lemma_key_index(s, other);
    match key_index(s, key) {
        Some(i) => {
            lemma_key_index_at(r, key, i);
        },
        None => {
            lemma_key_index_at(r, key, s.len() as int);
        },
    }
    if other != key {
        match key_index(s, other) {
            Some(k) => {
                lemma_key_index_at(r, other, k);
            },
            None => {
                lemma_key_index_none(r, other);
            },
        }
    }
}

impl<T: DeepView> StrMap<Vec<T>> {
    /// Adds `items` to what `key` holds: at the end of the list that `key`
    /// has, or as the list of a new last entry.
    pub fn extend(&mut self, key: String, items: Vec<T>)
        ensures
            final(self)@ == extend_key(old(self)@, key@, items.deep_view()),
            distinct_keys(old(self)@) ==> distinct_keys(final(self)@),
    {
        let mut items = items;
        let ghost added = items.deep_view();
        proof {
            lemma_extend_key(self@, key@, added, key@);
        }
        match self.position(key.as_str()) {
            Some(i) => {
                proof {
                    lemma_key_index(self@, key@);
                }
                self.entries[i].1.append(&mut items);
                assert(self@ =~= extend_key(old(self)@, key@, added)) by {
                    assert(self@[i as int].1 =~= old(self)@[i as int].1 + added);
                }
            },
            None => {
                self.entries.push((key, items));
            },
        }
    }
}

/// What a reader set on the key `chosen` finds in `s`, and the key it is set
/// on afterwards: with a key, what that key holds; without one, the first
/// entry, whose key it then keeps.
pub open spec fn chosen<T>(s: Seq<(Seq<char>, T)>, chosen: Option<Seq<char>>) -> (
    Option<T>,
    Option<Seq<char>>,
) {
    match chosen {
        Some(key) => (lookup(s, key), chosen),
        None => if s.len() > 0 {
            (Some(s[0].1), Some(s[0].0))
        } else {
            (None, None)
        },
    }
}

impl<V: DeepView> StrMap<V> {
    /// What the key `key` holds, if `key` is set; else the first entry, on
    /// whose key `key` is then set.
    pub fn choose_from(&self, key: &mut Option<String>) -> (r: Option<&V>)
        ensures
            (r.deep_view(), final(key).deep_view()) == chosen(self@, old(key).deep_view()),
    {
        match key {
            Some(k) => self.get(k.as_str()),
            None => {
                if self.entries.len() > 0 {
                    *key = Some(self.entries[0].0.clone());
                    Some(&self.entries[0].1)
                } else {
                    None
                }
            },
        }
    }
}

} // verus!
