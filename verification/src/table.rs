//! Insertion-ordered association tables.
//!
//! A table is modelled as a sequence of `(key, value)` pairs. Looking a key up
//! finds the first pair that holds it; inserting a key replaces the value of
//! that first pair, or appends a new pair when the key is absent. The order of
//! the pairs is the order in which the keys were first inserted, so every walk
//! over a table is deterministic.
use vstd::prelude::*;

verus! {

/// A value that can be copied, the copy having the same model as the original.
pub trait Replicate: View + Sized {
    fn replicate(&self) -> (r: Self)
        ensures
            r@ == self@,
    ;
}

/// A table key: comparing two keys decides whether their models are equal.
pub trait Key: Replicate {
    fn same(&self, other: &Self) -> (b: bool)
        ensures
            b == (self@ == other@),
    ;
}

impl Replicate for String {
    fn replicate(&self) -> (r: String) {
        self.clone()
    }
}

impl Key for String {
    fn same(&self, other: &String) -> (b: bool) {
        *self == *other
    }
}

impl Replicate for usize {
    fn replicate(&self) -> (r: usize) {
        *self
    }
}

impl Key for usize {
    fn same(&self, other: &usize) -> (b: bool) {
        *self == *other
    }
}

/// The index of the first pair of `s` whose key is `k`.
pub open spec fn find<A, B>(s: Seq<(A, B)>, k: A) -> Option<int>
    decreases s.len(),
{
    if s.len() == 0 {
        None
    } else {
        match find(s.drop_last(), k) {
            Some(i) => Some(i),
            None => if s.last().0 == k {
                Some(s.len() - 1)
            } else {
                None
            },
        }
    }
}

/// The value bound to `k`, if any.
pub open spec fn lookup<A, B>(s: Seq<(A, B)>, k: A) -> Option<B> {
    match find(s, k) {
        Some(i) => Some(s[i].1),
        None => None,
    }
}

/// Whether `k` is bound.
pub open spec fn bound<A, B>(s: Seq<(A, B)>, k: A) -> bool {
    find(s, k) is Some
}

/// `s` with `k` bound to `v`: the first pair for `k` gets the new value, or a
/// new pair is appended.
pub open spec fn put<A, B>(s: Seq<(A, B)>, k: A, v: B) -> Seq<(A, B)> {
    match find(s, k) {
        Some(i) => s.update(i, (k, v)),
        None => s.push((k, v)),
    }
}

/// `s` without the first pair for `k`.
pub open spec fn without<A, B>(s: Seq<(A, B)>, k: A) -> Seq<(A, B)> {
    match find(s, k) {
        Some(i) => s.remove(i),
        None => s,
    }
}

/// The keys of `s`, in order.
pub open spec fn keys<A, B>(s: Seq<(A, B)>) -> Seq<A> {
    Seq::new(s.len(), |i: int| s[i].0)
}

/// No key occurs in two pairs.
pub open spec fn distinct_keys<A, B>(s: Seq<(A, B)>) -> bool {
    forall|i: int, j: int| 0 <= i < j < s.len() ==> (#[trigger] s[i]).0 != (#[trigger] s[j]).0
}

/// `find` returns the least index that holds the key, and `None` exactly when
/// no pair holds it.
pub proof fn lemma_find<A, B>(s: Seq<(A, B)>, k: A)
    ensures
        match find(s, k) {
            Some(i) => 0 <= i < s.len() && s[i].0 == k && forall|j: int|
                0 <= j < i ==> (#[trigger] s[j]).0 != k,
            None => forall|j: int| 0 <= j < s.len() ==> (#[trigger] s[j]).0 != k,
        },
    decreases s.len(),
{
    if s.len() > 0 {
        let t = s.drop_last();
        lemma_find(t, k);
        assert(forall|j: int| 0 <= j < t.len() ==> t[j] == s[j]);
    }
}

/// The converse of `lemma_find`: a key held at `i` and nowhere before is found at `i`.
pub proof fn lemma_find_at<A, B>(s: Seq<(A, B)>, k: A, i: int)
    requires
        0 <= i < s.len(),
        s[i].0 == k,
        forall|j: int| 0 <= j < i ==> (#[trigger] s[j]).0 != k,
    ensures
        find(s, k) == Some(i),
{
    lemma_find(s, k);
}

/// A key that no pair holds is not found.
pub proof fn lemma_find_none<A, B>(s: Seq<(A, B)>, k: A)
    requires
        forall|j: int| 0 <= j < s.len() ==> (#[trigger] s[j]).0 != k,
    ensures
        find(s, k) is None,
{
    lemma_find(s, k);
}

/// After `put`, the key is bound to the new value and every other key is
/// bound as before.
pub proof fn lemma_put<A, B>(s: Seq<(A, B)>, k: A, v: B, other: A)
    ensures
        lookup(put(s, k, v), k) == Some(v),
        other != k ==> lookup(put(s, k, v), other) == lookup(s, other),
        other != k ==> find(put(s, k, v), other) == find(s, other),
        bound(put(s, k, v), other) == (other == k || bound(s, other)),
{
    lemma_find(s, k);
    lemma_find(s, other);
    let t = put(s, k, v);
    match find(s, k) {
        Some(i) => {
            lemma_find_at(t, k, i);
            if other != k {
                match find(s, other) {
                    Some(j) => {
                        lemma_find_at(t, other, j);
                    },
                    None => {
                        lemma_find_none(t, other);
                    },
                }
            }
        },
        None => {
            lemma_find_at(t, k, s.len() as int);
            if other != k {
                match find(s, other) {
                    Some(j) => {
                        lemma_find_at(t, other, j);
                    },
                    None => {
                        lemma_find_none(t, other);
                    },
                }
            }
        },
    }
}

/// `put` keeps the keys distinct.
pub proof fn lemma_put_distinct<A, B>(s: Seq<(A, B)>, k: A, v: B)
    requires
        distinct_keys(s),
    ensures
        distinct_keys(put(s, k, v)),
{
    lemma_find(s, k);
    let t = put(s, k, v);
    assert forall|i: int, j: int| 0 <= i < j < t.len() implies (#[trigger] t[i]).0 != (
    #[trigger] t[j]).0 by {
        if j < s.len() {
            assert(t[i].0 == s[i].0);
            assert(t[j].0 == s[j].0);
        } else {
            assert(t[i].0 == s[i].0);
        }
    }
}

/// Where the keys are distinct, a key is found at the one index that holds
/// it.
pub proof fn lemma_find_distinct<A, B>(s: Seq<(A, B)>, i: int)
    requires
        distinct_keys(s),
        0 <= i < s.len(),
    ensures
        find(s, s[i].0) == Some(i),
{
    lemma_find(s, s[i].0);
}

/// Where the keys are distinct, the pairs without the one at `i` have
/// distinct keys, bind every other key as before, and do not bind its key.
pub proof fn lemma_removed<A, B>(cells: Seq<(A, B)>, i: int, b: A)
    requires
        distinct_keys(cells),
        0 <= i < cells.len(),
    ensures
        distinct_keys(cells.remove(i)),
        lookup(cells.remove(i), b) == (if b == cells[i].0 {
            None
        } else {
            lookup(cells, b)
        }),
{
    let rest = cells.remove(i);
    assert forall|j: int, k: int| 0 <= j < k < rest.len() implies (#[trigger] rest[j]).0 != (
    #[trigger] rest[k]).0 by {
        let j0 = if j < i {
            j
        } else {
            j + 1
        };
        let k0 = if k < i {
            k
        } else {
            k + 1
        };
        assert(rest[j] == cells[j0]);
        assert(rest[k] == cells[k0]);
    }
    lemma_find(cells, b);
    lemma_find(rest, b);
    match find(rest, b) {
        Some(j) => {
            let j0 = if j < i {
                j
            } else {
                j + 1
            };
            assert(rest[j] == cells[j0]);
            lemma_find_distinct(cells, j0);
        },
        None => {
            match find(cells, b) {
                Some(j) => {
                    if j != i {
                        let j1 = if j < i {
                            j
                        } else {
                            j - 1
                        };
                        assert(rest[j1] == cells[j]);
                    } else {
                    }
                },
                None => {},
            }
        },
    }
}

/// An insertion-ordered table of key-value pairs. A table that is made by
/// `new` and changed by its methods binds no key twice: `new` gives
/// `distinct_keys`, and every method keeps it.
#[derive(Debug)]
pub struct Table<K, V> {
    pub entries: Vec<(K, V)>,
}

impl<K: Key, V: Replicate> View for Table<K, V> {
    type V = Seq<(K::V, V::V)>;

    open spec fn view(&self) -> Seq<(K::V, V::V)> {
        Seq::new(self.entries@.len(), |i: int| (self.entries@[i].0@, self.entries@[i].1@))
    }
}

impl<K: Key, V: Replicate> Table<K, V> {
    /// The empty table.
    pub fn new() -> (r: Self)
        ensures
            r@ == Seq::<(K::V, V::V)>::empty(),
            distinct_keys(r@),
    {
        let r = Table { entries: Vec::new() };
        assert(r@ =~= Seq::<(K::V, V::V)>::empty());
        r
    }

    /// The number of pairs.
    pub fn len(&self) -> (n: usize)
        ensures
            n == self@.len(),
    {
        self.entries.len()
    }

    /// The key of the pair at `i`.
    pub fn key_at(&self, i: usize) -> (k: &K)
        requires
            i < self@.len(),
        ensures
            k@ == self@[i as int].0,
    {
        &self.entries[i].0
    }

    /// The value of the pair at `i`.
    pub fn value_at(&self, i: usize) -> (v: &V)
        requires
            i < self@.len(),
        ensures
            v@ == self@[i as int].1,
    {
        &self.entries[i].1
    }

    /// The index of the first pair for `key`.
    pub fn position(&self, key: &K) -> (r: Option<usize>)
        ensures
            match r {
                Some(i) => i < self@.len() && find(self@, key@) == Some(i as int),
                None => find(self@, key@) is None,
            },
    {
        let mut i: usize = 0;
        while i < self.entries.len()
            invariant
                i <= self.entries@.len(),
                forall|j: int| 0 <= j < i ==> (#[trigger] self@[j]).0 != key@,
            decreases self.entries@.len() - i,
        {
            if self.entries[i].0.same(key) {
                proof {
                    lemma_find_at(self@, key@, i as int);
                }
                return Some(i);
            }
            i = i + 1;
        }
        proof {
            lemma_find_none(self@, key@);
        }
        None
    }

    /// The value bound to `key`.
    pub fn get(&self, key: &K) -> (r: Option<&V>)
        ensures
            match r {
                Some(v) => lookup(self@, key@) == Some(v@),
                None => lookup(self@, key@) is None,
            },
    {
        match self.position(key) {
            Some(i) => Some(&self.entries[i].1),
            None => None,
        }
    }

    /// Whether `key` is bound.
    pub fn contains_key(&self, key: &K) -> (b: bool)
        ensures
            b == bound(self@, key@),
    {
        self.position(key).is_some()
    }

    /// Binds `key` to `value`, replacing an earlier binding in place.
    pub fn insert(&mut self, key: K, value: V)
        ensures
            final(self)@ == put(old(self)@, key@, value@),
            distinct_keys(old(self)@) ==> distinct_keys(final(self)@),
    {
        proof {
            if distinct_keys(old(self)@) {
                lemma_put_distinct(old(self)@, key@, value@);
            }
        }
        match self.position(&key) {
            Some(i) => {
                self.entries.remove(i);
                self.entries.insert(i, (key, value));
            },
            None => {
                self.entries.push((key, value));
            },
        }
        assert(self@ =~= put(old(self)@, key@, value@));
    }

    /// Removes the pair at `i`.
    pub fn remove_at(&mut self, i: usize)
        requires
            i < old(self)@.len(),
        ensures
            final(self)@ == old(self)@.remove(i as int),
            distinct_keys(old(self)@) ==> distinct_keys(final(self)@),
    {
        proof {
            if distinct_keys(old(self)@) {
                lemma_removed(old(self)@, i as int, old(self)@[i as int].0);
            }
        }
        self.entries.remove(i);
        assert(self@ =~= old(self)@.remove(i as int));
    }

    /// Removes the first pair for `key`, if there is one.
    pub fn remove(&mut self, key: &K)
        ensures
            final(self)@ == without(old(self)@, key@),
            distinct_keys(old(self)@) ==> distinct_keys(final(self)@) && !bound(
                final(self)@,
                key@,
            ),
    {
        proof {
            lemma_find(old(self)@, key@);
            if distinct_keys(old(self)@) && find(old(self)@, key@) is Some {
                lemma_removed(old(self)@, find(old(self)@, key@)->0, key@);
            }
        }
        match self.position(key) {
            Some(i) => {
                self.remove_at(i);
            },
            None => {},
        }
    }
}

impl<K: Key, V: Replicate> Replicate for Table<K, V> {
    fn replicate(&self) -> (r: Self) {
        let mut entries: Vec<(K, V)> = Vec::new();
        let mut i: usize = 0;
        while i < self.entries.len()
            invariant
                i <= self.entries@.len(),
                entries@.len() == i,
                forall|j: int|
                    0 <= j < i ==> (#[trigger] entries@[j]).0@ == self.entries@[j].0@
                        && entries@[j].1@ == self.entries@[j].1@,
            decreases self.entries@.len() - i,
        {
            let k = self.entries[i].0.replicate();
            let v = self.entries[i].1.replicate();
            entries.push((k, v));
            i = i + 1;
        }
        let r = Table { entries };
        assert(r@ =~= self@);
        r
    }
}

} // verus!
