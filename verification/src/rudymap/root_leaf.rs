//! The compact root shapes used while the population is small: no entries,
//! one inline entry, two sorted entries, and a short sorted vector of up to
//! 31 entries. Each answers an insert with either success or a `Resize`
//! that asks the root to grow into the next shape.

use vstd::prelude::*;
use vstd::map::*;
use core::marker::PhantomData;
use crate::key::Key;
use crate::rudymap::jpm::Jpm;
use crate::rudymap::results::{InsertResult, RemoveResult};
use crate::util::linear_search;
use crate::util::locksteparray::{InsertError, LockstepArray};

verus! {

/// The map held by two lockstep sequences of keys and values.
pub open spec fn pairs_map<K, V>(s1: Seq<K>, s2: Seq<V>) -> Map<K, V>
    decreases s1.len(),
{
    if s1.len() == 0 || s2.len() == 0 {
        Map::empty()
    } else {
        pairs_map(s1.skip(1), s2.skip(1)).insert(s1[0], s2[0])
    }
}

/// What the pairs denote when the keys are pairwise distinct: one entry per
/// pair, nothing else.
pub proof fn lemma_pairs_map<K, V>(s1: Seq<K>, s2: Seq<V>)
    requires
        s1.len() == s2.len(),
        forall|i: int, j: int| 0 <= i < j < s1.len() ==> s1[i] != s1[j],
    ensures
        forall|k: K| #[trigger] pairs_map(s1, s2).contains_key(k) <==> s1.contains(k),
        forall|i: int| 0 <= i < s1.len() ==> pairs_map(s1, s2)[#[trigger] s1[i]] == s2[i],
        pairs_map(s1, s2).dom().finite(),
        pairs_map(s1, s2).len() == s1.len(),
    decreases s1.len(),
{
    if s1.len() == 0 {
        assert forall|k: K| !(#[trigger] pairs_map(s1, s2).contains_key(k)) by {}
    } else {
        let t1 = s1.skip(1);
        let t2 = s2.skip(1);
        assert forall|i: int, j: int| 0 <= i < j < t1.len() implies t1[i] != t1[j] by {
            assert(t1[i] == s1[i + 1] && t1[j] == s1[j + 1]);
        }
        lemma_pairs_map(t1, t2);
        assert(!t1.contains(s1[0])) by {
            if t1.contains(s1[0]) {
                let i = choose|i: int| 0 <= i < t1.len() && t1[i] == s1[0];
                assert(s1[i + 1] == s1[0]);
            }
        }
        assert forall|k: K| #[trigger] pairs_map(s1, s2).contains_key(k) <==> s1.contains(k) by {
            if k == s1[0] {
                assert(s1.contains(k)) by {
                    assert(s1[0] == k);
                }
            } else {
                assert(t1.contains(k) ==> s1.contains(k)) by {
                    if t1.contains(k) {
                        let i = choose|i: int| 0 <= i < t1.len() && t1[i] == k;
                        assert(s1[i + 1] == k);
                    }
                }
                assert(s1.contains(k) ==> t1.contains(k)) by {
                    if s1.contains(k) {
                        let i = choose|i: int| 0 <= i < s1.len() && s1[i] == k;
                        assert(i != 0);
                        assert(t1[i - 1] == k);
                    }
                }
            }
        }
        assert forall|i: int| 0 <= i < s1.len() implies pairs_map(s1, s2)[#[trigger] s1[i]]
            == s2[i] by {
            if i > 0 {
                assert(s1[i] != s1[0]);
                assert(t1[i - 1] == s1[i] && t2[i - 1] == s2[i]);
            }
        }
        assert(pairs_map(s1, s2).dom() == pairs_map(t1, t2).dom().insert(s1[0]));
        assert(!pairs_map(t1, t2).contains_key(s1[0]));
    }
}

/// The empty root: every lookup misses and every insert asks for a `Leaf1`.
pub struct Empty<K: Key, V> {
    pub phantom: PhantomData<(K, V)>,
}

impl<K: Key, V> Empty<K, V> {
    pub open spec fn as_map(self) -> Map<K, V> {
        Map::empty()
    }

    pub fn new() -> (r: Self)
        ensures
            r.as_map() == Map::<K, V>::empty(),
    {
        Empty { phantom: PhantomData }
    }

    pub fn get(&self, key: K) -> (r: Option<&V>)
        ensures
            r is None,
    {
        None
    }

    pub fn get_mut(&mut self, key: K) -> (r: Option<&mut V>)
        ensures
            r is None,
            *final(self) == *old(self),
    {
        None
    }

    pub fn insert(&mut self, key: K, value: V) -> (r: InsertResult<V>)
        ensures
            *final(self) == *old(self),
            r == InsertResult::Resize(value),
    {
        InsertResult::Resize(value)
    }

    pub fn remove(&mut self, key: K) -> (r: RemoveResult<V>)
        ensures
            *final(self) == *old(self),
            r == RemoveResult::Success(None::<V>),
    {
        RemoveResult::Success(None)
    }

    pub fn len(&self) -> (r: usize)
        ensures
            r as nat == self.as_map().len(),
    {
        0
    }
}

/// A root holding exactly one entry inline.
pub struct Leaf1<K: Key, V> {
    pub key: K,
    pub value: V,
}

impl<K: Key, V> Leaf1<K, V> {
    pub open spec fn as_map(self) -> Map<K, V> {
        Map::empty().insert(self.key, self.value)
    }

    pub fn new(key: K, value: V) -> (r: Self)
        ensures
            r.key == key,
            r.value == value,
            r.as_map() == Map::empty().insert(key, value),
    {
        Leaf1 { key, value }
    }

    pub fn get(&self, key: K) -> (r: Option<&V>)
        ensures
            r is Some <==> self.as_map().contains_key(key),
            r matches Some(v) ==> *v == self.as_map()[key],
    {
        if self.key.key_eq(key) {
            Some(&self.value)
        } else {
            None
        }
    }

    /// Mutably borrows the value when `key` is the stored key.
    pub fn get_mut(&mut self, key: K) -> (r: Option<&mut V>)
        ensures
            key != old(self).key ==> r is None && *final(self) == *old(self),
            key == old(self).key ==> {
                &&& r is Some
                &&& *r.unwrap() == old(self).value
                &&& final(self).as_map() == old(self).as_map().insert(key, *final(r.unwrap()))
            },
    {
        let ghost pre = *self;
        if self.key.key_eq(key) {
            let r = Some(&mut self.value);
            proof {
                let vf = *final(r.unwrap());
                let post = after_borrow(*self);
                assert(post.key == pre.key);
                assert(post.value == vf);
                assert(post.as_map() =~= pre.as_map().insert(key, vf));
            }
            r
        } else {
            None
        }
    }

    /// Replaces in place on the stored key; any other key needs a bigger
    /// shape.
    pub fn insert(&mut self, key: K, value: V) -> (r: InsertResult<V>)
        ensures
            key == old(self).key ==> {
                &&& final(self).as_map() == old(self).as_map().insert(key, value)
                &&& r == InsertResult::Success(Some(old(self).value))
            },
            key != old(self).key ==> *final(self) == *old(self) && r == InsertResult::Resize(
                value,
            ),
    {
        if self.key.key_eq(key) {
            let r = InsertResult::replace(&mut self.value, value);
            proof {
                assert(self.as_map() =~= old(self).as_map().insert(key, value));
            }
            r
        } else {
            InsertResult::Resize(value)
        }
    }

    pub fn remove(&mut self, key: K) -> (r: RemoveResult<V>)
        ensures
            *final(self) == *old(self),
            key == old(self).key ==> r == RemoveResult::Downsize::<V>,
            key != old(self).key ==> r == RemoveResult::Success(None::<V>),
    {
        if self.key.key_eq(key) {
            RemoveResult::Downsize
        } else {
            RemoveResult::Success(None)
        }
    }

    pub fn len(&self) -> (r: usize)
        ensures
            r as nat == self.as_map().len(),
    {
        proof {
            assert(self.as_map().dom() == Set::empty().insert(self.key));
        }
        1
    }
}

/// A root holding two entries, keys sorted ascending.
pub struct Leaf2<K: Key, V> {
    pub keys: Vec<K>,
    pub values: Vec<V>,
}

impl<K: Key, V> Leaf2<K, V> {
    pub open spec fn wf(self) -> bool {
        &&& self.keys@.len() == 2
        &&& self.values@.len() == 2
        &&& self.keys@[0].rank() < self.keys@[1].rank()
    }

    pub open spec fn as_map(self) -> Map<K, V> {
        pairs_map(self.keys@, self.values@)
    }

    /// Distinct keys under well-formedness.
    pub proof fn lemma_distinct(self)
        requires
            self.wf(),
        ensures
            forall|i: int, j: int| 0 <= i < j < self.keys@.len() ==> self.keys@[i] != self.keys@[j],
    {
    }

    /// Builds the leaf from two entries with distinct keys, in either order.
    pub fn new(key1: K, value1: V, key2: K, value2: V) -> (r: Self)
        requires
            key1 != key2,
        ensures
            r.wf(),
            r.as_map() == Map::empty().insert(key1, value1).insert(key2, value2),
    {
        let ghost gk1 = key1;
        let ghost gk2 = key2;
        let r;
        proof {
            key1.lemma_rank_injective(key2);
        }
        if key1.key_lt(key2) {
            r = Leaf2 { keys: vec![key1, key2], values: vec![value1, value2] };
        } else {
            r = Leaf2 { keys: vec![key2, key1], values: vec![value2, value1] };
        }
        proof {
            r.lemma_distinct();
            lemma_pairs_map(r.keys@, r.values@);
            assert(r.as_map() =~= Map::empty().insert(gk1, value1).insert(gk2, value2)) by {
                lemma_pairs_map(r.keys@, r.values@);
                assert(r.keys@[0] == gk1 || r.keys@[0] == gk2);
                assert forall|k: K| #[trigger] r.as_map().contains_key(k) == Map::empty().insert(
                    gk1,
                    value1,
                ).insert(gk2, value2).contains_key(k) by {
                    assert(r.keys@.contains(k) <==> (k == gk1 || k == gk2)) by {
                        if r.keys@.contains(k) {
                            let i = choose|i: int| 0 <= i < 2 && r.keys@[i] == k;
                        }
                        if k == gk1 || k == gk2 {
                            assert(r.keys@[0] == k || r.keys@[1] == k);
                        }
                    }
                }
            }
        }
        r
    }

    pub fn get(&self, key: K) -> (r: Option<&V>)
        requires
            self.wf(),
        ensures
            r is Some <==> self.as_map().contains_key(key),
            r matches Some(v) ==> *v == self.as_map()[key],
    {
        proof {
            self.lemma_distinct();
            lemma_pairs_map(self.keys@, self.values@);
            assert(self.keys@.contains(key) <==> (self.keys@[0] == key || self.keys@[1] == key))
                by {
                if self.keys@.contains(key) {
                    let i = choose|i: int| 0 <= i < 2 && self.keys@[i] == key;
                }
            }
        }
        if self.keys[0].key_eq(key) {
            Some(&self.values[0])
        } else if self.keys[1].key_eq(key) {
            Some(&self.values[1])
        } else {
            None
        }
    }

    /// Mutably borrows the value under `key`, if the leaf holds it.
    pub fn get_mut(&mut self, key: K) -> (r: Option<&mut V>)
        requires
            old(self).wf(),
        ensures
            !old(self).as_map().contains_key(key) ==> r is None && *final(self) == *old(self),
            old(self).as_map().contains_key(key) ==> {
                &&& r is Some
                &&& *r.unwrap() == old(self).as_map()[key]
                &&& final(self).wf()
                &&& final(self).as_map() == old(self).as_map().insert(key, *final(r.unwrap()))
            },
    {
        let ghost pre = *self;
        proof {
            pre.lemma_distinct();
            lemma_pairs_map(pre.keys@, pre.values@);
            assert(pre.keys@.contains(key) <==> (pre.keys@[0] == key || pre.keys@[1] == key)) by {
                if pre.keys@.contains(key) {
                    let i = choose|i: int| 0 <= i < 2 && pre.keys@[i] == key;
                }
            }
        }
        let idx: usize;
        if self.keys[0].key_eq(key) {
            idx = 0;
        } else if self.keys[1].key_eq(key) {
            idx = 1;
        } else {
            return None;
        }
        let r = Some(&mut self.values[idx]);
        proof {
            let vf = *final(r.unwrap());
            let post = after_borrow(*self);
            assert(post.keys@ == pre.keys@);
            assert(post.values@ == pre.values@.update(idx as int, vf));
            post.lemma_distinct();
            lemma_pairs_map(post.keys@, post.values@);
            assert(post.keys@[idx as int] == key);
            assert_maps_equal!(post.as_map(), pre.as_map().insert(key, vf), k2 => {
                if post.as_map().contains_key(k2) {
                    let j = choose|j: int| 0 <= j < post.keys@.len() && post.keys@[j] == k2;
                    if k2 != key {
                        assert(j != idx as int);
                        assert(pre.keys@[j] == k2);
                    } else {
                        assert(j == idx as int);
                    }
                }
            });
        }
        r
    }

    /// Replaces in place on a stored key; any other key needs a bigger
    /// shape.
    pub fn insert(&mut self, key: K, value: V) -> (r: InsertResult<V>)
        requires
            old(self).wf(),
        ensures
            final(self).wf(),
            old(self).as_map().contains_key(key) ==> {
                &&& final(self).as_map() == old(self).as_map().insert(key, value)
                &&& r == InsertResult::Success(Some(old(self).as_map()[key]))
            },
            !old(self).as_map().contains_key(key) ==> *final(self) == *old(self) && r
                == InsertResult::Resize(value),
    {
        let ghost pre = *self;
        proof {
            pre.lemma_distinct();
            lemma_pairs_map(pre.keys@, pre.values@);
            assert(pre.keys@.contains(key) <==> (pre.keys@[0] == key || pre.keys@[1] == key)) by {
                if pre.keys@.contains(key) {
                    let i = choose|i: int| 0 <= i < 2 && pre.keys@[i] == key;
                }
            }
        }
        if self.keys[0].key_eq(key) {
            let place = &mut self.values[0];
            let r = InsertResult::replace(place, value);
            proof {
                assert(self.values@ == pre.values@.update(0, value));
                self.lemma_distinct();
                lemma_pairs_map(self.keys@, self.values@);
                assert(self.as_map() =~= pre.as_map().insert(key, value)) by {
                    assert forall|k: K| #[trigger] self.as_map().contains_key(k)
                        == pre.as_map().insert(key, value).contains_key(k) by {}
                }
            }
            r
        } else if self.keys[1].key_eq(key) {
            let place = &mut self.values[1];
            let r = InsertResult::replace(place, value);
            proof {
                assert(self.values@ == pre.values@.update(1, value));
                self.lemma_distinct();
                lemma_pairs_map(self.keys@, self.values@);
                assert(self.as_map() =~= pre.as_map().insert(key, value)) by {
                    assert forall|k: K| #[trigger] self.as_map().contains_key(k)
                        == pre.as_map().insert(key, value).contains_key(k) by {}
                }
            }
            r
        } else {
            InsertResult::Resize(value)
        }
    }

    pub fn remove(&mut self, key: K) -> (r: RemoveResult<V>)
        requires
            old(self).wf(),
        ensures
            *final(self) == *old(self),
            old(self).as_map().contains_key(key) ==> r == RemoveResult::Downsize::<V>,
            !old(self).as_map().contains_key(key) ==> r == RemoveResult::Success(None::<V>),
    {
        proof {
            self.lemma_distinct();
            lemma_pairs_map(self.keys@, self.values@);
            assert(self.keys@.contains(key) <==> (self.keys@[0] == key || self.keys@[1] == key))
                by {
                if self.keys@.contains(key) {
                    let i = choose|i: int| 0 <= i < 2 && self.keys@[i] == key;
                }
            }
        }
        if self.keys[0].key_eq(key) {
            RemoveResult::Downsize
        } else if self.keys[1].key_eq(key) {
            RemoveResult::Downsize
        } else {
            RemoveResult::Success(None)
        }
    }

    pub fn len(&self) -> (r: usize)
        requires
            self.wf(),
        ensures
            r as nat == self.as_map().len(),
    {
        proof {
            self.lemma_distinct();
            lemma_pairs_map(self.keys@, self.values@);
        }
        2
    }
}

/// A root holding up to 31 entries in two lockstep arrays, keys sorted
/// strictly ascending.
pub struct VecLeaf<K: Key, V> {
    pub array: LockstepArray<K, V, 31>,
}

impl<K: Key, V> VecLeaf<K, V> {
    pub open spec fn wf(self) -> bool {
        &&& self.array.wf()
        &&& (forall|i: int, j: int|
            0 <= i < j < self.array.seq1().len() ==> self.array.seq1()[i].rank()
                < self.array.seq1()[j].rank())
    }

    pub open spec fn as_map(self) -> Map<K, V> {
        pairs_map(self.array.seq1(), self.array.seq2())
    }

    /// Distinct keys under well-formedness.
    pub proof fn lemma_distinct(self)
        requires
            self.wf(),
        ensures
            forall|i: int, j: int|
                0 <= i < j < self.array.seq1().len() ==> self.array.seq1()[i]
                    != self.array.seq1()[j],
    {
    }

    pub fn new() -> (r: Self)
        ensures
            r.wf(),
            r.as_map() == Map::<K, V>::empty(),
    {
        VecLeaf { array: LockstepArray::new() }
    }

    /// Builds the leaf from sorted parallel arrays.
    pub fn from_arrays(keys: Vec<K>, values: Vec<V>) -> (r: Self)
        requires
            keys@.len() == values@.len(),
            keys@.len() <= 31,
            forall|i: int, j: int| 0 <= i < j < keys@.len() ==> keys@[i].rank() < keys@[j].rank(),
        ensures
            r.wf(),
            r.as_map() == pairs_map(keys@, values@),
    {
        VecLeaf { array: LockstepArray::from_arrays(keys, values) }
    }

    pub fn get(&self, key: K) -> (r: Option<&V>)
        requires
            self.wf(),
        ensures
            r is Some <==> self.as_map().contains_key(key),
            r matches Some(v) ==> *v == self.as_map()[key],
    {
        proof {
            self.array.lemma_wf();
            self.lemma_distinct();
            lemma_pairs_map(self.array.seq1(), self.array.seq2());
        }
        match linear_search(self.array.array1(), &key) {
            Ok(i) => {
                proof {
                    assert(self.array.seq1().contains(key)) by {
                        assert(self.array.seq1()[i as int] == key);
                    }
                }
                Some(&self.array.array2()[i])
            },
            Err(i) => {
                proof {
                    assert(!self.array.seq1().contains(key)) by {
                        if self.array.seq1().contains(key) {
                            let j = choose|j: int|
                                0 <= j < self.array.seq1().len() && self.array.seq1()[j] == key;
                            if j >= i {
                                assert(i < self.array.seq1().len());
                                assert(self.array.seq1()[i as int].rank() < self.array.seq1()[j].rank()
                                    || i == j);
                            }
                        }
                    }
                }
                None
            },
        }
    }

    /// Mutably borrows the value under `key`, if the leaf holds it.
    pub fn get_mut(&mut self, key: K) -> (r: Option<&mut V>)
        requires
            old(self).wf(),
        ensures
            !old(self).as_map().contains_key(key) ==> r is None && *final(self) == *old(self),
            old(self).as_map().contains_key(key) ==> {
                &&& r is Some
                &&& *r.unwrap() == old(self).as_map()[key]
                &&& final(self).wf()
                &&& final(self).as_map() == old(self).as_map().insert(key, *final(r.unwrap()))
            },
    {
        let ghost pre = *self;
        proof {
            pre.array.lemma_wf();
            pre.lemma_distinct();
            lemma_pairs_map(pre.array.seq1(), pre.array.seq2());
        }
        match linear_search(self.array.array1(), &key) {
            Ok(i) => {
                proof {
                    assert(pre.array.seq1().contains(key)) by {
                        assert(pre.array.seq1()[i as int] == key);
                    }
                }
                let place = self.array.value_mut(i);
                let r = Some(place);
                proof {
                    let vf = *final(r.unwrap());
                    let post = after_borrow(*self);
                    assert(post.array.seq1() == pre.array.seq1());
                    assert(post.array.seq2() == pre.array.seq2().update(i as int, vf));
                    post.lemma_distinct();
                    lemma_pairs_map(post.array.seq1(), post.array.seq2());
                    assert_maps_equal!(post.as_map(), pre.as_map().insert(key, vf), k2 => {
                        if k2 == key {
                            assert(post.array.seq1().contains(k2)) by {
                                assert(post.array.seq1()[i as int] == key);
                            }
                        }
                        if post.as_map().contains_key(k2) {
                            let j = choose|j: int|
                                0 <= j < post.array.seq1().len() && post.array.seq1()[j] == k2;
                            if k2 != key {
                                assert(j != i as int);
                                assert(pre.array.seq1()[j] == k2);
                            } else {
                                assert(j == i as int);
                            }
                        }
                    });
                }
                r
            },
            Err(i) => {
                proof {
                    assert(!pre.array.seq1().contains(key)) by {
                        if pre.array.seq1().contains(key) {
                            let j = choose|j: int|
                                0 <= j < pre.array.seq1().len() && pre.array.seq1()[j] == key;
                            if j >= i {
                                assert(i < pre.array.seq1().len());
                                assert(pre.array.seq1()[i as int].rank() < pre.array.seq1()[j].rank()
                                    || i == j);
                            }
                        }
                    }
                }
                None
            },
        }
    }

    /// Replaces in place on a stored key, takes a fresh key while there is
    /// room, and otherwise reports that the vector is full.
    pub fn insert(&mut self, key: K, value: V) -> (r: InsertResult<V>)
        requires
            old(self).wf(),
        ensures
            final(self).wf(),
            old(self).as_map().contains_key(key) ==> {
                &&& final(self).as_map() == old(self).as_map().insert(key, value)
                &&& r == InsertResult::Success(Some(old(self).as_map()[key]))
            },
            !old(self).as_map().contains_key(key) && old(self).as_map().len() < 31 ==> {
                &&& final(self).as_map() == old(self).as_map().insert(key, value)
                &&& r == InsertResult::Success(None::<V>)
            },
            !old(self).as_map().contains_key(key) && old(self).as_map().len() >= 31 ==> {
                &&& *final(self) == *old(self)
                &&& r == InsertResult::Resize(value)
            },
    {
        let ghost pre = *self;
        proof {
            pre.array.lemma_wf();
            pre.lemma_distinct();
            lemma_pairs_map(pre.array.seq1(), pre.array.seq2());
        }
        match linear_search(self.array.array1(), &key) {
            Ok(i) => {
                proof {
                    assert(pre.array.seq1().contains(key)) by {
                        assert(pre.array.seq1()[i as int] == key);
                    }
                }
                let place = self.array.value_mut(i);
                let r = InsertResult::replace(place, value);
                proof {
                    assert(self.array.seq2() == pre.array.seq2().update(i as int, value));
                    self.lemma_distinct();
                    lemma_pairs_map(self.array.seq1(), self.array.seq2());
                    assert(self.array.seq1() == pre.array.seq1());
                    assert_maps_equal!(self.as_map(), pre.as_map().insert(key, value), k => {
                        if k == key {
                            assert(self.array.seq1().contains(k)) by {
                                assert(self.array.seq1()[i as int] == key);
                            }
                        }
                        if self.as_map().contains_key(k) {
                            let j = choose|j: int|
                                0 <= j < self.array.seq1().len() && self.array.seq1()[j] == k;
                            if k != key {
                                assert(j != i as int);
                                assert(pre.array.seq1()[j] == k);
                            } else {
                                assert(j == i as int);
                            }
                        }
                    });
                }
                r
            },
            Err(ins) => {
                proof {
                    assert(!pre.array.seq1().contains(key)) by {
                        if pre.array.seq1().contains(key) {
                            let j = choose|j: int|
                                0 <= j < pre.array.seq1().len() && pre.array.seq1()[j] == key;
                            if j >= ins {
                                assert(ins < pre.array.seq1().len());
                                assert(pre.array.seq1()[ins as int].rank() < pre.array.seq1()[j].rank()
                                    || ins == j);
                            }
                        }
                    }
                }
                match self.array.insert(ins, key, value) {
                    Ok(_) => {
                        proof {
                            assert(self.array.seq1() == pre.array.seq1().insert(ins as int, key));
                            assert(self.array.seq2() == pre.array.seq2().insert(ins as int, value));
                            assert forall|i2: int, j2: int|
                                0 <= i2 < j2 < self.array.seq1().len() implies self.array.seq1()[i2].rank()
                                < self.array.seq1()[j2].rank() by {
                                let s1 = self.array.seq1();
                                if i2 < ins && j2 < ins {
                                } else if i2 < ins && j2 == ins {
                                    assert(s1[i2] == pre.array.seq1()[i2]);
                                } else if i2 < ins && j2 > ins {
                                    assert(s1[i2] == pre.array.seq1()[i2] && s1[j2]
                                        == pre.array.seq1()[j2 - 1]);
                                } else if i2 == ins {
                                    assert(s1[j2] == pre.array.seq1()[j2 - 1]);
                                } else {
                                    assert(s1[i2] == pre.array.seq1()[i2 - 1] && s1[j2]
                                        == pre.array.seq1()[j2 - 1]);
                                }
                            }
                            self.lemma_distinct();
                            lemma_pairs_map(self.array.seq1(), self.array.seq2());
                            assert_maps_equal!(self.as_map(), pre.as_map().insert(key, value), k => {
                                if self.array.seq1().contains(k) {
                                    let j = choose|j: int|
                                        0 <= j < self.array.seq1().len() && self.array.seq1()[j]
                                            == k;
                                    if j < ins {
                                        assert(pre.array.seq1()[j] == k);
                                        assert(pre.array.seq1().contains(k));
                                        assert(j != ins && k != key);
                                        assert(self.array.seq2()[j] == pre.array.seq2()[j]);
                                    } else if j > ins {
                                        assert(pre.array.seq1()[j - 1] == k);
                                        assert(pre.array.seq1().contains(k));
                                        assert(k != key);
                                        assert(self.array.seq2()[j] == pre.array.seq2()[j - 1]);
                                    } else {
                                        assert(k == key);
                                    }
                                } else {
                                    assert(k != key) by {
                                        assert(self.array.seq1()[ins as int] == key);
                                    }
                                    if pre.array.seq1().contains(k) {
                                        let j = choose|j: int|
                                            0 <= j < pre.array.seq1().len() && pre.array.seq1()[j]
                                                == k;
                                        if j < ins {
                                            assert(self.array.seq1()[j] == k);
                                            assert(self.array.seq1().contains(k));
                                        } else {
                                            assert(self.array.seq1()[j + 1] == k);
                                            assert(self.array.seq1().contains(k));
                                        }
                                    }
                                }
                            });
                        }
                        InsertResult::Success(None)
                    },
                    Err(InsertError::Overflow(_, v2)) => {
                        InsertResult::Resize(v2)
                    },
                    Err(InsertError::OutOfBounds(_, v2)) => {
                        proof {
                            assert(false);
                        }
                        InsertResult::Resize(v2)
                    },
                }
            },
        }
    }

    pub fn remove(&mut self, key: K) -> (r: RemoveResult<V>)
        requires
            old(self).wf(),
        ensures
            final(self).wf(),
            final(self).as_map() == old(self).as_map().remove(key),
            r == RemoveResult::Success(
                if old(self).as_map().contains_key(key) {
                    Some(old(self).as_map()[key])
                } else {
                    None::<V>
                },
            ),
    {
        let ghost pre = *self;
        proof {
            pre.array.lemma_wf();
            pre.lemma_distinct();
            lemma_pairs_map(pre.array.seq1(), pre.array.seq2());
        }
        match linear_search(self.array.array1(), &key) {
            Ok(i) => {
                proof {
                    assert(pre.array.seq1().contains(key)) by {
                        assert(pre.array.seq1()[i as int] == key);
                    }
                }
                let removed = self.array.remove(i);
                proof {
                    assert(self.array.seq1() == pre.array.seq1().remove(i as int));
                    assert(self.array.seq2() == pre.array.seq2().remove(i as int));
                    assert forall|i2: int, j2: int|
                        0 <= i2 < j2 < self.array.seq1().len() implies self.array.seq1()[i2].rank()
                        < self.array.seq1()[j2].rank() by {
                        let s1 = self.array.seq1();
                        if i2 < i as int && j2 < i as int {
                        } else if i2 < i as int {
                            assert(s1[i2] == pre.array.seq1()[i2] && s1[j2] == pre.array.seq1()[j2
                                + 1]);
                        } else {
                            assert(s1[i2] == pre.array.seq1()[i2 + 1] && s1[j2]
                                == pre.array.seq1()[j2 + 1]);
                        }
                    }
                    self.lemma_distinct();
                    lemma_pairs_map(self.array.seq1(), self.array.seq2());
                    assert_maps_equal!(self.as_map(), pre.as_map().remove(key), k => {
                        if self.array.seq1().contains(k) {
                            let j = choose|j: int|
                                0 <= j < self.array.seq1().len() && self.array.seq1()[j] == k;
                            if j < i as int {
                                assert(pre.array.seq1()[j] == k);
                                assert(pre.array.seq1().contains(k));
                                assert(k != key);
                                assert(self.array.seq2()[j] == pre.array.seq2()[j]);
                            } else {
                                assert(pre.array.seq1()[j + 1] == k);
                                assert(pre.array.seq1().contains(k));
                                assert(k != key);
                                assert(self.array.seq2()[j] == pre.array.seq2()[j + 1]);
                            }
                        } else {
                            if pre.array.seq1().contains(k) && k != key {
                                let j = choose|j: int|
                                    0 <= j < pre.array.seq1().len() && pre.array.seq1()[j] == k;
                                assert(j != i as int);
                                if j < i as int {
                                    assert(self.array.seq1()[j] == k);
                                    assert(self.array.seq1().contains(k));
                                } else {
                                    assert(self.array.seq1()[j - 1] == k);
                                    assert(self.array.seq1().contains(k));
                                }
                            }
                        }
                    });
                }
                match removed {
                    Some((_, v)) => RemoveResult::Success(Some(v)),
                    None => {
                        proof {
                            assert(false);
                        }
                        RemoveResult::Success(None)
                    },
                }
            },
            Err(i) => {
                proof {
                    assert(!pre.array.seq1().contains(key)) by {
                        if pre.array.seq1().contains(key) {
                            let j = choose|j: int|
                                0 <= j < pre.array.seq1().len() && pre.array.seq1()[j] == key;
                            if j >= i {
                                assert(i < pre.array.seq1().len());
                                assert(pre.array.seq1()[i as int].rank() < pre.array.seq1()[j].rank()
                                    || i == j);
                            }
                        }
                    }
                    assert(pre.as_map().remove(key) =~= pre.as_map());
                }
                RemoveResult::Success(None)
            },
        }
    }

    pub fn len(&self) -> (r: usize)
        requires
            self.wf(),
        ensures
            r as nat == self.as_map().len(),
    {
        proof {
            self.array.lemma_wf();
            self.lemma_distinct();
            lemma_pairs_map(self.array.seq1(), self.array.seq2());
        }
        self.array.len()
    }

    /// Drains the vector into a fresh trie and adds the entry that did not
    /// fit.
    pub fn expand(self, key: K, value: V) -> (r: Jpm<K, V>)
        requires
            self.wf(),
            !self.as_map().contains_key(key),
        ensures
            r.wf(),
            r.as_map() == self.as_map().insert(key, value),
    {
        let ghost orig1 = self.array.seq1();
        let ghost orig2 = self.array.seq2();
        proof {
            self.array.lemma_wf();
            self.lemma_distinct();
            lemma_pairs_map(orig1, orig2);
        }
        let mut jpm: Jpm<K, V> = Jpm::new();
        let mut arr = self.array;
        proof {
            assert(orig1.skip(arr.seq1().len() as int) =~= Seq::<K>::empty());
            assert(orig2.skip(arr.seq1().len() as int) =~= Seq::<V>::empty());
        }
        while arr.len() > 0
            invariant
                arr.wf(),
                orig1.len() == orig2.len(),
                orig1.len() <= 31,
                arr.seq1().len() <= orig1.len(),
                arr.seq1() == orig1.take(arr.seq1().len() as int),
                arr.seq2() == orig2.take(arr.seq1().len() as int),
                jpm.wf(),
                jpm.as_map() == pairs_map(
                    orig1.skip(arr.seq1().len() as int),
                    orig2.skip(arr.seq1().len() as int),
                ),
                jpm.as_map().len() <= orig1.len() - arr.seq1().len(),
            decreases arr.seq1().len(),
        {
            let ghost pre1 = arr.seq1();
            let ghost pre2 = arr.seq2();
            let pair = arr.pop();
            match pair {
                Some((k2, v2)) => {
                    proof {
                        assert(pre1.last() == orig1[pre1.len() - 1]);
                    }
                    let jr = jpm.insert(k2, v2);
                    let jev = jr.success();
                    proof {
                        let n = arr.seq1().len() as int;
                        assert(orig1.skip(n)[0] == orig1[n]);
                        assert(orig1.skip(n).skip(1) =~= orig1.skip(n + 1));
                        assert(orig2.skip(n).skip(1) =~= orig2.skip(n + 1));
                        assert(orig1.skip(n)[0] == k2);
                        assert(orig2.skip(n)[0] == v2);
                        assert(jpm.as_map() == pairs_map(orig1.skip(n), orig2.skip(n)));
                        assert(jpm.as_map().dom() == pairs_map(
                            orig1.skip(n + 1),
                            orig2.skip(n + 1),
                        ).dom().insert(k2));
                    }
                },
                None => {
                    proof {
                        assert(false);
                    }
                },
            }
        }
        proof {
            assert(orig1.skip(0) =~= orig1);
            assert(orig2.skip(0) =~= orig2);
            assert(jpm.as_map() == self.as_map());
        }
        let jr = jpm.insert(key, value);
        let jev = jr.success();
        jpm
    }
}

} // verus!
