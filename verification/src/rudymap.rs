//! The map proper: a tagged root that starts as a compact leaf and grows
//! into a byte-indexed trie as the population rises. The facade is a thin
//! dispatcher on the root; its view is the finite map from keys to values
//! that the structure currently holds.

use vstd::prelude::*;
use vstd::map::*;
use crate::key::Key;
use crate::rudymap::rootptr::{next_shape, prev_shape, RootPtr, RootShape};

pub mod branch_bitmap;
pub mod branch_linear;
pub mod branch_uncompressed;
pub mod empty;
pub mod innerptr;
pub mod jpm;
pub mod leaf_bitmap;
pub mod results;
pub mod root_leaf;
pub mod rootptr;

verus! {

/// An adaptive map from fixed-width integer keys to values.
pub struct RudyMap<K: Key, V> {
    root: RootPtr<K, V>,
}

impl<K: Key, V> View for RudyMap<K, V> {
    type V = Map<K, V>;

    closed spec fn view(&self) -> Map<K, V> {
        self.root.as_map()
    }
}

impl<K: Key, V> RudyMap<K, V> {
    /// The structural invariant of the current root.
    pub closed spec fn wf(self) -> bool {
        self.root.wf()
    }

    /// The current shape of the root, for reasoning about the growth
    /// ladder.
    pub closed spec fn shape(self) -> RootShape {
        self.root.shape()
    }

    /// An empty map; no allocations.
    pub fn new() -> (r: Self)
        ensures
            r.wf(),
            r@ == Map::<K, V>::empty(),
            r.shape() == RootShape::Empty,
    {
        RudyMap { root: RootPtr::empty() }
    }

    /// Stores `value` under `key` and returns the value the key held
    /// before, if any. A root too small for a fresh key is first grown one
    /// shape up the ladder. The population counter lives in a machine word
    /// minus the tag byte, so the map holds fewer than `2^56` entries, and
    /// never more than a word can count.
    pub fn insert(&mut self, key: K, value: V) -> (r: Option<V>)
        requires
            old(self).wf(),
            old(self)@.len() < 0xFFFFFFFFFFFFFF,
            old(self)@.len() < usize::MAX,
        ensures
            final(self).wf(),
            final(self)@ == old(self)@.insert(key, value),
            r == (if old(self)@.contains_key(key) {
                Some(old(self)@[key])
            } else {
                None::<V>
            }),
            old(self)@.contains_key(key) ==> final(self).shape() == old(self).shape(),
            !old(self)@.contains_key(key) ==> final(self).shape() == next_shape(
                old(self).shape(),
                old(self)@.len(),
            ),
    {
        self.root.insert(key, value)
    }

    /// Removes the entry under `key` and returns its value, if the key was
    /// present. A root shrunk below its shape's minimum is rebuilt one shape
    /// down the ladder.
    pub fn remove(&mut self, key: K) -> (r: Option<V>)
        requires
            old(self).wf(),
        ensures
            final(self).wf(),
            final(self)@ == old(self)@.remove(key),
            r == (if old(self)@.contains_key(key) {
                Some(old(self)@[key])
            } else {
                None::<V>
            }),
            !old(self)@.contains_key(key) ==> final(self).shape() == old(self).shape(),
            old(self)@.contains_key(key) ==> final(self).shape() == prev_shape(old(self).shape()),
    {
        self.root.remove(key)
    }

    /// Whether `key` is present; reads the structure only, never the stored
    /// value.
    pub fn contains_key(&self, key: K) -> (r: bool)
        requires
            self.wf(),
        ensures
            r == self@.contains_key(key),
    {
        self.get(key).is_some()
    }

    /// Borrows the value under `key`, if any.
    pub fn get(&self, key: K) -> (r: Option<&V>)
        requires
            self.wf(),
        ensures
            r is Some <==> self@.contains_key(key),
            r matches Some(v) ==> *v == self@[key],
    {
        self.root.get(key)
    }

    /// Mutably borrows the value under `key`, if any; writing through the
    /// borrow overwrites the stored value in place and changes nothing else.
    pub fn get_mut(&mut self, key: K) -> (r: Option<&mut V>)
        requires
            old(self).wf(),
        ensures
            final(self).shape() == old(self).shape(),
            !old(self)@.contains_key(key) ==> {
                &&& r is None
                &&& final(self).wf()
                &&& final(self)@ == old(self)@
            },
            old(self)@.contains_key(key) ==> {
                &&& r is Some
                &&& *r.unwrap() == old(self)@[key]
                &&& final(self).wf()
                &&& final(self)@ == old(self)@.insert(key, *final(r.unwrap()))
            },
    {
        self.root.get_mut(key)
    }

    /// The number of entries: exactly the number of distinct keys the map
    /// answers for.
    pub fn len(&self) -> (r: usize)
        requires
            self.wf(),
        ensures
            r as nat == self@.len(),
    {
        self.root.len()
    }

    /// Whether the map holds no entry.
    pub fn is_empty(&self) -> (r: bool)
        requires
            self.wf(),
        ensures
            r == (self@.len() == 0),
    {
        self.len() == 0
    }
}

impl<K: Key, V> Default for RudyMap<K, V> {
    /// The empty map.
    fn default() -> (r: RudyMap<K, V>)
        ensures
            r.wf(),
            r@ == Map::<K, V>::empty(),
    {
        RudyMap::new()
    }
}

/// Inserting a key that is absent and then removing it restores the map,
/// its length included; the removed key reads as absent afterwards. (On a
/// key that was already present the length would instead end up one lower,
/// so present keys are excluded here.)
pub proof fn lemma_insert_then_remove<K, V>(m: Map<K, V>, key: K, value: V)
    requires
        !m.contains_key(key),
    ensures
        m.insert(key, value).remove(key) == m,
        !m.insert(key, value).remove(key).contains_key(key),
{
    assert(m.insert(key, value).remove(key) =~= m);
}

/// The map obtained by inserting a batch of entries in order.
pub open spec fn insert_all<K, V>(m: Map<K, V>, pairs: Seq<(K, V)>) -> Map<K, V>
    decreases pairs.len(),
{
    if pairs.len() == 0 {
        m
    } else {
        insert_all(m.insert(pairs[0].0, pairs[0].1), pairs.skip(1))
    }
}

/// What a batch of inserts with pairwise distinct keys produces: the keys of
/// the batch carry their batch values, every other key keeps its old value.
pub proof fn lemma_insert_all<K, V>(m: Map<K, V>, pairs: Seq<(K, V)>)
    requires
        forall|i: int, j: int| 0 <= i < j < pairs.len() ==> pairs[i].0 != pairs[j].0,
    ensures
        forall|k: K|
            #[trigger] insert_all(m, pairs).contains_key(k) <==> (m.contains_key(k) || exists|
                i: int,
            | 0 <= i < pairs.len() && (#[trigger] pairs[i]).0 == k),
        forall|i: int|
            0 <= i < pairs.len() ==> insert_all(m, pairs)[(#[trigger] pairs[i]).0] == pairs[i].1,
        forall|k: K|
            (forall|i: int| 0 <= i < pairs.len() ==> (#[trigger] pairs[i]).0 != k)
                && m.contains_key(k) ==> insert_all(m, pairs)[k] == m[k],
    decreases pairs.len(),
{
    if pairs.len() > 0 {
        let rest = pairs.skip(1);
        assert forall|i: int, j: int| 0 <= i < j < rest.len() implies rest[i].0 != rest[j].0 by {
            assert(rest[i] == pairs[i + 1] && rest[j] == pairs[j + 1]);
        }
        lemma_insert_all(m.insert(pairs[0].0, pairs[0].1), rest);
        assert forall|k: K|
            #[trigger] insert_all(m, pairs).contains_key(k) <==> (m.contains_key(k) || exists|
                i: int,
            | 0 <= i < pairs.len() && (#[trigger] pairs[i]).0 == k) by {
            if insert_all(m, pairs).contains_key(k) {
                if !m.contains_key(k) && k != pairs[0].0 {
                    assert(!m.insert(pairs[0].0, pairs[0].1).contains_key(k));
                    assert(insert_all(m, pairs) == insert_all(
                        m.insert(pairs[0].0, pairs[0].1),
                        rest,
                    ));
                    assert(exists|i: int| 0 <= i < rest.len() && (#[trigger] rest[i]).0 == k);
                    let i = choose|i: int| 0 <= i < rest.len() && (#[trigger] rest[i]).0 == k;
                    assert(rest[i] == pairs[i + 1]);
                    assert((#[trigger] pairs[i + 1]).0 == k);
                } else if k == pairs[0].0 {
                    assert((#[trigger] pairs[0]).0 == k);
                }
            } else {
                if m.contains_key(k) {
                    assert(m.insert(pairs[0].0, pairs[0].1).contains_key(k));
                }
                if exists|i: int| 0 <= i < pairs.len() && (#[trigger] pairs[i]).0 == k {
                    let i = choose|i: int| 0 <= i < pairs.len() && (#[trigger] pairs[i]).0 == k;
                    if i == 0 {
                        assert(m.insert(pairs[0].0, pairs[0].1).contains_key(k));
                    } else {
                        assert(rest[i - 1].0 == k);
                    }
                }
            }
        }
        assert forall|i: int| 0 <= i < pairs.len() implies insert_all(m, pairs)[(
        #[trigger] pairs[i]).0] == pairs[i].1 by {
            let m2 = m.insert(pairs[0].0, pairs[0].1);
            assert(insert_all(m, pairs) == insert_all(m2, rest));
            if i == 0 {
                assert forall|j: int| 0 <= j < rest.len() implies (#[trigger] rest[j]).0
                    != pairs[0].0 by {
                    assert(rest[j] == pairs[j + 1]);
                }
                assert(m2.contains_key(pairs[0].0));
                assert(insert_all(m2, rest)[pairs[0].0] == m2[pairs[0].0]);
            } else {
                assert(rest[i - 1] == pairs[i]);
                assert(insert_all(m2, rest)[(rest[i - 1]).0] == rest[i - 1].1);
            }
        }
        assert forall|k: K|
            (forall|i: int| 0 <= i < pairs.len() ==> (#[trigger] pairs[i]).0 != k)
                && m.contains_key(k) implies insert_all(m, pairs)[k] == m[k] by {
            assert((#[trigger] pairs[0]).0 != k);
            assert forall|j: int| 0 <= j < rest.len() implies (#[trigger] rest[j]).0 != k by {
                assert(rest[j] == pairs[j + 1]);
            }
            assert(m.insert(pairs[0].0, pairs[0].1).contains_key(k));
            assert(m.insert(pairs[0].0, pairs[0].1)[k] == m[k]);
        }
    }
}

/// Inserting the same collection of entries, with pairwise distinct keys, in
/// any order gives maps that answer every lookup alike.
pub proof fn lemma_insert_order_independent<K, V>(pairs1: Seq<(K, V)>, pairs2: Seq<(K, V)>)
    requires
        pairs1.to_multiset() == pairs2.to_multiset(),
        forall|i: int, j: int| 0 <= i < j < pairs1.len() ==> pairs1[i].0 != pairs1[j].0,
        forall|i: int, j: int| 0 <= i < j < pairs2.len() ==> pairs2[i].0 != pairs2[j].0,
    ensures
        insert_all(Map::<K, V>::empty(), pairs1) == insert_all(Map::<K, V>::empty(), pairs2),
{
    pairs1.to_multiset_ensures();
    pairs2.to_multiset_ensures();
    let m1 = insert_all(Map::<K, V>::empty(), pairs1);
    let m2 = insert_all(Map::<K, V>::empty(), pairs2);
    lemma_insert_all(Map::<K, V>::empty(), pairs1);
    lemma_insert_all(Map::<K, V>::empty(), pairs2);
    assert forall|p: (K, V)| pairs1.contains(p) <==> pairs2.contains(p) by {
        assert(pairs1.contains(p) <==> pairs1.to_multiset().count(p) > 0);
        assert(pairs2.contains(p) <==> pairs2.to_multiset().count(p) > 0);
    }
    assert_maps_equal!(m1, m2, k => {
        if m1.contains_key(k) {
            let i = choose|i: int| 0 <= i < pairs1.len() && (#[trigger] pairs1[i]).0 == k;
            assert(pairs1.contains(pairs1[i]));
            assert(pairs2.contains(pairs1[i]));
            let j = choose|j: int| 0 <= j < pairs2.len() && pairs2[j] == pairs1[i];
            assert((#[trigger] pairs2[j]).0 == k);
            assert(m2.contains_key(k));
            assert(m1[k] == pairs1[i].1);
            assert(m2[k] == pairs2[j].1);
        }
        if m2.contains_key(k) {
            let i = choose|i: int| 0 <= i < pairs2.len() && (#[trigger] pairs2[i]).0 == k;
            assert(pairs2.contains(pairs2[i]));
            assert(pairs1.contains(pairs2[i]));
            let j = choose|j: int| 0 <= j < pairs1.len() && pairs1[j] == pairs2[i];
            assert((#[trigger] pairs1[j]).0 == k);
            assert(m1.contains_key(k));
        }
    });
}

} // verus!
