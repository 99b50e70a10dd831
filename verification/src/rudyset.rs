//! The set facade: a trivial projection of the map with the unit type as
//! its value, viewed as a finite set of keys.

use vstd::prelude::*;
use crate::key::Key;
use crate::rudymap::RudyMap;

verus! {

/// An adaptive set of fixed-width integer keys.
pub struct RudySet<K: Key> {
    map: RudyMap<K, ()>,
}

impl<K: Key> View for RudySet<K> {
    type V = Set<K>;

    closed spec fn view(&self) -> Set<K> {
        self.map@.dom()
    }
}

impl<K: Key> RudySet<K> {
    /// The structural invariant of the underlying map.
    pub closed spec fn wf(self) -> bool {
        self.map.wf()
    }

    /// An empty set; no allocations.
    pub fn new() -> (r: Self)
        ensures
            r.wf(),
            r@ == Set::<K>::empty(),
    {
        let r = RudySet { map: RudyMap::new() };
        proof {
            assert(r@ =~= Set::<K>::empty());
        }
        r
    }

    /// Adds a value; reports whether the set already contained it. The
    /// population counter lives in a machine word minus the tag byte, so
    /// the set holds fewer than `2^56` elements, and never more than a word
    /// can count.
    pub fn insert(&mut self, value: K) -> (r: bool)
        requires
            old(self).wf(),
            old(self)@.len() < 0xFFFFFFFFFFFFFF,
            old(self)@.len() < usize::MAX,
        ensures
            final(self).wf(),
            final(self)@ == old(self)@.insert(value),
            r == old(self)@.contains(value),
    {
        let r = self.map.insert(value, ()).is_some();
        proof {
            assert(self@ =~= old(self)@.insert(value));
        }
        r
    }

    /// Removes a value; reports whether the set contained it.
    pub fn remove(&mut self, value: K) -> (r: bool)
        requires
            old(self).wf(),
        ensures
            final(self).wf(),
            final(self)@ == old(self)@.remove(value),
            r == old(self)@.contains(value),
    {
        let r = self.map.remove(value).is_some();
        proof {
            assert(self@ =~= old(self)@.remove(value));
        }
        r
    }

    /// Whether the set contains a value.
    pub fn contains(&self, value: K) -> (r: bool)
        requires
            self.wf(),
        ensures
            r == self@.contains(value),
    {
        self.map.contains_key(value)
    }

    /// Empties the set by replacing it with a fresh one.
    pub fn clear(&mut self)
        ensures
            final(self).wf(),
            final(self)@ == Set::<K>::empty(),
    {
        self.map = RudyMap::new();
        proof {
            assert(self@ =~= Set::<K>::empty());
        }
    }

    /// Whether the set holds no element.
    pub fn is_empty(&self) -> (r: bool)
        requires
            self.wf(),
        ensures
            r == (self@.len() == 0),
    {
        self.map.is_empty()
    }

    /// The number of elements.
    pub fn len(&self) -> (r: usize)
        requires
            self.wf(),
        ensures
            r as nat == self@.len(),
    {
        self.map.len()
    }
}

} // verus!
