//! The trie root (the "Judy pointer map"): one inner pointer holding the
//! whole byte trie, and a cached count of the entries. Keys enter here; they
//! are encoded to bytes on the way in, so everything below works on byte
//! suffixes alone.

use vstd::prelude::*;
use vstd::map::*;
use core::marker::PhantomData;
use crate::key::Key;
use crate::rudymap::innerptr::{ip_view, ip_wf, InnerPtr};
use crate::rudymap::results::{InsertResult, RemoveResult};

verus! {

/// Two keys with the same encoding are the same key.
pub proof fn lemma_encode_injective<K: Key>(k1: K, k2: K)
    ensures
        k1.spec_encode() == k2.spec_encode() ==> k1 == k2,
{
    k1.lemma_round_trip();
    k2.lemma_round_trip();
}

/// A byte-keyed map read back through the key codec.
pub open spec fn jpm_kview<K: Key, V>(m: Map<Seq<u8>, V>) -> Map<K, V> {
    Map::new(|k2: K| m.contains_key(k2.spec_encode()), |k2: K| m[k2.spec_encode()])
}

/// The trie root: the head pointer and the cached total population.
pub struct Jpm<K: Key, V> {
    pub head: InnerPtr<V>,
    pub len: usize,
    pub phantom: PhantomData<K>,
}

impl<K: Key, V> Jpm<K, V> {
    /// The entries, keyed by decoded keys.
    pub open spec fn as_map(self) -> Map<K, V> {
        jpm_kview(ip_view(self.head, K::spec_size()))
    }

    /// The head is a well-formed subtree over full-length key encodings, and
    /// the cached length counts its entries, whether counted by byte string
    /// or by key.
    pub open spec fn wf(self) -> bool {
        &&& ip_wf(self.head, K::spec_size())
        &&& self.len as nat == ip_view(self.head, K::spec_size()).len()
        &&& self.len as nat == self.as_map().len()
        &&& self.as_map().dom().finite()
    }

    /// An empty trie.
    pub fn new() -> (r: Self)
        ensures
            r.wf(),
            r.as_map() == Map::<K, V>::empty(),
            r.len as nat == 0,
    {
        let r = Jpm { head: InnerPtr::empty(), len: 0, phantom: PhantomData };
        proof {
            assert(ip_view(r.head, K::spec_size()) == Map::<Seq<u8>, V>::empty());
            assert(r.as_map() =~= Map::<K, V>::empty());
        }
        r
    }

    /// Looks up a key.
    pub fn get(&self, key: K) -> (r: Option<&V>)
        requires
            self.wf(),
        ensures
            r is Some <==> self.as_map().contains_key(key),
            r matches Some(v) ==> *v == self.as_map()[key],
    {
        let bytes = key.into_bytes();
        proof {
            K::lemma_size();
            key.lemma_encode_len();
            assert(bytes@.skip(0) =~= key.spec_encode());
        }
        self.head.get(&bytes, 0)
    }

    /// Mutably borrows the value under `key`, if any; the borrow may
    /// overwrite the stored value in place, and the length is unchanged.
    pub fn get_mut(&mut self, key: K) -> (r: Option<&mut V>)
        requires
            old(self).wf(),
        ensures
            !old(self).as_map().contains_key(key) ==> {
                &&& r is None
                &&& final(self).wf()
                &&& final(self).as_map() == old(self).as_map()
            },
            old(self).as_map().contains_key(key) ==> {
                &&& r is Some
                &&& *r.unwrap() == old(self).as_map()[key]
                &&& final(self).wf()
                &&& final(self).as_map() == old(self).as_map().insert(key, *final(r.unwrap()))
            },
    {
        let ghost pre = *self;
        let ghost m0 = ip_view(pre.head, K::spec_size());
        let bytes = key.into_bytes();
        proof {
            K::lemma_size();
            key.lemma_encode_len();
            assert(bytes@.skip(0) =~= key.spec_encode());
        }
        let r = self.head.get_mut(&bytes, 0);
        proof {
            let post = after_borrow(*self);
            assert(post.len == pre.len);
            if m0.contains_key(key.spec_encode()) {
                let vf = *final(r.unwrap());
                let m1 = ip_view(post.head, K::spec_size());
                assert(m1 == m0.insert(key.spec_encode(), vf));
                assert(m1.dom() =~= m0.dom());
                assert_maps_equal!(jpm_kview::<K, V>(m1), pre.as_map().insert(key, vf), k2 => {
                    lemma_encode_injective(k2, key);
                });
                assert(post.as_map().dom() =~= pre.as_map().dom());
            } else {
                let m1 = ip_view(post.head, K::spec_size());
                assert(m1 == m0);
                assert(post.as_map() == pre.as_map());
            }
        }
        r
    }

    /// Inserts an entry and books the length; returns the evicted value.
    pub fn insert(&mut self, key: K, value: V) -> (r: InsertResult<V>)
        requires
            old(self).wf(),
            old(self).as_map().len() + 1 < 0x100000000000000,
            old(self).as_map().len() < usize::MAX,
        ensures
            final(self).wf(),
            final(self).as_map() == old(self).as_map().insert(key, value),
            r == InsertResult::Success(
                if old(self).as_map().contains_key(key) {
                    Some(old(self).as_map()[key])
                } else {
                    None::<V>
                },
            ),
    {
        let ghost pre = *self;
        let ghost m0 = ip_view(pre.head, K::spec_size());
        let bytes = key.into_bytes();
        proof {
            K::lemma_size();
            key.lemma_encode_len();
            assert(bytes@.skip(0) =~= key.spec_encode());
        }
        let evicted = self.head.insert(&bytes, 0, value);
        proof {
            let m1 = ip_view(self.head, K::spec_size());
            assert(m1 == m0.insert(key.spec_encode(), value));
            assert_maps_equal!(jpm_kview::<K, V>(m1), pre.as_map().insert(key, value), k2 => {
                lemma_encode_injective(k2, key);
            });
            assert(m0.insert(key.spec_encode(), value).dom() == m0.dom().insert(
                key.spec_encode(),
            ));
            assert(pre.as_map().insert(key, value).dom() == pre.as_map().dom().insert(key));
        }
        if evicted.is_none() {
            self.len = self.len + 1;
        }
        InsertResult::Success(evicted)
    }

    /// Removes an entry and books the length; returns the removed value.
    pub fn remove(&mut self, key: K) -> (r: RemoveResult<V>)
        requires
            old(self).wf(),
        ensures
            final(self).wf(),
            final(self).as_map() == old(self).as_map().remove(key),
            r == RemoveResult::Success(
                if old(self).as_map().contains_key(key) {
                    Some(old(self).as_map()[key])
                } else {
                    None::<V>
                },
            ),
    {
        let ghost pre = *self;
        let ghost m0 = ip_view(pre.head, K::spec_size());
        let bytes = key.into_bytes();
        proof {
            K::lemma_size();
            key.lemma_encode_len();
            assert(bytes@.skip(0) =~= key.spec_encode());
        }
        let evicted = self.head.remove(&bytes, 0);
        proof {
            let m1 = ip_view(self.head, K::spec_size());
            assert(m1 == m0.remove(key.spec_encode()));
            assert_maps_equal!(jpm_kview::<K, V>(m1), pre.as_map().remove(key), k2 => {
                lemma_encode_injective(k2, key);
            });
            assert(m0.remove(key.spec_encode()).dom() == m0.dom().remove(key.spec_encode()));
            assert(pre.as_map().remove(key).dom() == pre.as_map().dom().remove(key));
            if m0.contains_key(key.spec_encode()) {
                vstd::set::axiom_set_contains_len(m0.dom(), key.spec_encode());
                vstd::set::axiom_set_contains_len(pre.as_map().dom(), key);
            } else {
                assert(m0.remove(key.spec_encode()) =~= m0);
                assert(pre.as_map().remove(key) =~= pre.as_map());
            }
        }
        if evicted.is_some() {
            self.len = self.len - 1;
        }
        RemoveResult::Success(evicted)
    }

    /// The cached number of entries.
    pub fn count(&self) -> (r: usize)
        requires
            self.wf(),
        ensures
            r as nat == self.as_map().len(),
    {
        self.len
    }
}

} // verus!
