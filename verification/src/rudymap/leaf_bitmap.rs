//! The terminal node of the trie, reached at the last key byte: a 256-bit
//! occupancy bitmap (32 bytes) beside 256 value slots. A slot holds a value
//! exactly where its bit is set, so dropping the leaf drops exactly the
//! occupied slots.

use vstd::prelude::*;
use vstd::map::*;
use vstd::arithmetic::div_mod::lemma_fundamental_div_mod;
use crate::rudymap::results::{InsertResult, RemoveResult};

verus! {

/// Bit `b` of a 32-byte occupancy bitmap.
pub open spec fn lb_bit(keys: Seq<u8>, b: u8) -> bool {
    keys[b as int / 8] & (1u8 << (b % 8)) != 0
}

/// Setting bit `i` of a byte: how every bit of the result reads.
proof fn lemma_u8_bit_set(x: u8, i: u8)
    requires
        i < 8,
    ensures
        forall|j: u8|
            j < 8 ==> (((x | (1u8 << i)) & (1u8 << j)) != 0) == (j == i || (x & (1u8 << j)) != 0),
{
    assert(forall|j: u8|
        j < 8 && i < 8 ==> (((x | (1u8 << i)) & (1u8 << j)) != 0) == (j == i || (x & (1u8 << j))
            != 0)) by (bit_vector);
}

/// Clearing bit `i` of a byte: how every bit of the result reads.
proof fn lemma_u8_bit_clear(x: u8, i: u8)
    requires
        i < 8,
    ensures
        forall|j: u8|
            j < 8 ==> (((x & !(1u8 << i)) & (1u8 << j)) != 0) == (j != i && (x & (1u8 << j)) != 0),
{
    assert(forall|j: u8|
        j < 8 && i < 8 ==> (((x & !(1u8 << i)) & (1u8 << j)) != 0) == (j != i && (x & (1u8 << j))
            != 0)) by (bit_vector);
}

/// A zero byte has no bits set.
proof fn lemma_u8_zero_bits()
    ensures
        forall|j: u8| j < 8 ==> (0u8 & (1u8 << j)) == 0,
{
    assert(forall|j: u8| j < 8 ==> (0u8 & (1u8 << j)) == 0) by (bit_vector);
}

/// Two bytes with the same bitmap position are the same byte.
proof fn lemma_byte_pos_injective(b1: u8, b2: u8)
    requires
        b1 as int / 8 == b2 as int / 8,
        b1 as int % 8 == b2 as int % 8,
    ensures
        b1 == b2,
{
    lemma_fundamental_div_mod(b1 as int, 8);
    lemma_fundamental_div_mod(b2 as int, 8);
}

/// The last-byte leaf: bit `b` of `keys` is set exactly where slot `b` of
/// `values` holds a value.
pub struct LeafBitmap<V> {
    pub keys: Vec<u8>,
    pub values: Vec<Option<V>>,
}

impl<V> LeafBitmap<V> {
    /// The bitmap has 32 bytes, the buffer 256 slots, and the bitmap marks
    /// exactly the occupied slots.
    pub open spec fn wf(self) -> bool {
        &&& self.keys@.len() == 32
        &&& self.values@.len() == 256
        &&& forall|b: u8| lb_bit(self.keys@, b) <==> (#[trigger] self.values@[b as int]) is Some
    }

    /// The entries, as a map from one-byte key suffixes to values.
    pub open spec fn as_map(self) -> Map<Seq<u8>, V> {
        Map::new(
            |s: Seq<u8>| s.len() == 1 && self.values@[s[0] as int] is Some,
            |s: Seq<u8>| self.values@[s[0] as int].unwrap(),
        )
    }

    /// A fresh leaf with no occupied slots.
    pub fn new() -> (r: Self)
        ensures
            r.wf(),
            r.as_map() == Map::<Seq<u8>, V>::empty(),
    {
        let mut keys: Vec<u8> = Vec::new();
        let mut i: usize = 0;
        while i < 32
            invariant
                i <= 32,
                keys@.len() == i,
                forall|j: int| 0 <= j < i ==> keys@[j] == 0u8,
            decreases 32 - i,
        {
            keys.push(0u8);
            i = i + 1;
        }
        let mut values: Vec<Option<V>> = Vec::new();
        let mut j: usize = 0;
        while j < 256
            invariant
                j <= 256,
                values@.len() == j,
                forall|k: int| 0 <= k < j ==> values@[k] is None,
            decreases 256 - j,
        {
            values.push(None);
            j = j + 1;
        }
        let r = LeafBitmap { keys, values };
        proof {
            lemma_u8_zero_bits();
            assert(forall|b: u8| !lb_bit(r.keys@, b));
            assert(r.as_map() =~= Map::<Seq<u8>, V>::empty());
        }
        r
    }

    /// Looks up the value stored under `byte`, if any.
    pub fn get(&self, byte: u8) -> (r: Option<&V>)
        requires
            self.wf(),
        ensures
            r is Some <==> self.as_map().contains_key(seq![byte]),
            r matches Some(v) ==> *v == self.as_map()[seq![byte]],
    {
        let bidx = (byte / 8) as usize;
        let mask = 1u8 << (byte % 8);
        proof {
            assert(seq![byte][0] == byte);
        }
        if self.keys[bidx] & mask != 0 {
            match &self.values[byte as usize] {
                Some(v) => Some(v),
                None => {
                    proof {
                        assert(false);
                    }
                    None
                },
            }
        } else {
            None
        }
    }

    /// Mutably borrows the value stored under `byte`, if any; the borrow
    /// may overwrite the stored value in place.
    pub fn get_mut(&mut self, byte: u8) -> (r: Option<&mut V>)
        requires
            old(self).wf(),
        ensures
            !old(self).as_map().contains_key(seq![byte]) ==> r is None && *final(self) == *old(
                self,
            ),
            old(self).as_map().contains_key(seq![byte]) ==> {
                &&& r is Some
                &&& *r.unwrap() == old(self).as_map()[seq![byte]]
                &&& final(self).wf()
                &&& final(self).as_map() == old(self).as_map().insert(
                    seq![byte],
                    *final(r.unwrap()),
                )
            },
    {
        let ghost pre = *self;
        let bidx = (byte / 8) as usize;
        let mask = 1u8 << (byte % 8);
        proof {
            assert(seq![byte][0] == byte);
        }
        if self.keys[bidx] & mask != 0 {
            let slot = &mut self.values[byte as usize];
            let r = slot.as_mut();
            proof {
                let vf = *final(r.unwrap());
                let post = after_borrow(*self);
                assert(post.values@ == pre.values@.update(byte as int, Some(vf)));
                assert(post.keys@ == pre.keys@);
                assert forall|b: u8|
                    lb_bit(post.keys@, b) <==> (#[trigger] post.values@[b as int]) is Some by {
                    if b != byte {
                        assert(post.values@[b as int] == pre.values@[b as int]);
                    }
                }
                assert_maps_equal!(post.as_map(), pre.as_map().insert(seq![byte], vf), s => {
                    if s.len() == 1 && s != seq![byte] {
                        assert(s[0] != byte) by {
                            assert(seq![s[0]] =~= s);
                        }
                    }
                });
            }
            r
        } else {
            None
        }
    }

    /// Stores `value` under `byte`; an occupied slot is replaced in place
    /// and the old value is returned.
    pub fn insert(&mut self, byte: u8, value: V) -> (r: InsertResult<V>)
        requires
            old(self).wf(),
        ensures
            final(self).wf(),
            final(self).as_map() == old(self).as_map().insert(seq![byte], value),
            r == InsertResult::Success(
                if old(self).as_map().contains_key(seq![byte]) {
                    Some(old(self).as_map()[seq![byte]])
                } else {
                    None::<V>
                },
            ),
    {
        let ghost pre = *self;
        let bidx = (byte / 8) as usize;
        let mask = 1u8 << (byte % 8);
        proof {
            assert(seq![byte][0] == byte);
        }
        if self.keys[bidx] & mask != 0 {
            let mut tmp = Some(value);
            self.values.set_and_swap(byte as usize, &mut tmp);
            proof {
                assert forall|b: u8| lb_bit(self.keys@, b) <==> (#[trigger] self.values@[b as int]) is Some by {
                    if b != byte {
                        assert(self.values@[b as int] == pre.values@[b as int]);
                    }
                }
                assert_maps_equal!(self.as_map(), pre.as_map().insert(seq![byte], value), s => {
                    if s.len() == 1 && s != seq![byte] {
                        assert(s[0] != byte) by {
                            assert(seq![s[0]] =~= s);
                        }
                    }
                });
            }
            match tmp {
                Some(old_value) => InsertResult::Success(Some(old_value)),
                None => {
                    proof {
                        assert(false);
                    }
                    InsertResult::Success(None)
                },
            }
        } else {
            let cur = self.keys[bidx];
            self.keys.set(bidx, cur | mask);
            self.values.set(byte as usize, Some(value));
            proof {
                lemma_u8_bit_set(cur, byte % 8);
                assert forall|b: u8| lb_bit(self.keys@, b) <==> (#[trigger] self.values@[b as int]) is Some by {
                    if b as int / 8 == bidx as int {
                        if b % 8 == byte % 8 {
                            lemma_byte_pos_injective(b, byte);
                        }
                    } else {
                        assert(self.keys@[b as int / 8] == pre.keys@[b as int / 8]);
                    }
                }
                assert_maps_equal!(self.as_map(), pre.as_map().insert(seq![byte], value), s => {
                    if s.len() == 1 && s != seq![byte] {
                        assert(s[0] != byte) by {
                            assert(seq![s[0]] =~= s);
                        }
                    }
                });
            }
            InsertResult::Success(None)
        }
    }

    /// Takes the value stored under `byte` out of the leaf, if any.
    pub fn remove(&mut self, byte: u8) -> (r: RemoveResult<V>)
        requires
            old(self).wf(),
        ensures
            final(self).wf(),
            final(self).as_map() == old(self).as_map().remove(seq![byte]),
            r == RemoveResult::Success(
                if old(self).as_map().contains_key(seq![byte]) {
                    Some(old(self).as_map()[seq![byte]])
                } else {
                    None::<V>
                },
            ),
    {
        let ghost pre = *self;
        let bidx = (byte / 8) as usize;
        let mask = 1u8 << (byte % 8);
        proof {
            assert(seq![byte][0] == byte);
        }
        if self.keys[bidx] & mask != 0 {
            let mut tmp: Option<V> = None;
            self.values.set_and_swap(byte as usize, &mut tmp);
            let cur = self.keys[bidx];
            self.keys.set(bidx, cur & !mask);
            proof {
                lemma_u8_bit_clear(cur, byte % 8);
                assert forall|b: u8| lb_bit(self.keys@, b) <==> (#[trigger] self.values@[b as int]) is Some by {
                    if b as int / 8 == bidx as int {
                        if b % 8 == byte % 8 {
                            lemma_byte_pos_injective(b, byte);
                        } else {
                            assert(self.values@[b as int] == pre.values@[b as int]);
                        }
                    } else {
                        assert(self.keys@[b as int / 8] == pre.keys@[b as int / 8]);
                        assert(self.values@[b as int] == pre.values@[b as int]);
                    }
                }
                assert_maps_equal!(self.as_map(), pre.as_map().remove(seq![byte]), s => {
                    if s.len() == 1 && s != seq![byte] {
                        assert(s[0] != byte) by {
                            assert(seq![s[0]] =~= s);
                        }
                    }
                });
            }
            match tmp {
                Some(old_value) => RemoveResult::Success(Some(old_value)),
                None => {
                    proof {
                        assert(false);
                    }
                    RemoveResult::Success(None)
                },
            }
        } else {
            proof {
                assert_maps_equal!(self.as_map(), pre.as_map().remove(seq![byte]), s => {
                    if s.len() == 1 && s != seq![byte] {
                        assert(s[0] != byte) by {
                            assert(seq![s[0]] =~= s);
                        }
                    }
                });
            }
            RemoveResult::Success(None)
        }
    }
}

} // verus!
