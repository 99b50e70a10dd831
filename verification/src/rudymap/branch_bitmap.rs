//! The bitmap branch: the 256 possible child bytes split into eight
//! subexpanses of 32, each with a 32-bit occupancy bitmap and a lazily
//! allocated block of 32 child pointers. The shape has room for every
//! possible child, so it never asks to be resized itself; promotion to the
//! uncompressed branch is a density heuristic left unset here, so the
//! bitmap branch is the terminal branch shape of the growth ladder.

use vstd::prelude::*;
use vstd::arithmetic::div_mod::lemma_fundamental_div_mod;
use crate::rudymap::innerptr::{ip_view, ip_wf, lemma_len0_empty, opt_view, sub_wf, InnerPtr};
use crate::rudymap::results::{InsertResult, RemoveResult};

verus! {

/// Two bytes with the same subexpanse and the same slot are the same byte.
pub proof fn lemma_pos32_injective(b1: u8, b2: u8)
    requires
        b1 as int / 32 == b2 as int / 32,
        b1 % 32 == b2 % 32,
    ensures
        b1 == b2,
{
    lemma_fundamental_div_mod(b1 as int, 32);
    lemma_fundamental_div_mod(b2 as int, 32);
}

/// Bit `i` of a subexpanse bitmap.
pub open spec fn sub_bit(bitmap: u32, i: u8) -> bool {
    bitmap & (1u32 << (i as u32)) != 0
}

/// Setting bit `i` of a bitmap: how every bit of the result reads.
pub proof fn lemma_u32_bit_set(x: u32, i: u32)
    requires
        i < 32,
    ensures
        forall|j: u32|
            j < 32 ==> (((x | (1u32 << i)) & (1u32 << j)) != 0) == (j == i || (x & (1u32 << j))
                != 0),
{
    assert(forall|j: u32|
        j < 32 && i < 32 ==> (((x | (1u32 << i)) & (1u32 << j)) != 0) == (j == i || (x & (1u32
            << j)) != 0)) by (bit_vector);
}

/// Clearing bit `i` of a bitmap: how every bit of the result reads.
pub proof fn lemma_u32_bit_clear(x: u32, i: u32)
    requires
        i < 32,
    ensures
        forall|j: u32|
            j < 32 ==> (((x & !(1u32 << i)) & (1u32 << j)) != 0) == (j != i && (x & (1u32 << j))
                != 0),
{
    assert(forall|j: u32|
        j < 32 && i < 32 ==> (((x & !(1u32 << i)) & (1u32 << j)) != 0) == (j != i && (x & (1u32
            << j)) != 0)) by (bit_vector);
}

/// A zero bitmap has no bits set.
pub proof fn lemma_u32_zero_bits()
    ensures
        forall|j: u32| j < 32 ==> (0u32 & (1u32 << j)) == 0,
{
    assert(forall|j: u32| j < 32 ==> (0u32 & (1u32 << j)) == 0) by (bit_vector);
}

/// One slice of 32 child slots: slot `i` is live exactly where bit `i` of
/// the bitmap is set; the pointer block is allocated on first use.
pub struct Subexpanse<V> {
    pub bitmap: u32,
    pub ptr: Option<Vec<InnerPtr<V>>>,
}

impl<V> Subexpanse<V> {
    /// The live child in slot `i`, if its bit is set.
    pub open spec fn child(self, i: u8) -> Option<InnerPtr<V>> {
        if sub_bit(self.bitmap, i) && self.ptr is Some {
            Some(self.ptr.unwrap()@[i as int])
        } else {
            None
        }
    }

    pub fn default() -> (r: Self)
        ensures
            r.bitmap == 0,
            r.ptr is None,
            forall|i: u8| r.child(i) is None,
    {
        Subexpanse { bitmap: 0, ptr: None }
    }

    /// Makes sure the pointer block is allocated, with empty slots where no
    /// entry has been stored yet.
    fn ensure_block(&mut self)
        requires
            old(self).ptr is None ==> (forall|i: u8| i < 32 ==> !sub_bit(old(self).bitmap, i)),
            old(self).ptr matches Some(v) ==> v@.len() == 32,
        ensures
            final(self).bitmap == old(self).bitmap,
            final(self).ptr is Some,
            final(self).ptr.unwrap()@.len() == 32,
            forall|i: u8| i < 32 ==> final(self).child(i) == old(self).child(i),
            old(self).ptr is Some ==> *final(self) == *old(self),
            old(self).ptr is None ==> (forall|i: int|
                0 <= i < 32 ==> (#[trigger] final(self).ptr.unwrap()@[i]).node is Empty && (forall|
                    d: nat,
                | ip_wf(final(self).ptr.unwrap()@[i], d))),
            forall|dc: nat| sub_wf(*old(self), dc) ==> sub_wf(*final(self), dc),
    {
        if self.ptr.is_none() {
            let ghost pre = *self;
            let mut block: Vec<InnerPtr<V>> = Vec::new();
            let mut i: usize = 0;
            while i < 32
                invariant
                    i <= 32,
                    block@.len() == i,
                    forall|k: int|
                        0 <= k < i ==> (#[trigger] block@[k]).node is Empty && (forall|d: nat|
                            ip_wf(block@[k], d)),
                decreases 32 - i,
            {
                block.push(InnerPtr::empty());
                i = i + 1;
            }
            self.ptr = Some(block);
            proof {
                assert forall|i2: u8| i2 < 32 implies self.child(i2) == pre.child(i2) by {
                    assert(!sub_bit(pre.bitmap, i2));
                }
                assert forall|dc: nat| sub_wf(pre, dc) implies sub_wf(*self, dc) by {
                    assert forall|i2: u8| i2 < 32 implies (sub_bit(self.bitmap, i2) <==> (
                    self.ptr is Some && ip_view(#[trigger] self.ptr.unwrap()@[i2 as int], dc).len()
                        > 0)) by {
                        assert(!sub_bit(pre.bitmap, i2));
                        assert(self.ptr.unwrap()@[i2 as int].node is Empty);
                        assert(ip_view(self.ptr.unwrap()@[i2 as int], dc) == Map::<Seq<u8>, V>::empty());
                    }
                    assert forall|i2: int| 0 <= i2 < 32 implies ip_wf(
                        #[trigger] self.ptr.unwrap()@[i2],
                        dc,
                    ) by {}
                }
            }
        }
    }

    /// Stores a prepared child pointer in slot `sub_byte` and marks its bit;
    /// the slot must not already hold a live subtree.
    pub fn insert_ptr(&mut self, sub_byte: u8, ptr: InnerPtr<V>)
        requires
            sub_byte < 32,
            old(self).ptr is None ==> (forall|i: u8| i < 32 ==> !sub_bit(old(self).bitmap, i)),
            old(self).ptr matches Some(v) ==> v@.len() == 32,
        ensures
            final(self).child(sub_byte) == Some(ptr),
            forall|i: u8| i < 32 && i != sub_byte ==> final(self).child(i) == old(self).child(i),
            forall|dc: nat|
                (sub_wf(*old(self), dc) && ip_wf(ptr, dc) && ip_view(ptr, dc).len() > 0) ==> sub_wf(
                    *final(self),
                    dc,
                ),
    {
        let ghost pre = *self;
        self.ensure_block();
        let ghost mid = *self;
        let block = self.ptr.as_mut().unwrap();
        block.set(sub_byte as usize, ptr);
        let cur = self.bitmap;
        self.bitmap = cur | (1u32 << (sub_byte as u32));
        proof {
            lemma_u32_bit_set(cur, sub_byte as u32);
            assert(sub_bit(self.bitmap, sub_byte));
            assert(self.child(sub_byte) == Some(ptr));
            assert forall|i: u8| i < 32 && i != sub_byte implies self.child(i) == pre.child(i) by {
                assert(sub_bit(self.bitmap, i) == sub_bit(mid.bitmap, i));
                assert(mid.child(i) == pre.child(i));
            }
            assert forall|dc: nat|
                (sub_wf(pre, dc) && ip_wf(ptr, dc) && ip_view(ptr, dc).len() > 0) implies sub_wf(
                *self,
                dc,
            ) by {
                assert(sub_wf(mid, dc));
                assert forall|i: int| 0 <= i < 32 implies ip_wf(
                    #[trigger] self.ptr.unwrap()@[i],
                    dc,
                ) by {
                    if i != sub_byte as int {
                        assert(self.ptr.unwrap()@[i] == mid.ptr.unwrap()@[i]);
                    }
                }
                assert forall|i: u8| i < 32 implies (sub_bit(self.bitmap, i) <==> (self.ptr is Some
                    && ip_view(#[trigger] self.ptr.unwrap()@[i as int], dc).len() > 0)) by {
                    if i != sub_byte {
                        assert(self.ptr.unwrap()@[i as int] == mid.ptr.unwrap()@[i as int]);
                        assert(sub_bit(self.bitmap, i) == sub_bit(mid.bitmap, i));
                    }
                }
            }
        }
    }

    /// Inserts the rest of the key below slot `sub_byte`, allocating the
    /// pointer block on first use; `at` points at the first byte after the
    /// one this subexpanse consumed.
    pub fn insert(&mut self, sub_byte: u8, bytes: &Vec<u8>, at: usize, value: V) -> (r:
        InsertResult<V>)
        requires
            sub_byte < 32,
            at < bytes@.len(),
            bytes@.len() <= usize::MAX,
            sub_wf(*old(self), (bytes@.len() - at) as nat),
            opt_view(old(self).child(sub_byte), (bytes@.len() - at) as nat).len() + 1
                < 0x100000000000000,
            opt_view(old(self).child(sub_byte), (bytes@.len() - at) as nat).len() < usize::MAX,
        ensures
            ({
                let dc = (bytes@.len() - at) as nat;
                let k = bytes@.skip(at as int);
                let m = opt_view(old(self).child(sub_byte), dc);
                &&& sub_wf(*final(self), dc)
                &&& opt_view(final(self).child(sub_byte), dc) == m.insert(k, value)
                &&& (forall|i: u8|
                    i < 32 && i != sub_byte ==> final(self).child(i) == old(self).child(i))
                &&& r == InsertResult::Success(
                    if m.contains_key(k) {
                        Some(m[k])
                    } else {
                        None::<V>
                    },
                )
            }),
        decreases bytes@.len() - at, 4int,
    {
        let ghost dc = (bytes@.len() - at) as nat;
        let ghost k = bytes@.skip(at as int);
        let ghost pre = *self;
        proof {
            if pre.ptr is None {
                assert forall|i: u8| i < 32 implies !sub_bit(pre.bitmap, i) by {
                    let slot = pre.ptr.unwrap()@[i as int];
                    assert(!(pre.ptr is Some));
                }
            }
        }
        self.ensure_block();
        let ghost mid = *self;
        proof {
            assert(ip_wf(mid.ptr.unwrap()@[sub_byte as int], dc));
            if !sub_bit(mid.bitmap, sub_byte) {
                // an unmarked slot holds no entries
                assert(ip_view(mid.ptr.unwrap()@[sub_byte as int], dc).len() == 0);
                lemma_len0_empty(ip_view(mid.ptr.unwrap()@[sub_byte as int], dc));
            }
            assert(ip_view(mid.ptr.unwrap()@[sub_byte as int], dc) == opt_view(
                pre.child(sub_byte),
                dc,
            ));
        }
        let block = self.ptr.as_mut().unwrap();
        let child = &mut block[sub_byte as usize];
        let evicted = child.insert(bytes, at, value);
        let cur = self.bitmap;
        self.bitmap = cur | (1u32 << (sub_byte as u32));
        proof {
            lemma_u32_bit_set(cur, sub_byte as u32);
            assert(sub_bit(self.bitmap, sub_byte));
            let slot = self.ptr.unwrap()@[sub_byte as int];
            assert(ip_view(slot, dc) == opt_view(pre.child(sub_byte), dc).insert(k, value));
            assert(self.child(sub_byte) == Some(slot));
            assert forall|i: u8| i < 32 && i != sub_byte implies self.child(i) == pre.child(i) by {
                assert(sub_bit(self.bitmap, i) == sub_bit(mid.bitmap, i));
                assert(self.ptr.unwrap()@[i as int] == mid.ptr.unwrap()@[i as int]);
                assert(mid.child(i) == pre.child(i));
            }
            assert(sub_wf(*self, dc)) by {
                assert(sub_wf(mid, dc));
                assert forall|i: int| 0 <= i < 32 implies ip_wf(
                    #[trigger] self.ptr.unwrap()@[i],
                    dc,
                ) by {
                    if i != sub_byte as int {
                        assert(self.ptr.unwrap()@[i] == mid.ptr.unwrap()@[i]);
                    }
                }
                assert forall|i: u8| i < 32 implies (sub_bit(self.bitmap, i) <==> (self.ptr is Some
                    && ip_view(#[trigger] self.ptr.unwrap()@[i as int], dc).len() > 0)) by {
                    if i == sub_byte {
                        assert(ip_view(self.ptr.unwrap()@[i as int], dc).contains_key(k));
                        vstd::set::axiom_set_contains_len(
                            ip_view(self.ptr.unwrap()@[i as int], dc).dom(),
                            k,
                        );
                    } else {
                        assert(self.ptr.unwrap()@[i as int] == mid.ptr.unwrap()@[i as int]);
                        assert(sub_bit(self.bitmap, i) == sub_bit(mid.bitmap, i));
                    }
                }
            }
        }
        InsertResult::Success(evicted)
    }

    /// Mutably borrows the value under the rest of the key below slot
    /// `sub_byte`, if any; `at` points at the first byte after the one this
    /// subexpanse consumed.
    pub fn get_mut(&mut self, sub_byte: u8, bytes: &Vec<u8>, at: usize) -> (r: Option<&mut V>)
        requires
            sub_byte < 32,
            at < bytes@.len(),
            bytes@.len() <= usize::MAX,
            sub_wf(*old(self), (bytes@.len() - at) as nat),
        ensures
            ({
                let dc = (bytes@.len() - at) as nat;
                let k = bytes@.skip(at as int);
                let m = opt_view(old(self).child(sub_byte), dc);
                &&& (!m.contains_key(k) ==> {
                    &&& r is None
                    &&& sub_wf(*final(self), dc)
                    &&& (forall|i: u8|
                        i < 32 ==> opt_view(#[trigger] final(self).child(i), dc) == opt_view(
                            old(self).child(i),
                            dc,
                        ))
                })
                &&& (m.contains_key(k) ==> {
                    &&& r is Some
                    &&& *r.unwrap() == m[k]
                    &&& sub_wf(*final(self), dc)
                    &&& opt_view(final(self).child(sub_byte), dc) == m.insert(
                        k,
                        *final(r.unwrap()),
                    )
                    &&& (forall|i: u8|
                        i < 32 && i != sub_byte ==> final(self).child(i) == old(self).child(i))
                })
            }),
        decreases bytes@.len() - at, 2int,
    {
        let ghost dc = (bytes@.len() - at) as nat;
        let ghost k = bytes@.skip(at as int);
        let ghost pre = *self;
        if self.bitmap & (1u32 << (sub_byte as u32)) == 0 {
            proof {
                assert(pre.child(sub_byte) is None);
            }
            return None;
        }
        proof {
            let slot = pre.ptr.unwrap()@[sub_byte as int];
            assert(pre.ptr is Some);
            assert(ip_wf(slot, dc));
        }
        let block = self.ptr.as_mut().unwrap();
        let child = &mut block[sub_byte as usize];
        let r = child.get_mut(bytes, at);
        proof {
            let m = opt_view(pre.child(sub_byte), dc);
            let cf = after_borrow(*child);
            let post = after_borrow(*self);
            assert(post.bitmap == pre.bitmap);
            assert(post.ptr is Some);
            assert(post.ptr.unwrap()@ == pre.ptr.unwrap()@.update(sub_byte as int, cf));
            assert forall|i: u8| i < 32 && i != sub_byte implies post.child(i) == pre.child(i) by {
                assert(post.ptr.unwrap()@[i as int] == pre.ptr.unwrap()@[i as int]);
            }
            if m.contains_key(k) {
                let vf = *final(r.unwrap());
                assert(ip_view(cf, dc) == m.insert(k, vf));
                assert(ip_view(cf, dc).dom() =~= m.dom());
                assert(post.child(sub_byte) == Some(cf));
            } else {
                assert(ip_view(cf, dc) == m);
                assert(post.child(sub_byte) == Some(cf));
            }
            assert(sub_wf(post, dc)) by {
                assert forall|i: int| 0 <= i < 32 implies ip_wf(
                    #[trigger] post.ptr.unwrap()@[i],
                    dc,
                ) by {
                    if i != sub_byte as int {
                        assert(post.ptr.unwrap()@[i] == pre.ptr.unwrap()@[i]);
                    }
                }
                assert forall|i: u8| i < 32 implies (sub_bit(post.bitmap, i) <==> (post.ptr is Some
                    && ip_view(#[trigger] post.ptr.unwrap()@[i as int], dc).len() > 0)) by {
                    if i != sub_byte {
                        assert(post.ptr.unwrap()@[i as int] == pre.ptr.unwrap()@[i as int]);
                    } else {
                        assert(ip_view(post.ptr.unwrap()@[i as int], dc).len() == ip_view(
                            pre.ptr.unwrap()@[i as int],
                            dc,
                        ).len());
                    }
                }
            }
        }
        r
    }

    /// Removes the rest of the key below slot `sub_byte`, clearing the bit
    /// when the subtree in the slot becomes empty; `at` points at the first
    /// byte after the one this subexpanse consumed.
    pub fn remove(&mut self, sub_byte: u8, bytes: &Vec<u8>, at: usize) -> (r: RemoveResult<V>)
        requires
            sub_byte < 32,
            at < bytes@.len(),
            bytes@.len() <= usize::MAX,
            sub_wf(*old(self), (bytes@.len() - at) as nat),
        ensures
            ({
                let dc = (bytes@.len() - at) as nat;
                let k = bytes@.skip(at as int);
                let m = opt_view(old(self).child(sub_byte), dc);
                &&& sub_wf(*final(self), dc)
                &&& opt_view(final(self).child(sub_byte), dc) == m.remove(k)
                &&& (forall|i: u8|
                    i < 32 && i != sub_byte ==> final(self).child(i) == old(self).child(i))
                &&& r == RemoveResult::Success(
                    if m.contains_key(k) {
                        Some(m[k])
                    } else {
                        None::<V>
                    },
                )
            }),
        decreases bytes@.len() - at, 4int,
    {
        let ghost dc = (bytes@.len() - at) as nat;
        let ghost k = bytes@.skip(at as int);
        let ghost pre = *self;
        if self.bitmap & (1u32 << (sub_byte as u32)) == 0 {
            proof {
                assert(pre.child(sub_byte) is None);
                assert(opt_view(pre.child(sub_byte), dc).remove(k) =~= opt_view(
                    pre.child(sub_byte),
                    dc,
                ));
            }
            return RemoveResult::Success(None);
        }
        proof {
            let slot = pre.ptr.unwrap()@[sub_byte as int];
            assert(pre.ptr is Some);
            assert(ip_wf(slot, dc));
        }
        let block = self.ptr.as_mut().unwrap();
        let child = &mut block[sub_byte as usize];
        let ev = child.remove(bytes, at);
        let child_pop = child.get_population();
        let ghost midslot = *child;
        if child_pop == 0 {
            let cur = self.bitmap;
            self.bitmap = cur & !(1u32 << (sub_byte as u32));
            proof {
                lemma_u32_bit_clear(cur, sub_byte as u32);
            }
        }
        proof {
            assert(self.ptr.unwrap()@ == pre.ptr.unwrap()@.update(sub_byte as int, midslot));
            assert(self.child(sub_byte) == if sub_bit(self.bitmap, sub_byte) {
                Some(midslot)
            } else {
                None::<InnerPtr<V>>
            });
            if child_pop == 0 {
                lemma_len0_empty(ip_view(midslot, dc));
                assert(opt_view(self.child(sub_byte), dc) =~= ip_view(midslot, dc));
            }
            assert(opt_view(self.child(sub_byte), dc) == opt_view(pre.child(sub_byte), dc).remove(
                k,
            ));
            assert forall|i: u8| i < 32 && i != sub_byte implies self.child(i) == pre.child(i) by {
                assert(self.ptr.unwrap()@[i as int] == pre.ptr.unwrap()@[i as int]);
                assert(sub_bit(self.bitmap, i) == sub_bit(pre.bitmap, i));
            }
            assert(sub_wf(*self, dc)) by {
                assert forall|i: int| 0 <= i < 32 implies ip_wf(
                    #[trigger] self.ptr.unwrap()@[i],
                    dc,
                ) by {
                    if i != sub_byte as int {
                        assert(self.ptr.unwrap()@[i] == pre.ptr.unwrap()@[i]);
                    }
                }
                assert forall|i: u8| i < 32 implies (sub_bit(self.bitmap, i) <==> (self.ptr is Some
                    && ip_view(#[trigger] self.ptr.unwrap()@[i as int], dc).len() > 0)) by {
                    if i == sub_byte {
                        assert(midslot.pop.spec_val() == ip_view(midslot, dc).len());
                    } else {
                        assert(self.ptr.unwrap()@[i as int] == pre.ptr.unwrap()@[i as int]);
                        assert(sub_bit(self.bitmap, i) == sub_bit(pre.bitmap, i));
                    }
                }
            }
        }
        RemoveResult::Success(ev)
    }

    /// Looks up the rest of the key below slot `sub_byte`; `at` points at
    /// the first byte after the one this subexpanse consumed.
    pub fn get<'a>(&'a self, sub_byte: u8, bytes: &Vec<u8>, at: usize) -> (r: Option<&'a V>)
        requires
            sub_byte < 32,
            at < bytes@.len(),
            bytes@.len() <= usize::MAX,
            sub_wf(*self, (bytes@.len() - at) as nat),
        ensures
            ({
                let m = opt_view(self.child(sub_byte), (bytes@.len() - at) as nat);
                let k = bytes@.skip(at as int);
                &&& (r is Some <==> m.contains_key(k))
                &&& (r matches Some(v) ==> *v == m[k])
            }),
        decreases bytes@.len() - at, 2int,
    {
        if self.bitmap & (1u32 << (sub_byte as u32)) != 0 {
            match &self.ptr {
                Some(block) => {
                    let child = &block[sub_byte as usize];
                    child.get(bytes, at)
                },
                None => {
                    proof {
                        let slot = self.ptr.unwrap()@[sub_byte as int];
                        assert(false);
                    }
                    None
                },
            }
        } else {
            None
        }
    }
}

/// The bitmap branch over all 256 child bytes.
pub struct BranchBitmap<V> {
    pub subexpanses: Vec<Subexpanse<V>>,
}

impl<V> BranchBitmap<V> {
    /// The child registered under byte `b`, if any.
    pub open spec fn child(self, b: u8) -> Option<InnerPtr<V>> {
        self.subexpanses@[b as int / 32].child(b % 32)
    }

    /// A fresh branch with all 256 slots empty and no blocks allocated.
    pub fn new() -> (r: Self)
        ensures
            r.subexpanses@.len() == 8,
            forall|j: int| 0 <= j < 8 ==> (#[trigger] r.subexpanses@[j]).bitmap == 0
                && r.subexpanses@[j].ptr is None,
            forall|b: u8| r.child(b) is None,
    {
        let mut subexpanses: Vec<Subexpanse<V>> = Vec::new();
        let mut j: usize = 0;
        while j < 8
            invariant
                j <= 8,
                subexpanses@.len() == j,
                forall|k: int| 0 <= k < j ==> (#[trigger] subexpanses@[k]).bitmap == 0
                    && subexpanses@[k].ptr is None,
            decreases 8 - j,
        {
            subexpanses.push(Subexpanse::default());
            j = j + 1;
        }
        BranchBitmap { subexpanses }
    }
}

} // verus!
