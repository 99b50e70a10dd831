//! The smallest branch shape: up to seven (child byte, child pointer) pairs
//! in two lockstep arrays, the bytes kept sorted and scanned linearly.

use vstd::prelude::*;
use crate::rudymap::branch_bitmap::{lemma_pos32_injective, lemma_u32_zero_bits, sub_bit, BranchBitmap};
use crate::rudymap::innerptr::{ip_view, ip_wf, lemma_len0_empty, opt_view, sub_wf, InnerPtr};
use crate::util::locksteparray::LockstepArray;

verus! {

/// First position of `b` in `s`, or -1 when absent.
pub open spec fn first_index(s: Seq<u8>, b: u8) -> int
    decreases s.len(),
{
    if s.len() == 0 {
        -1
    } else if s[0] == b {
        0
    } else {
        let rest = first_index(s.skip(1), b);
        if rest < 0 {
            -1
        } else {
            rest + 1
        }
    }
}

/// What `first_index` finds: the first occurrence when present, nothing when
/// absent.
pub proof fn lemma_first_index(s: Seq<u8>, b: u8)
    ensures
        first_index(s, b) >= -1,
        first_index(s, b) >= 0 ==> first_index(s, b) < s.len() && s[first_index(s, b)] == b && (
        forall|j: int| 0 <= j < first_index(s, b) ==> s[j] != b),
        first_index(s, b) == -1 ==> (forall|j: int| 0 <= j < s.len() ==> s[j] != b),
    decreases s.len(),
{
    if s.len() == 0 {
    } else if s[0] == b {
    } else {
        lemma_first_index(s.skip(1), b);
        let rest = first_index(s.skip(1), b);
        assert(forall|j: int| 1 <= j < s.len() ==> s[j] == s.skip(1)[j - 1]);
    }
}

/// The pair registered under byte `b` in two lockstep sequences.
pub open spec fn pair_child<V>(s1: Seq<u8>, s2: Seq<InnerPtr<V>>, b: u8) -> Option<InnerPtr<V>> {
    let i = first_index(s1, b);
    if i >= 0 && i < s2.len() {
        Some(s2[i])
    } else {
        None
    }
}

/// `first_index` finds a position whose earlier entries all differ from `b`.
pub proof fn lemma_first_index_is(s: Seq<u8>, b: u8, i: int)
    requires
        0 <= i < s.len(),
        s[i] == b,
        forall|j: int| 0 <= j < i ==> s[j] != b,
    ensures
        first_index(s, b) == i,
{
    lemma_first_index(s, b);
    let fi = first_index(s, b);
    if fi == -1 {
        assert(s[i] != b);
    } else if fi < i {
        assert(s[fi] != b);
    } else if fi > i {
        assert(s[i] != b);
    }
}

/// Inserting a fresh byte at a position registers its pair and moves no
/// other byte's pair.
pub proof fn lemma_pair_child_insert<V>(
    s1: Seq<u8>,
    s2: Seq<InnerPtr<V>>,
    ins: int,
    b: u8,
    e: InnerPtr<V>,
)
    requires
        s1.len() == s2.len(),
        0 <= ins <= s1.len(),
        forall|j: int| 0 <= j < s1.len() ==> s1[j] != b,
    ensures
        first_index(s1.insert(ins, b), b) == ins,
        pair_child(s1.insert(ins, b), s2.insert(ins, e), b) == Some(e),
        forall|b2: u8|
            b2 != b ==> pair_child(s1.insert(ins, b), s2.insert(ins, e), b2) == pair_child(
                s1,
                s2,
                b2,
            ),
{
    let t1 = s1.insert(ins, b);
    let t2 = s2.insert(ins, e);
    assert(t1[ins] == b);
    lemma_first_index_is(t1, b, ins);
    assert(t2[ins] == e);
    assert forall|b2: u8| b2 != b implies pair_child(t1, t2, b2) == pair_child(s1, s2, b2) by {
        lemma_first_index(s1, b2);
        let fi = first_index(s1, b2);
        if fi == -1 {
            lemma_first_index(t1, b2);
            let fi2 = first_index(t1, b2);
            if fi2 >= 0 {
                assert(t1[fi2] == b2);
                if fi2 < ins {
                    assert(t1[fi2] == s1[fi2]);
                } else if fi2 == ins {
                    assert(t1[fi2] == b);
                } else {
                    assert(t1[fi2] == s1[fi2 - 1]);
                }
            }
        } else {
            let i2: int = if fi < ins {
                fi
            } else {
                fi + 1
            };
            assert(t1[i2] == b2);
            assert forall|j: int| 0 <= j < i2 implies t1[j] != b2 by {
                if j < ins {
                    assert(t1[j] == s1[j]);
                } else if j == ins {
                    assert(t1[j] == b);
                } else {
                    assert(t1[j] == s1[j - 1]);
                }
            }
            lemma_first_index_is(t1, b2, i2);
            assert(t2[i2] == s2[fi]);
        }
    }
}

/// Dropping the last pair of a duplicate-free table unregisters exactly its
/// byte.
pub proof fn lemma_pair_child_drop_last<V>(s1: Seq<u8>, s2: Seq<InnerPtr<V>>)
    requires
        s1.len() == s2.len(),
        s1.len() >= 1,
        forall|i: int, j: int| 0 <= i < j < s1.len() ==> s1[i] != s1[j],
    ensures
        pair_child(s1, s2, s1.last()) == Some(s2.last()),
        pair_child(s1.drop_last(), s2.drop_last(), s1.last()) == None::<InnerPtr<V>>,
        forall|b2: u8|
            b2 != s1.last() ==> pair_child(s1.drop_last(), s2.drop_last(), b2) == pair_child(
                s1,
                s2,
                b2,
            ),
{
    let last = s1.last();
    lemma_first_index_is(s1, last, s1.len() - 1);
    lemma_first_index(s1.drop_last(), last);
    let fd = first_index(s1.drop_last(), last);
    if fd >= 0 {
        assert(s1.drop_last()[fd] == s1[fd]);
    }
    assert forall|b2: u8| b2 != last implies pair_child(s1.drop_last(), s2.drop_last(), b2)
        == pair_child(s1, s2, b2) by {
        lemma_first_index(s1, b2);
        let fi = first_index(s1, b2);
        if fi == -1 {
            lemma_first_index(s1.drop_last(), b2);
            let fd2 = first_index(s1.drop_last(), b2);
            if fd2 >= 0 {
                assert(s1.drop_last()[fd2] == s1[fd2]);
            }
        } else {
            assert(fi < s1.len() - 1) by {
                assert(s1[fi] == b2);
            }
            assert(s1.drop_last()[fi] == b2);
            assert forall|j: int| 0 <= j < fi implies s1.drop_last()[j] != b2 by {
                assert(s1.drop_last()[j] == s1[j]);
            }
            lemma_first_index_is(s1.drop_last(), b2, fi);
        }
    }
}

/// A branch holding at most seven sorted (byte, child) pairs.
pub struct BranchLinear<V> {
    pub array: LockstepArray<u8, InnerPtr<V>, 7>,
}

impl<V> BranchLinear<V> {
    /// The child bytes are strictly ascending.
    pub open spec fn sorted(self) -> bool {
        forall|i: int, j: int|
            0 <= i < j < self.array.seq1().len() ==> self.array.seq1()[i] < self.array.seq1()[j]
    }

    /// The child registered under byte `b`, if any.
    pub open spec fn child(self, b: u8) -> Option<InnerPtr<V>> {
        pair_child(self.array.seq1(), self.array.seq2(), b)
    }

    /// A fresh branch with no children.
    pub fn new() -> (r: Self)
        ensures
            r.array.wf(),
            r.array.seq1() == Seq::<u8>::empty(),
            r.array.seq2() == Seq::<InnerPtr<V>>::empty(),
            r.sorted(),
            forall|b: u8| r.child(b) is None,
    {
        BranchLinear { array: LockstepArray::new() }
    }

    /// Drains the pairs into a fresh bitmap branch that registers the same
    /// subtrees; children emptied by earlier removals are dropped rather than
    /// re-registered.
    pub fn expand(self, Ghost(dc): Ghost<nat>) -> (r: BranchBitmap<V>)
        requires
            self.array.wf(),
            self.sorted(),
            forall|i: int|
                0 <= i < self.array.seq2().len() ==> ip_wf(#[trigger] self.array.seq2()[i], dc),
        ensures
            r.subexpanses@.len() == 8,
            forall|j: int| 0 <= j < 8 ==> sub_wf(#[trigger] r.subexpanses@[j], dc),
            forall|b: u8| opt_view(#[trigger] r.child(b), dc) == opt_view(self.child(b), dc),
    {
        let ghost orig1 = self.array.seq1();
        let ghost orig2 = self.array.seq2();
        proof {
            self.array.lemma_wf();
        }
        let mut bb = BranchBitmap::new();
        proof {
            lemma_u32_zero_bits();
            assert forall|j: int| 0 <= j < 8 implies sub_wf(#[trigger] bb.subexpanses@[j], dc) by {
                assert forall|i: u8| i < 32 implies !sub_bit(bb.subexpanses@[j].bitmap, i) by {
                    assert((0u32 & (1u32 << (i as u32))) == 0);
                }
            }
            assert(self.array.seq1() == orig1.take(orig1.len() as int));
            assert(self.array.seq2() == orig2.take(orig2.len() as int));
        }
        let mut arr = self.array;
        while arr.len() > 0
            invariant
                arr.wf(),
                orig1.len() == orig2.len(),
                arr.seq1().len() == arr.seq2().len(),
                arr.seq1().len() <= orig1.len(),
                arr.seq1() == orig1.take(arr.seq1().len() as int),
                arr.seq2() == orig2.take(arr.seq1().len() as int),
                forall|i: int, j: int| 0 <= i < j < orig1.len() ==> orig1[i] < orig1[j],
                forall|i: int| 0 <= i < orig2.len() ==> ip_wf(#[trigger] orig2[i], dc),
                bb.subexpanses@.len() == 8,
                forall|j: int| 0 <= j < 8 ==> sub_wf(#[trigger] bb.subexpanses@[j], dc),
                forall|b: u8|
                    first_index(arr.seq1(), b) >= 0 ==> opt_view(#[trigger] bb.child(b), dc)
                        == Map::<Seq<u8>, V>::empty() && pair_child(arr.seq1(), arr.seq2(), b)
                        == pair_child(orig1, orig2, b),
                forall|b: u8|
                    first_index(arr.seq1(), b) < 0 ==> opt_view(#[trigger] bb.child(b), dc)
                        == opt_view(pair_child(orig1, orig2, b), dc),
            decreases arr.seq1().len(),
        {
            let ghost pre1 = arr.seq1();
            let ghost pre2 = arr.seq2();
            let ghost bb0 = bb;
            let pair = arr.pop();
            match pair {
                Some((b, p)) => {
                    proof {
                        assert(pre2.last() == orig2[pre1.len() - 1]);
                        assert(ip_wf(p, dc));
                        assert forall|i: int, j: int| 0 <= i < j < pre1.len() implies pre1[i]
                            != pre1[j] by {
                            assert(pre1[i] == orig1[i] && pre1[j] == orig1[j]);
                        }
                        lemma_pair_child_drop_last::<V>(pre1, pre2);
                        lemma_first_index(pre1, b);
                        lemma_first_index_is(pre1, b, pre1.len() - 1);
                        assert(b as int / 32 < 8);
                    }
                    let pop_count = p.get_population();
                    if pop_count > 0 {
                        let ghost gp = p;
                        let se = &mut bb.subexpanses[(b / 32) as usize];
                        proof {
                            assert(sub_wf(bb0.subexpanses@[b as int / 32], dc));
                            if se.ptr is None {
                                assert forall|i: u8| i < 32 implies !sub_bit(se.bitmap, i) by {
                                    let slot = bb0.subexpanses@[b as int / 32].ptr.unwrap()@[
                                        i as int];
                                    assert(!(bb0.subexpanses@[b as int / 32].ptr is Some));
                                }
                            }
                        }
                        se.insert_ptr(b % 32, p);
                        proof {
                            assert(bb.subexpanses@ == bb0.subexpanses@.update(
                                b as int / 32,
                                bb.subexpanses@[b as int / 32],
                            ));
                            assert(bb.child(b) == Some(gp));
                            assert forall|b2: u8| b2 != b implies #[trigger] bb.child(b2)
                                == bb0.child(b2) by {
                                if b2 as int / 32 == b as int / 32 {
                                    if b2 % 32 == b % 32 {
                                        lemma_pos32_injective(b2, b);
                                    }
                                } else {
                                    assert(bb.subexpanses@[b2 as int / 32] == bb0.subexpanses@[
                                        b2 as int / 32]);
                                }
                            }
                        }
                    } else {
                        proof {
                            assert(ip_view(p, dc).len() == 0);
                            lemma_len0_empty(ip_view(p, dc));
                            assert(first_index(pre1, b) == pre1.len() - 1 >= 0);
                            assert(opt_view(bb.child(b), dc) == Map::<Seq<u8>, V>::empty());
                        }
                    }
                    proof {
                        assert forall|b2: u8| first_index(arr.seq1(), b2) >= 0 implies opt_view(
                            #[trigger] bb.child(b2),
                            dc,
                        ) == Map::<Seq<u8>, V>::empty() && pair_child(arr.seq1(), arr.seq2(), b2)
                            == pair_child(orig1, orig2, b2) by {
                            assert(arr.seq1() == pre1.drop_last());
                            assert(arr.seq2() == pre2.drop_last());
                            assert(b2 != b) by {
                                lemma_first_index(arr.seq1(), b2);
                                let fi = first_index(arr.seq1(), b2);
                                assert(arr.seq1()[fi] == b2);
                                assert(arr.seq1()[fi] == pre1[fi]);
                                if b2 == b {
                                    assert(pre1[fi] == pre1[pre1.len() - 1]);
                                }
                            }
                            assert(first_index(pre1, b2) >= 0) by {
                                lemma_first_index(arr.seq1(), b2);
                                let fi = first_index(arr.seq1(), b2);
                                assert(pre1[fi] == b2);
                                lemma_first_index(pre1, b2);
                                if first_index(pre1, b2) == -1 {
                                    assert(pre1[fi] != b2);
                                }
                            }
                            assert(bb.child(b2) == bb0.child(b2));
                        }
                        assert forall|b2: u8| first_index(arr.seq1(), b2) < 0 implies opt_view(
                            #[trigger] bb.child(b2),
                            dc,
                        ) == opt_view(pair_child(orig1, orig2, b2), dc) by {
                            assert(arr.seq1() == pre1.drop_last());
                            assert(arr.seq2() == pre2.drop_last());
                            if b2 == b {
                                assert(pair_child(pre1, pre2, b) == Some(pre2.last()));
                                assert(pair_child(orig1, orig2, b) == Some(pre2.last()));
                            } else {
                                assert(first_index(pre1, b2) < 0) by {
                                    lemma_first_index(pre1, b2);
                                    if first_index(pre1, b2) >= 0 {
                                        let fi = first_index(pre1, b2);
                                        assert(pre1[fi] == b2);
                                        assert(fi < pre1.len() - 1) by {
                                            if fi == pre1.len() - 1 {
                                                assert(pre1[fi] == b);
                                            }
                                        }
                                        assert(arr.seq1()[fi] == b2);
                                        lemma_first_index(arr.seq1(), b2);
                                        if first_index(arr.seq1(), b2) == -1 {
                                            assert(arr.seq1()[fi] != b2);
                                        }
                                    }
                                }
                                assert(bb.child(b2) == bb0.child(b2));
                            }
                        }
                    }
                },
                None => {
                    proof {
                        assert(false);
                    }
                },
            }
        }
        proof {
            assert forall|b: u8| opt_view(#[trigger] bb.child(b), dc) == opt_view(
                self.child(b),
                dc,
            ) by {
                assert(arr.seq1().len() == 0);
                assert(first_index(arr.seq1(), b) == -1);
                assert(self.child(b) == pair_child(orig1, orig2, b));
            }
        }
        bb
    }
}

} // verus!
