//! The tagged root: one word of state that discriminates among the five
//! root shapes and dispatches every operation to the current one. On a
//! `Resize` the root consumes its node, expands it into the next shape of
//! the ladder and finishes the insert there; on a `Downsize` it rebuilds the
//! node one shape down and the removed value comes out of the rebuild.

use vstd::prelude::*;
use vstd::map::*;
use crate::key::Key;
use crate::rudymap::jpm::Jpm;
use crate::rudymap::results::{InsertResult, RemoveResult};
use crate::rudymap::root_leaf::{pairs_map, lemma_pairs_map, Empty, Leaf1, Leaf2, VecLeaf};

verus! {

/// The five root shapes, in the order of the growth ladder.
pub enum RootShape {
    Empty,
    Leaf1,
    Leaf2,
    VecLeaf,
    Jpm,
}

/// The shape a root of shape `s` with `len` entries grows into when a fresh
/// key arrives.
pub open spec fn next_shape(s: RootShape, len: nat) -> RootShape {
    match s {
        RootShape::Empty => RootShape::Leaf1,
        RootShape::Leaf1 => RootShape::Leaf2,
        RootShape::Leaf2 => RootShape::VecLeaf,
        RootShape::VecLeaf => if len < 31 {
            RootShape::VecLeaf
        } else {
            RootShape::Jpm
        },
        RootShape::Jpm => RootShape::Jpm,
    }
}

/// The shape a root of shape `s` shrinks into when a present key is removed.
pub open spec fn prev_shape(s: RootShape) -> RootShape {
    match s {
        RootShape::Empty => RootShape::Empty,
        RootShape::Leaf1 => RootShape::Empty,
        RootShape::Leaf2 => RootShape::Leaf1,
        RootShape::VecLeaf => RootShape::VecLeaf,
        RootShape::Jpm => RootShape::Jpm,
    }
}

/// The root of the map: the current shape and its node.
pub enum RootPtr<K: Key, V> {
    Empty(Empty<K, V>),
    Leaf1(Box<Leaf1<K, V>>),
    Leaf2(Box<Leaf2<K, V>>),
    VecLeaf(Box<VecLeaf<K, V>>),
    Jpm(Box<Jpm<K, V>>),
}

impl<K: Key, V> RootPtr<K, V> {
    /// The entries below the root.
    pub open spec fn as_map(self) -> Map<K, V> {
        match self {
            RootPtr::Empty(e) => e.as_map(),
            RootPtr::Leaf1(l) => l.as_map(),
            RootPtr::Leaf2(l) => l.as_map(),
            RootPtr::VecLeaf(v) => v.as_map(),
            RootPtr::Jpm(j) => j.as_map(),
        }
    }

    /// The current shape's own invariant.
    pub open spec fn wf(self) -> bool {
        match self {
            RootPtr::Empty(_) => true,
            RootPtr::Leaf1(_) => true,
            RootPtr::Leaf2(l) => l.wf(),
            RootPtr::VecLeaf(v) => v.wf(),
            RootPtr::Jpm(j) => j.wf(),
        }
    }

    /// The current shape tag.
    pub open spec fn shape(self) -> RootShape {
        match self {
            RootPtr::Empty(_) => RootShape::Empty,
            RootPtr::Leaf1(_) => RootShape::Leaf1,
            RootPtr::Leaf2(_) => RootShape::Leaf2,
            RootPtr::VecLeaf(_) => RootShape::VecLeaf,
            RootPtr::Jpm(_) => RootShape::Jpm,
        }
    }

    /// The empty root; no allocations.
    pub fn empty() -> (r: Self)
        ensures
            r.wf(),
            r.as_map() == Map::<K, V>::empty(),
            r.shape() == RootShape::Empty,
    {
        RootPtr::Empty(Empty::new())
    }

    pub fn get(&self, key: K) -> (r: Option<&V>)
        requires
            self.wf(),
        ensures
            r is Some <==> self.as_map().contains_key(key),
            r matches Some(v) ==> *v == self.as_map()[key],
    {
        match self {
            RootPtr::Empty(e) => e.get(key),
            RootPtr::Leaf1(l) => l.get(key),
            RootPtr::Leaf2(l) => l.get(key),
            RootPtr::VecLeaf(v) => v.get(key),
            RootPtr::Jpm(j) => j.get(key),
        }
    }

    pub fn len(&self) -> (r: usize)
        requires
            self.wf(),
        ensures
            r as nat == self.as_map().len(),
    {
        match self {
            RootPtr::Empty(e) => e.len(),
            RootPtr::Leaf1(l) => l.len(),
            RootPtr::Leaf2(l) => l.len(),
            RootPtr::VecLeaf(v) => {
                proof {
                    v.array.lemma_wf();
                }
                v.len()
            },
            RootPtr::Jpm(j) => j.count(),
        }
    }

    /// Mutably borrows the value under `key`, if any; the borrow may
    /// overwrite the stored value in place, and the shape is unchanged.
    pub fn get_mut(&mut self, key: K) -> (r: Option<&mut V>)
        requires
            old(self).wf(),
        ensures
            final(self).shape() == old(self).shape(),
            !old(self).as_map().contains_key(key) ==> {
                &&& r is None
                &&& final(self).wf()
                &&& final(self).as_map() == old(self).as_map()
            },
            old(self).as_map().contains_key(key) ==> {
                &&& r is Some
                &&& *r.unwrap() == old(self).as_map()[key]
                &&& final(self).wf()
                &&& final(self).as_map() == old(self).as_map().insert(key, *final(r.unwrap()))
            },
    {
        let ghost pre = *self;
        match self {
            RootPtr::Empty(e) => {
                let r = e.get_mut(key);
                proof {
                    let post = after_borrow(*self);
                    assert(post is Empty);
                }
                r
            },
            RootPtr::Leaf1(l) => {
                let ghost l0 = *l;
                let r = l.get_mut(key);
                proof {
                    let lf = after_borrow(*l);
                    let post = after_borrow(*self);
                    assert(post == RootPtr::Leaf1(lf));
                    if key == l0.key {
                        assert(pre.as_map().contains_key(key));
                        assert(pre.as_map()[key] == l0.value);
                    } else {
                        assert(!pre.as_map().contains_key(key));
                    }
                }
                r
            },
            RootPtr::Leaf2(l) => {
                let r = l.get_mut(key);
                proof {
                    let lf = after_borrow(*l);
                    let post = after_borrow(*self);
                    assert(post == RootPtr::Leaf2(lf));
                }
                r
            },
            RootPtr::VecLeaf(v) => {
                let r = v.get_mut(key);
                proof {
                    let vf2 = after_borrow(*v);
                    let post = after_borrow(*self);
                    assert(post == RootPtr::VecLeaf(vf2));
                }
                r
            },
            RootPtr::Jpm(j) => {
                let r = j.get_mut(key);
                proof {
                    let jf = after_borrow(*j);
                    let post = after_borrow(*self);
                    assert(post == RootPtr::Jpm(jf));
                }
                r
            },
        }
    }

    /// Inserts an entry, growing the root one shape up the ladder when the
    /// current shape is full; returns the evicted value.
    pub fn insert(&mut self, key: K, value: V) -> (r: Option<V>)
        requires
            old(self).wf(),
            old(self).as_map().len() + 1 < 0x100000000000000,
            old(self).as_map().len() < usize::MAX,
        ensures
            final(self).wf(),
            final(self).as_map() == old(self).as_map().insert(key, value),
            r == (if old(self).as_map().contains_key(key) {
                Some(old(self).as_map()[key])
            } else {
                None::<V>
            }),
            old(self).as_map().contains_key(key) ==> final(self).shape() == old(self).shape(),
            !old(self).as_map().contains_key(key) ==> final(self).shape() == next_shape(
                old(self).shape(),
                old(self).as_map().len(),
            ),
    {
        let ghost pre = *self;
        let ghost m0 = pre.as_map();
        let mut cur = RootPtr::Empty(Empty::new());
        core::mem::swap(self, &mut cur);
        let (nr, r): (RootPtr<K, V>, Option<V>) = match cur {
            RootPtr::Empty(mut e) => {
                match e.insert(key, value) {
                    InsertResult::Resize(v) => {
                        let node = Leaf1::new(key, v);
                        proof {
                            assert(!m0.contains_key(key));
                            assert(node.as_map() == m0.insert(key, v));
                        }
                        (RootPtr::Leaf1(Box::new(node)), None)
                    },
                    InsertResult::Success(ev) => {
                        proof {
                            assert(false);
                        }
                        (RootPtr::Empty(e), ev)
                    },
                }
            },
            RootPtr::Leaf1(mut l) => {
                let ghost l0 = *l;
                match l.insert(key, value) {
                    InsertResult::Success(ev) => {
                        proof {
                            assert(key == l0.key);
                            assert(m0.contains_key(key));
                            assert(m0[key] == l0.value);
                        }
                        (RootPtr::Leaf1(l), ev)
                    },
                    InsertResult::Resize(v) => {
                        proof {
                            assert(key != l0.key);
                            assert(!m0.contains_key(key));
                        }
                        let k0 = l.key;
                        let lb = *l;
                        let node = Leaf2::new(k0, lb.value, key, v);
                        proof {
                            assert(node.as_map() == m0.insert(key, v));
                        }
                        (RootPtr::Leaf2(Box::new(node)), None)
                    },
                }
            },
            RootPtr::Leaf2(mut l) => {
                let ghost l0 = *l;
                match l.insert(key, value) {
                    InsertResult::Success(ev) => (RootPtr::Leaf2(l), ev),
                    InsertResult::Resize(v) => {
                        proof {
                            assert(!m0.contains_key(key));
                            l0.lemma_distinct();
                            lemma_pairs_map(l0.keys@, l0.values@);
                        }
                        let lb = *l;
                        let mut vl = VecLeaf::from_arrays(lb.keys, lb.values);
                        proof {
                            assert(vl.as_map() == m0);
                        }
                        let ir = vl.insert(key, v);
                        let ev2 = ir.success();
                        proof {
                            assert(ev2 is None);
                        }
                        (RootPtr::VecLeaf(Box::new(vl)), None)
                    },
                }
            },
            RootPtr::VecLeaf(mut vl) => {
                let ghost v0 = *vl;
                proof {
                    v0.array.lemma_wf();
                    v0.lemma_distinct();
                    lemma_pairs_map(v0.array.seq1(), v0.array.seq2());
                }
                match vl.insert(key, value) {
                    InsertResult::Success(ev) => (RootPtr::VecLeaf(vl), ev),
                    InsertResult::Resize(v) => {
                        proof {
                            assert(!m0.contains_key(key));
                            assert(m0.len() >= 31);
                        }
                        let vb = *vl;
                        let jpm = vb.expand(key, v);
                        (RootPtr::Jpm(Box::new(jpm)), None)
                    },
                }
            },
            RootPtr::Jpm(mut j) => {
                let jr = j.insert(key, value);
                let ev = jr.success();
                (RootPtr::Jpm(j), ev)
            },
        };
        *self = nr;
        r
    }

    /// Removes an entry, shrinking the root one shape down the ladder when
    /// its population falls below the shape's minimum; returns the removed
    /// value.
    pub fn remove(&mut self, key: K) -> (r: Option<V>)
        requires
            old(self).wf(),
        ensures
            final(self).wf(),
            final(self).as_map() == old(self).as_map().remove(key),
            r == (if old(self).as_map().contains_key(key) {
                Some(old(self).as_map()[key])
            } else {
                None::<V>
            }),
            !old(self).as_map().contains_key(key) ==> final(self).shape() == old(self).shape(),
            old(self).as_map().contains_key(key) ==> final(self).shape() == prev_shape(
                old(self).shape(),
            ),
    {
        let ghost pre = *self;
        let ghost m0 = pre.as_map();
        let mut cur = RootPtr::Empty(Empty::new());
        core::mem::swap(self, &mut cur);
        let (nr, r): (RootPtr<K, V>, Option<V>) = match cur {
            RootPtr::Empty(mut e) => {
                let rr = e.remove(key);
                let ev = rr.success();
                proof {
                    assert(m0.remove(key) =~= m0);
                }
                (RootPtr::Empty(e), ev)
            },
            RootPtr::Leaf1(mut l) => {
                let ghost l0 = *l;
                match l.remove(key) {
                    RemoveResult::Success(ev) => {
                        proof {
                            assert(key != l0.key);
                            assert(!m0.contains_key(key));
                            assert(ev is None);
                            assert(m0.remove(key) =~= m0);
                        }
                        (RootPtr::Leaf1(l), ev)
                    },
                    RemoveResult::Downsize => {
                        proof {
                            assert(key == l0.key);
                            assert(m0.contains_key(key));
                            assert(m0[key] == l0.value);
                        }
                        let lb = *l;
                        proof {
                            assert(m0.remove(key) =~= Map::<K, V>::empty());
                        }
                        (RootPtr::Empty(Empty::new()), Some(lb.value))
                    },
                }
            },
            RootPtr::Leaf2(mut l) => {
                let ghost l0 = *l;
                proof {
                    l0.lemma_distinct();
                    lemma_pairs_map(l0.keys@, l0.values@);
                    assert(l0.keys@.contains(key) <==> (l0.keys@[0] == key || l0.keys@[1] == key))
                        by {
                        if l0.keys@.contains(key) {
                            let i = choose|i: int| 0 <= i < 2 && l0.keys@[i] == key;
                        }
                    }
                }
                match l.remove(key) {
                    RemoveResult::Success(ev) => {
                        proof {
                            assert(!m0.contains_key(key));
                            assert(ev is None);
                            assert(m0.remove(key) =~= m0);
                        }
                        (RootPtr::Leaf2(l), ev)
                    },
                    RemoveResult::Downsize => {
                        proof {
                            assert(m0.contains_key(key));
                        }
                        let lb = *l;
                        let mut keys = lb.keys;
                        let mut values = lb.values;
                        let k1 = keys[1];
                        let k0 = keys[0];
                        let v1 = values.pop().unwrap();
                        let v0 = values.pop().unwrap();
                        if k0.key_eq(key) {
                            let node = Leaf1::new(k1, v1);
                            proof {
                                assert(m0[key] == v0);
                                assert(node.as_map() =~= m0.remove(key));
                            }
                            (RootPtr::Leaf1(Box::new(node)), Some(v0))
                        } else {
                            proof {
                                assert(l0.keys@[1] == key);
                            }
                            let node = Leaf1::new(k0, v0);
                            proof {
                                assert(m0[key] == v1);
                                assert(node.as_map() =~= m0.remove(key));
                            }
                            (RootPtr::Leaf1(Box::new(node)), Some(v1))
                        }
                    },
                }
            },
            RootPtr::VecLeaf(mut vl) => {
                let ghost v0 = *vl;
                proof {
                    v0.array.lemma_wf();
                    v0.lemma_distinct();
                    lemma_pairs_map(v0.array.seq1(), v0.array.seq2());
                }
                let rr = vl.remove(key);
                let ev = rr.success();
                (RootPtr::VecLeaf(vl), ev)
            },
            RootPtr::Jpm(mut j) => {
                let rr = j.remove(key);
                let ev = rr.success();
                (RootPtr::Jpm(j), ev)
            },
        };
        *self = nr;
        r
    }
}

} // verus!
