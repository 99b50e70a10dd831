//! A pair of bounded arrays that share one length and move in lockstep:
//! every push, positional insert, positional remove and pop acts on both
//! arrays at once, so the element of one array at an index is always paired
//! with the element of the other at the same index. Insertions that would
//! overflow hand both would-be items back to the caller, so no pending value
//! is ever dropped.

use vstd::prelude::*;

verus! {

/// Returned by `push` when the arrays are full; carries both items back.
#[derive(Debug)]
pub struct OverflowError<T1, T2>(pub T1, pub T2);

/// Returned by `insert` when it cannot take the items; carries them back.
#[derive(Debug)]
pub enum InsertError<T1, T2> {
    /// The arrays are full.
    Overflow(T1, T2),
    /// The index is past the end.
    OutOfBounds(T1, T2),
}

/// Two arrays of the same length, at most `CAP` elements each.
pub struct LockstepArray<T1, T2, const CAP: usize> {
    array1: Vec<T1>,
    array2: Vec<T2>,
}

impl<T1, T2, const CAP: usize> LockstepArray<T1, T2, CAP> {
    /// Both arrays have the same length, within capacity.
    pub closed spec fn wf(self) -> bool {
        self.array1@.len() == self.array2@.len() && self.array1@.len() <= CAP
    }

    /// The elements of the first array.
    pub closed spec fn seq1(self) -> Seq<T1> {
        self.array1@
    }

    /// The elements of the second array.
    pub closed spec fn seq2(self) -> Seq<T2> {
        self.array2@
    }

    /// What well-formedness guarantees about the two lengths.
    pub proof fn lemma_wf(self)
        requires
            self.wf(),
        ensures
            self.seq1().len() == self.seq2().len(),
            self.seq1().len() <= CAP,
    {
    }

    pub fn new() -> (r: Self)
        ensures
            r.wf(),
            r.seq1() == Seq::<T1>::empty(),
            r.seq2() == Seq::<T2>::empty(),
    {
        LockstepArray { array1: Vec::new(), array2: Vec::new() }
    }

    /// Builds the pair from two equal-length vectors.
    pub fn from_arrays(array1: Vec<T1>, array2: Vec<T2>) -> (r: Self)
        requires
            array1@.len() == array2@.len(),
            array1@.len() <= CAP,
        ensures
            r.wf(),
            r.seq1() == array1@,
            r.seq2() == array2@,
    {
        LockstepArray { array1, array2 }
    }

    /// Appends a pair, or returns both items when full.
    pub fn push(&mut self, item1: T1, item2: T2) -> (r: Result<(), OverflowError<T1, T2>>)
        requires
            old(self).wf(),
        ensures
            final(self).wf(),
            old(self).seq1().len() < CAP ==> {
                &&& r is Ok
                &&& final(self).seq1() == old(self).seq1().push(item1)
                &&& final(self).seq2() == old(self).seq2().push(item2)
            },
            old(self).seq1().len() == CAP ==> {
                &&& *final(self) == *old(self)
                &&& r matches Err(e) && e.0 == item1 && e.1 == item2
            },
    {
        if self.array1.len() == CAP {
            return Err(OverflowError(item1, item2));
        }
        self.array1.push(item1);
        self.array2.push(item2);
        Ok(())
    }

    /// Removes and returns the last pair, or `None` when empty.
    pub fn pop(&mut self) -> (r: Option<(T1, T2)>)
        requires
            old(self).wf(),
        ensures
            final(self).wf(),
            old(self).seq1().len() == 0 ==> r is None && *final(self) == *old(self),
            old(self).seq1().len() > 0 ==> {
                &&& r == Some((old(self).seq1().last(), old(self).seq2().last()))
                &&& final(self).seq1() == old(self).seq1().drop_last()
                &&& final(self).seq2() == old(self).seq2().drop_last()
            },
    {
        if self.array1.len() == 0 {
            return None;
        }
        let item1 = self.array1.pop().unwrap();
        let item2 = self.array2.pop().unwrap();
        Some((item1, item2))
    }

    /// Inserts a pair at `index`, shifting the suffix of both arrays right,
    /// or hands both items back when the index is out of bounds or the
    /// arrays are full.
    pub fn insert(&mut self, index: usize, item1: T1, item2: T2) -> (r: Result<
        (),
        InsertError<T1, T2>,
    >)
        requires
            old(self).wf(),
        ensures
            final(self).wf(),
            index > old(self).seq1().len() ==> {
                &&& *final(self) == *old(self)
                &&& r == Err::<(), InsertError<T1, T2>>(InsertError::OutOfBounds(item1, item2))
            },
            index <= old(self).seq1().len() && old(self).seq1().len() == CAP ==> {
                &&& *final(self) == *old(self)
                &&& r == Err::<(), InsertError<T1, T2>>(InsertError::Overflow(item1, item2))
            },
            index <= old(self).seq1().len() && old(self).seq1().len() < CAP ==> {
                &&& r is Ok
                &&& final(self).seq1() == old(self).seq1().insert(index as int, item1)
                &&& final(self).seq2() == old(self).seq2().insert(index as int, item2)
            },
    {
        if index > self.array1.len() {
            Err(InsertError::OutOfBounds(item1, item2))
        } else if self.array1.len() == CAP {
            Err(InsertError::Overflow(item1, item2))
        } else {
            self.array1.insert(index, item1);
            self.array2.insert(index, item2);
            Ok(())
        }
    }

    /// Removes the pair at `index`, shifting the suffix of both arrays left,
    /// or returns `None` when the index is out of bounds.
    pub fn remove(&mut self, index: usize) -> (r: Option<(T1, T2)>)
        requires
            old(self).wf(),
        ensures
            final(self).wf(),
            index >= old(self).seq1().len() ==> r is None && *final(self) == *old(self),
            index < old(self).seq1().len() ==> {
                &&& r == Some((old(self).seq1()[index as int], old(self).seq2()[index as int]))
                &&& final(self).seq1() == old(self).seq1().remove(index as int)
                &&& final(self).seq2() == old(self).seq2().remove(index as int)
            },
    {
        if index >= self.array1.len() {
            return None;
        }
        let item1 = self.array1.remove(index);
        let item2 = self.array2.remove(index);
        Some((item1, item2))
    }

    pub fn is_empty(&self) -> (r: bool)
        ensures
            r == (self.seq1().len() == 0),
    {
        self.array1.is_empty()
    }

    pub fn len(&self) -> (r: usize)
        requires
            self.wf(),
        ensures
            r == self.seq1().len(),
    {
        self.array1.len()
    }

    /// Borrows the pair at `index`, or `None` when out of bounds.
    pub fn get(&self, index: usize) -> (r: Option<(&T1, &T2)>)
        requires
            self.wf(),
        ensures
            index >= self.seq1().len() ==> r is None,
            index < self.seq1().len() ==> (r matches Some(p) && *p.0 == self.seq1()[index as int]
                && *p.1 == self.seq2()[index as int]),
    {
        if index >= self.array1.len() {
            return None;
        }
        Some((&self.array1[index], &self.array2[index]))
    }

    /// The first array.
    pub fn array1(&self) -> (r: &Vec<T1>)
        ensures
            r@ == self.seq1(),
    {
        &self.array1
    }

    /// The second array.
    pub fn array2(&self) -> (r: &Vec<T2>)
        ensures
            r@ == self.seq2(),
    {
        &self.array2
    }

    /// A mutable borrow of the second-array element at `index`.
    pub fn value_mut(&mut self, index: usize) -> (r: &mut T2)
        requires
            old(self).wf(),
            index < old(self).seq2().len(),
        ensures
            *r == old(self).seq2()[index as int],
            final(self).seq2() == old(self).seq2().update(index as int, *final(r)),
            final(self).seq1() == old(self).seq1(),
            final(self).wf(),
    {
        &mut self.array2[index]
    }

    pub fn capacity(&self) -> (r: usize)
        ensures
            r == CAP,
    {
        CAP
    }
}

} // verus!
