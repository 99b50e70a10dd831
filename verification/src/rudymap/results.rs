//! The two-way return protocol that threads expansion and contraction
//! decisions back up the tree: an insert either succeeds (possibly evicting
//! an old value) or reports that the node is full and hands the pending
//! value back; a remove either succeeds or asks the caller to rebuild the
//! node one size down.

use vstd::prelude::*;

verus! {

/// Outcome of an insert into one node.
#[must_use]
pub enum InsertResult<V> {
    /// The entry went in; the payload is the value it evicted, if the key
    /// was already present.
    Success(Option<V>),
    /// The node is full for its shape; the pending value comes back so the
    /// caller can promote the node and retry.
    Resize(V),
}

impl<V> InsertResult<V> {
    /// The evicted value of an insert that is known to have succeeded.
    pub fn success(self) -> (r: Option<V>)
        requires
            self is Success,
        ensures
            self == InsertResult::Success(r),
    {
        match self {
            InsertResult::Success(evicted) => evicted,
            InsertResult::Resize(_) => {
                proof {
                    assert(false);
                }
                None
            },
        }
    }

    /// Swaps `value` into `place` and reports the old value as evicted.
    pub fn replace(place: &mut V, value: V) -> (r: InsertResult<V>)
        ensures
            *final(place) == value,
            r == InsertResult::Success(Some(*old(place))),
    {
        let mut tmp = value;
        core::mem::swap(place, &mut tmp);
        InsertResult::Success(Some(tmp))
    }
}

/// Outcome of a remove from one node.
#[must_use]
pub enum RemoveResult<V> {
    /// The entry was removed (payload) or was absent (`None`), and the node
    /// keeps its shape.
    Success(Option<V>),
    /// The removal takes the node below its minimum population; the caller
    /// must rebuild it one size down, and the removed value comes out of the
    /// rebuild.
    Downsize,
}

impl<V> RemoveResult<V> {
    /// The removed value of a remove that is known to need no downsize.
    pub fn success(self) -> (r: Option<V>)
        requires
            self is Success,
        ensures
            self == RemoveResult::Success(r),
    {
        match self {
            RemoveResult::Success(evicted) => evicted,
            RemoveResult::Downsize => {
                proof {
                    assert(false);
                }
                None
            },
        }
    }
}

} // verus!
