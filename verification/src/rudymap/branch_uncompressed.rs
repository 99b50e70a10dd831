//! The densest branch shape: a direct array of 256 child pointers, one per
//! possible child byte, empty pointers included.

use vstd::prelude::*;
use crate::rudymap::innerptr::InnerPtr;

verus! {

/// A branch with a slot for every child byte.
pub struct BranchUncompressed<V> {
    pub array: Vec<InnerPtr<V>>,
}

impl<V> BranchUncompressed<V> {
    /// The child under byte `b`; every byte has a slot.
    pub open spec fn child(self, b: u8) -> Option<InnerPtr<V>> {
        Some(self.array@[b as int])
    }

    /// A fresh branch with all 256 slots holding the empty pointer.
    pub fn new() -> (r: Self)
        ensures
            r.array@.len() == 256,
            forall|i: int|
                0 <= i < 256 ==> (#[trigger] r.array@[i]).node is Empty && (forall|d: nat|
                    crate::rudymap::innerptr::ip_wf(r.array@[i], d)),
    {
        let mut array: Vec<InnerPtr<V>> = Vec::new();
        let mut i: usize = 0;
        while i < 256
            invariant
                i <= 256,
                array@.len() == i,
                forall|k: int|
                    0 <= k < i ==> (#[trigger] array@[k]).node is Empty && (forall|d: nat|
                        crate::rudymap::innerptr::ip_wf(array@[k], d)),
            decreases 256 - i,
        {
            array.push(InnerPtr::empty());
            i = i + 1;
        }
        BranchUncompressed { array }
    }
}

} // verus!
