//! The empty trie node: every lookup misses, every insert asks the owning
//! pointer to expand into a real node.

use vstd::prelude::*;

verus! {

/// An absent subtree.
pub struct Empty;

impl Empty {
    pub fn new() -> (r: Empty)
        ensures
            r == (Empty),
    {
        Empty
    }
}

} // verus!
