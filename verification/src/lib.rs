//! An adaptive radix-trie map keyed by fixed-width integers, in the style of
//! a Judy array: a byte-indexed digital trie over the big-endian encoding of
//! the key, with small populations held in compact root leaves and larger
//! populations in an adaptive node hierarchy.

use vstd::prelude::*;

pub mod key;
pub mod rudymap;
pub mod rudyset;
pub mod util;

verus! {

pub use crate::key::Key;
pub use crate::rudymap::RudyMap;
pub use crate::rudyset::RudySet;

} // verus!
