//! The interface shared by everything a ranking can hold: an entry with a
//! byte size.

use vstd::prelude::*;

verus! {

/// An entry that a bounded ranking can order: it carries a byte size,
/// readable both in specifications (`weight`) and in executable code
/// (`byte_size`).
pub trait Weighted: Sized {
    /// The byte size of the entry, as seen by specifications.
    spec fn weight(&self) -> u64;

    /// The byte size of the entry.
    fn byte_size(&self) -> (s: u64)
        ensures
            s == self.weight(),
    ;
}

} // verus!
