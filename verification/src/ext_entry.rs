//! A ranked entry for a file extension: the cumulative byte size of every
//! file carrying that extension.

use vstd::prelude::*;

verus! {

use crate::entry::Weighted;

/// One ranked extension: `size` bytes in total over all files whose name
/// ends in `.<ext>` (the extension is kept without its leading dot, in the
/// case it was found in).
#[derive(Debug)]
pub struct ExtEntry {
    pub size: u64,
    pub ext: String,
}

impl Weighted for ExtEntry {
    open spec fn weight(&self) -> u64 {
        self.size
    }

    fn byte_size(&self) -> (s: u64) {
        self.size
    }
}

} // verus!
