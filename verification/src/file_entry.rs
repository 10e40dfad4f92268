//! A ranked entry for a file or a directory: its byte size and its path.

use vstd::prelude::*;

verus! {

use crate::entry::Weighted;

/// One ranked file or directory: `size` bytes under the path `path`.
/// For a directory the size is the recursive total of every file beneath it.
#[derive(Debug)]
pub struct FileEntry {
    pub size: u64,
    pub path: String,
}

impl Weighted for FileEntry {
    open spec fn weight(&self) -> u64 {
        self.size
    }

    fn byte_size(&self) -> (s: u64) {
        self.size
    }
}

} // verus!
