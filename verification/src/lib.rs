//! Directory analysis library: a single-pass scan over a directory tree,
//! keeping bounded top-N rankings of the largest files, top-level
//! subdirectories and file extensions, together with running totals.

use vstd::prelude::*;

pub mod entry;
pub mod ext_entry;
pub mod ext_totals;
pub mod file_entry;
pub mod laws;
pub mod scan;
pub mod selector;
pub mod utils;

pub use crate::entry::Weighted;
pub use crate::ext_entry::ExtEntry;
pub use crate::ext_totals::ExtensionTotals;
pub use crate::file_entry::FileEntry;
pub use crate::scan::ScanReport;
pub use crate::scan::ScanSummary;
pub use crate::scan::Scanner;
pub use crate::selector::TopNSelector;
pub use crate::utils::pp_path;
pub use crate::utils::pp_path_with_home;
pub use crate::utils::pp_size;

verus! {

/// Command-line options: the ranking size `n` and the root `path`,
/// both optional.
pub struct MainArgs {
    pub n: Option<u8>,
    pub path: Option<String>,
}

impl MainArgs {
    /// The ranking size to use: the given `n`, or 3 when absent.
    pub fn effective_n(&self) -> (r: u8)
        ensures
            r == (if self.n is Some {
                self.n->0
            } else {
                3u8
            }),
    {
        match self.n {
            Some(n) => n,
            None => 3,
        }
    }

    /// The root to scan: the given `path`, or the current directory `"."`
    /// when absent.
    pub fn effective_path(&self) -> (r: String)
        ensures
            r@ == (match self.path {
                Some(p) => p@,
                None => seq!['.'],
            }),
    {
        match &self.path {
            Some(p) => p.clone(),
            None => {
                let dot = ".".to_owned();
                proof {
                    reveal_strlit(".");
                    assert(dot@ =~= seq!['.']);
                }
                dot
            },
        }
    }
}

} // verus!
