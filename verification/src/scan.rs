//! The traversal driver: fed every node of a depth-first walk (a directory
//! visited before its descendants), it keeps the running totals, the
//! per-extension totals, and the three bounded top-N rankings of one scan.

use vstd::prelude::*;

verus! {

use crate::ext_entry::ExtEntry;
use crate::ext_totals::ExtensionTotals;
use crate::ext_totals::lemma_totals_at;
use crate::file_entry::FileEntry;
use crate::selector::TopNSelector;
use crate::selector::is_top_selection;
use crate::utils::extension_of;
use crate::utils::extension_spec;
use crate::utils::is_under;
use crate::utils::lies_under;

broadcast use vstd::seq_lib::group_to_multiset_ensures, vstd::multiset::group_multiset_axioms;

/// The whole-scan totals: how many files were visited and how many bytes
/// they hold together.
pub struct ScanSummary {
    pub nb_files: u64,
    pub total_size: u64,
}

/// Everything one finished scan reports: the summary and the three
/// rankings, each sorted by size descending.
pub struct ScanReport {
    pub summary: ScanSummary,
    pub top_exts: Vec<ExtEntry>,
    pub top_dirs: Vec<FileEntry>,
    pub top_files: Vec<FileEntry>,
}

/// The state of one scan in progress. The walk feeds it every node it
/// yields, through [`Scanner::visit_dir`] and [`Scanner::visit_file`];
/// [`Scanner::finish`] closes the scan and ranks what was gathered.
pub struct Scanner {
    /// The ranking size all three rankings share.
    pub n: u8,
    /// How many files were visited so far.
    pub nb_files: u64,
    /// The bytes of all files visited so far.
    pub total_size: u64,
    /// The ranking of individual files.
    pub files: TopNSelector<FileEntry>,
    /// The ranking of finished top-level directories.
    pub dirs: TopNSelector<FileEntry>,
    /// The top-level directory currently accumulating, if any.
    pub cur_dir_path: Option<String>,
    /// The bytes of the files beneath the open top-level directory,
    /// gathered since it was opened.
    pub cur_dir_size: u64,
    /// The running per-extension byte totals.
    pub exts: ExtensionTotals,
}

/// The directory entries in the ranking after the open directory is
/// flushed: those already inserted, plus the open directory when it
/// gathered any bytes — one that gathered none is never ranked. Both a
/// depth-1 boundary and the end of the scan flush this way.
pub open spec fn final_dir_entries(s: Scanner) -> Seq<FileEntry> {
    match s.cur_dir_path {
        Some(p) => {
            if s.cur_dir_size > 0 {
                s.dirs.inserted().push(FileEntry { size: s.cur_dir_size, path: p })
            } else {
                s.dirs.inserted()
            }
        },
        None => s.dirs.inserted(),
    }
}

impl Scanner {
    /// The scanner's invariant: the rankings and totals are well formed,
    /// and every partial total is bounded by the grand total.
    pub open spec fn wf(self) -> bool {
        &&& self.files.wf()
        &&& self.dirs.wf()
        &&& self.exts.wf()
        &&& self.files.capacity() == self.n as nat
        &&& self.dirs.capacity() == self.n as nat
        &&& self.cur_dir_size <= self.total_size
        &&& (forall|k: Seq<char>| #[trigger]
            self.exts@.contains_key(k) ==> self.exts@[k] <= self.total_size)
    }

    /// A fresh scanner whose three rankings keep `n` entries each.
    pub fn new(n: u8) -> (r: Self)
        ensures
            r.wf(),
            r.n == n,
            r.nb_files == 0,
            r.total_size == 0,
            r.files.inserted() == Seq::<FileEntry>::empty(),
            r.dirs.inserted() == Seq::<FileEntry>::empty(),
            r.cur_dir_path is None,
            r.cur_dir_size == 0,
            r.exts@ == Map::<Seq<char>, u64>::empty(),
    {
        Scanner {
            n,
            nb_files: 0,
            total_size: 0,
            files: TopNSelector::new(n as usize),
            dirs: TopNSelector::new(n as usize),
            cur_dir_path: None,
            cur_dir_size: 0,
            exts: ExtensionTotals::new(),
        }
    }

    /// Visits a directory node at `depth` below the scan root. A directory
    /// at depth 1 is a top-level directory boundary: the directory open so
    /// far is flushed into the directory ranking if it gathered any bytes
    /// (one that gathered none is never ranked), and the new one is opened
    /// with a zero count. Any other directory changes nothing.
    pub fn visit_dir(&mut self, path: String, depth: usize)
        requires
            old(self).wf(),
        ensures
            final(self).wf(),
            final(self).n == old(self).n,
            final(self).nb_files == old(self).nb_files,
            final(self).total_size == old(self).total_size,
            final(self).files == old(self).files,
            final(self).exts == old(self).exts,
            depth != 1 ==> *final(self) == *old(self),
            depth == 1 ==> final(self).dirs.inserted() == final_dir_entries(*old(self)),
            depth == 1 ==> final(self).cur_dir_path == Some(path) && final(self).cur_dir_size
                == 0,
    {
        if depth == 1 {
            let prev = self.cur_dir_path.take();
            match prev {
                Some(p) => {
                    if self.cur_dir_size > 0 {
                        let entry = FileEntry { size: self.cur_dir_size, path: p };
                        self.dirs.insert(entry);
                    }
                },
                None => {},
            }
            self.cur_dir_path = Some(path);
            self.cur_dir_size = 0;
        }
    }

    /// Visits a file node of `size` bytes: counts it, adds its size to the
    /// grand total, to its extension's total (if it has an extension) and
    /// to the currently accumulating directory when the file lies beneath
    /// it (a file directly under the scan root belongs to no top-level
    /// directory and is never attributed to one), and offers the file to
    /// the file ranking.
    pub fn visit_file(&mut self, path: String, size: u64)
        requires
            old(self).wf(),
            old(self).total_size + size <= u64::MAX,
            old(self).nb_files < u64::MAX,
        ensures
            final(self).wf(),
            final(self).n == old(self).n,
            final(self).nb_files == old(self).nb_files + 1,
            final(self).total_size == old(self).total_size + size,
            final(self).files.inserted() == old(self).files.inserted().push(
                (FileEntry { size, path }),
            ),
            final(self).dirs == old(self).dirs,
            final(self).cur_dir_path == old(self).cur_dir_path,
            final(self).cur_dir_size == (match old(self).cur_dir_path {
                Some(p) => {
                    if lies_under(path@, p@) {
                        (old(self).cur_dir_size + size) as u64
                    } else {
                        old(self).cur_dir_size
                    }
                },
                None => old(self).cur_dir_size,
            }),
            final(self).exts@ == (match extension_spec(path@) {
                Some(e) => old(self).exts@.insert(
                    e,
                    (old(self).exts.total_of(e) + size) as u64,
                ),
                None => old(self).exts@,
            }),
    {
        self.nb_files = self.nb_files + 1;
        match extension_of(path.as_str()) {
            Some(e) => {
                self.exts.add(e, size);
            },
            None => {},
        }
        self.total_size = self.total_size + size;
        let in_open_dir: bool = match &self.cur_dir_path {
            Some(p) => is_under(path.as_str(), p.as_str()),
            None => false,
        };
        if in_open_dir {
            self.cur_dir_size = self.cur_dir_size + size;
        }
        let entry = FileEntry { size, path };
        self.files.insert(entry);
        proof {
            assert forall|k: Seq<char>| #[trigger]
                self.exts@.contains_key(k) implies self.exts@[k] <= self.total_size by {
                if !(old(self).exts@.contains_key(k) && old(self).exts@[k] == self.exts@[k]) {
                    assert(extension_spec(entry.path@) is Some);
                }
            }
        }
    }

    /// Closes the scan: flushes the still-open directory if it gathered
    /// any bytes, ranks the per-extension totals, and drains the three
    /// rankings sorted by size descending. Each ranked extension carries
    /// its whole-tree total.
    pub fn finish(self) -> (r: ScanReport)
        requires
            self.wf(),
        ensures
            r.summary.nb_files == self.nb_files,
            r.summary.total_size == self.total_size,
            is_top_selection(r.top_files@, self.files.inserted(), self.n as nat),
            is_top_selection(r.top_dirs@, final_dir_entries(self), self.n as nat),
            is_top_selection(r.top_exts@, self.exts.entries_seq(), self.n as nat),
            forall|i: int|
                0 <= i < r.top_exts@.len() ==> self.exts@.contains_key(#[trigger] r.top_exts@[i].ext@)
                    && self.exts@[r.top_exts@[i].ext@] == r.top_exts@[i].size,
    {
        let Scanner { n, nb_files, total_size, files, mut dirs, cur_dir_path, cur_dir_size, exts } =
            self;
        if cur_dir_size > 0 {
            match cur_dir_path {
                Some(p) => {
                    let entry = FileEntry { size: cur_dir_size, path: p };
                    dirs.insert(entry);
                },
                None => {},
            }
        }
        let ghost ext_entries = exts.entries_seq();
        let mut ext_sel: TopNSelector<ExtEntry> = TopNSelector::new(n as usize);
        let mut entries = exts.into_entries();
        proof {
            assert(ext_sel.inserted() + entries@ =~= ext_entries);
        }
        while entries.len() > 0
            invariant
                ext_sel.wf(),
                ext_sel.capacity() == n as nat,
                ext_sel.inserted() + entries@ == ext_entries,
            decreases entries@.len(),
        {
            let ghost pre_ins = ext_sel.inserted();
            let ghost pre_entries = entries@;
            let e = entries.remove(0);
            ext_sel.insert(e);
            proof {
                assert(entries@ =~= pre_entries.remove(0));
                assert(ext_sel.inserted() + entries@ =~= pre_ins + pre_entries);
            }
        }
        proof {
            assert(ext_sel.inserted() =~= ext_entries);
        }
        let top_exts = ext_sel.drain_sorted_descending();
        let top_dirs = dirs.drain_sorted_descending();
        let top_files = files.drain_sorted_descending();
        proof {
            assert forall|i: int|
                0 <= i < top_exts@.len() implies self.exts@.contains_key(
                #[trigger] top_exts@[i].ext@,
            ) && self.exts@[top_exts@[i].ext@] == top_exts@[i].size by {
                assert(top_exts@.contains(top_exts@[i]));
                assert(top_exts@.to_multiset().count(top_exts@[i]) > 0);
                assert(ext_entries.to_multiset().count(top_exts@[i]) > 0);
                assert(ext_entries.contains(top_exts@[i]));
                let k = choose|k: int|
                    0 <= k < ext_entries.len() && ext_entries[k] == top_exts@[i];
                lemma_totals_at(ext_entries, k);
            }
        }
        ScanReport { summary: ScanSummary { nb_files, total_size }, top_exts, top_dirs, top_files }
    }
}

} // verus!
