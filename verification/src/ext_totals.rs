//! Cumulative byte totals per file extension, accumulated over a whole
//! scan and drained once at its end.

use vstd::prelude::*;

verus! {

use crate::ext_entry::ExtEntry;

/// No two entries of `s` carry the same extension.
pub open spec fn keys_unique(s: Seq<ExtEntry>) -> bool {
    forall|i: int, j: int|
        #![trigger s[i].ext, s[j].ext]
        0 <= i < j < s.len() ==> s[i].ext@ != s[j].ext@
}

/// The mapping from extension to total that a sequence of entries holds.
pub open spec fn totals_map_of(s: Seq<ExtEntry>) -> Map<Seq<char>, u64>
    decreases s.len(),
{
    if s.len() == 0 {
        Map::empty()
    } else {
        totals_map_of(s.drop_last()).insert(s.last().ext@, s.last().size)
    }
}

/// An extension occurs in the mapping exactly when some entry carries it.
pub proof fn lemma_totals_contains(s: Seq<ExtEntry>, k: Seq<char>)
    ensures
        totals_map_of(s).contains_key(k) <==> (exists|i: int|
            0 <= i < s.len() && s[i].ext@ == k),
    decreases s.len(),
{
    if s.len() == 0 {
    } else {
        lemma_totals_contains(s.drop_last(), k);
        if s.last().ext@ == k {
            assert(s[s.len() - 1].ext@ == k);
        } else {
            if exists|i: int| 0 <= i < s.drop_last().len() && s.drop_last()[i].ext@ == k {
                let i = choose|i: int|
                    0 <= i < s.drop_last().len() && s.drop_last()[i].ext@ == k;
                assert(s[i].ext@ == k);
            }
            if exists|i: int| 0 <= i < s.len() && s[i].ext@ == k {
                let i = choose|i: int| 0 <= i < s.len() && s[i].ext@ == k;
                assert(s.drop_last()[i].ext@ == k);
            }
        }
    }
}

/// With unique keys, the mapping sends each entry's extension to its size.
pub proof fn lemma_totals_at(s: Seq<ExtEntry>, i: int)
    requires
        keys_unique(s),
        0 <= i < s.len(),
    ensures
        totals_map_of(s).contains_key(s[i].ext@),
        totals_map_of(s)[s[i].ext@] == s[i].size,
    decreases s.len(),
{
    if i == s.len() - 1 {
    } else {
        assert(keys_unique(s.drop_last()));
        lemma_totals_at(s.drop_last(), i);
        assert(s.drop_last()[i] == s[i]);
        assert(s.last().ext@ != s[i].ext@);
    }
}

/// Appending an entry inserts its extension into the mapping.
pub proof fn lemma_totals_push(s: Seq<ExtEntry>, e: ExtEntry)
    ensures
        totals_map_of(s.push(e)) == totals_map_of(s).insert(e.ext@, e.size),
{
    assert(s.push(e).drop_last() =~= s);
    assert(s.push(e).last() == e);
}

/// Replacing the entry at `i` by one with the same extension updates the
/// mapping at that extension alone.
pub proof fn lemma_totals_update(s: Seq<ExtEntry>, i: int, e2: ExtEntry)
    requires
        keys_unique(s),
        0 <= i < s.len(),
        e2.ext@ == s[i].ext@,
    ensures
        totals_map_of(s.update(i, e2)) == totals_map_of(s).insert(e2.ext@, e2.size),
    decreases s.len(),
{
    let s2 = s.update(i, e2);
    if i == s.len() - 1 {
        assert(s2.drop_last() =~= s.drop_last());
        assert(s2.last() == e2);
        assert(totals_map_of(s2) =~= totals_map_of(s).insert(e2.ext@, e2.size));
    } else {
        assert(s2.drop_last() =~= s.drop_last().update(i, e2));
        assert(s2.last() == s.last());
        assert(keys_unique(s.drop_last()));
        assert(s.drop_last()[i] == s[i]);
        lemma_totals_update(s.drop_last(), i, e2);
        assert(s.last().ext@ != e2.ext@);
        assert(totals_map_of(s2) =~= totals_map_of(s).insert(e2.ext@, e2.size));
    }
}

/// A running total of bytes per extension: each extension seen so far maps
/// to the cumulative size of the files that carried it.
pub struct ExtensionTotals {
    entries: Vec<ExtEntry>,
}

impl View for ExtensionTotals {
    type V = Map<Seq<char>, u64>;

    open spec fn view(&self) -> Map<Seq<char>, u64> {
        totals_map_of(self.entries_seq())
    }
}

impl ExtensionTotals {
    /// The accumulated entries, in first-seen order.
    pub closed spec fn entries_seq(self) -> Seq<ExtEntry> {
        self.entries@
    }

    /// The invariant: each extension occurs at most once.
    pub open spec fn wf(self) -> bool {
        keys_unique(self.entries_seq())
    }

    /// An empty total.
    pub fn new() -> (r: Self)
        ensures
            r.wf(),
            r.entries_seq() == Seq::<ExtEntry>::empty(),
            r@ == Map::<Seq<char>, u64>::empty(),
    {
        ExtensionTotals { entries: Vec::new() }
    }

    /// The current total for `ext`, as the mapping gives it.
    pub open spec fn total_of(self, ext: Seq<char>) -> u64 {
        if self@.contains_key(ext) {
            self@[ext]
        } else {
            0
        }
    }

    /// Adds `size` bytes to the total of `ext`.
    pub fn add(&mut self, ext: String, size: u64)
        requires
            old(self).wf(),
            old(self).total_of(ext@) + size <= u64::MAX,
        ensures
            final(self).wf(),
            final(self)@ == old(self)@.insert(ext@, (old(self).total_of(ext@) + size) as u64),
    {
        let ghost orig = self.entries@;
        let mut i: usize = 0;
        while i < self.entries.len()
            invariant
                i <= self.entries@.len(),
                self.entries@ == orig,
                orig == old(self).entries_seq(),
                keys_unique(orig),
                totals_map_of(orig).contains_key(ext@) ==> totals_map_of(orig)[ext@] + size
                    <= u64::MAX,
                forall|k: int| #![trigger orig[k].ext] 0 <= k < i ==> orig[k].ext@ != ext@,
            decreases self.entries@.len() - i,
        {
            if self.entries[i].ext == ext {
                proof {
                    lemma_totals_at(orig, i as int);
                    assert(orig[i as int].ext@ == ext@);
                }
                let cur: u64 = self.entries[i].size;
                let e2 = ExtEntry { size: cur + size, ext };
                self.entries[i] = e2;
                proof {
                    lemma_totals_update(orig, i as int, e2);
                    assert(keys_unique(self.entries@));
                    assert(old(self).total_of(e2.ext@) == orig[i as int].size);
                    assert(self@ == old(self)@.insert(e2.ext@, e2.size));
                }
                return ;
            }
            i += 1;
        }
        proof {
            lemma_totals_contains(orig, ext@);
            assert(!totals_map_of(orig).contains_key(ext@));
        }
        let e = ExtEntry { size, ext };
        self.entries.push(e);
        proof {
            lemma_totals_push(orig, e);
            assert(keys_unique(self.entries@));
        }
    }

    /// Hands the accumulated entries out, in first-seen order.
    pub fn into_entries(self) -> (r: Vec<ExtEntry>)
        ensures
            r@ == self.entries_seq(),
    {
        self.entries
    }
}

} // verus!
