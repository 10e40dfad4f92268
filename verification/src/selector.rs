//! A bounded top-N selector: a collection that holds at most N entries and,
//! over any sequence of insertions, keeps exactly the N largest ones by
//! byte size (ties broken arbitrarily).

use vstd::prelude::*;

verus! {

use crate::entry::Weighted;
use vstd::multiset::Multiset;

broadcast use vstd::seq_lib::group_to_multiset_ensures, vstd::multiset::group_multiset_axioms;

/// The smaller of two naturals.
pub open spec fn min_nat(a: nat, b: nat) -> nat {
    if a <= b {
        a
    } else {
        b
    }
}

/// Every entry of `kept` weighs at least `x`.
pub open spec fn below_all<T: Weighted>(x: T, kept: Seq<T>) -> bool {
    forall|i: int| 0 <= i < kept.len() ==> x.weight() <= #[trigger] kept[i].weight()
}

/// Every entry inserted but not kept weighs no more than any kept entry:
/// `kept` holds only largest entries of `all`.
pub open spec fn dominates<T: Weighted>(kept: Seq<T>, all: Seq<T>) -> bool {
    forall|x: T|
        #![trigger all.to_multiset().count(x)]
        all.to_multiset().count(x) > kept.to_multiset().count(x) ==> below_all(x, kept)
}

/// `kept` is a selection of the `n` largest entries of `all`: it is drawn
/// from `all`, holds `min(n, all.len())` entries, and no discarded entry
/// outweighs a kept one.
pub open spec fn is_selection<T: Weighted>(kept: Seq<T>, all: Seq<T>, n: nat) -> bool {
    &&& kept.len() == min_nat(n, all.len())
    &&& kept.to_multiset().subset_of(all.to_multiset())
    &&& dominates(kept, all)
}

/// The entries of `s` are ordered by weight, largest first.
pub open spec fn sorted_descending<T: Weighted>(s: Seq<T>) -> bool {
    forall|i: int, j: int|
        #![trigger s[i].weight(), s[j].weight()]
        0 <= i < j < s.len() ==> s[i].weight() >= s[j].weight()
}

/// `kept` is a selection of the `n` largest entries of `all`, ordered by
/// weight descending.
pub open spec fn is_top_selection<T: Weighted>(kept: Seq<T>, all: Seq<T>, n: nat) -> bool {
    &&& is_selection(kept, all, n)
    &&& sorted_descending(kept)
}

/// A multiset contained in another of the same length equals it.
proof fn lemma_subset_same_len_eq<T>(a: Multiset<T>, b: Multiset<T>)
    requires
        a.subset_of(b),
        a.len() == b.len(),
    ensures
        a =~= b,
{
    let d = b.sub(a);
    assert(d.len() == 0);
    vstd::multiset::lemma_multiset_empty_len(d);
    assert forall|x: T| a.count(x) == b.count(x) by {
        assert(d.count(x) == 0);
    }
}

/// A bounded collection that retains the `cap` largest entries inserted so
/// far, in no particular order, and drains them sorted by size descending.
pub struct TopNSelector<T> {
    cap: usize,
    items: Vec<T>,
    inserted: Ghost<Seq<T>>,
}

impl<T: Weighted> TopNSelector<T> {
    /// The fixed capacity the selector was built with.
    pub closed spec fn capacity(self) -> nat {
        self.cap as nat
    }

    /// The entries currently held.
    pub closed spec fn held(self) -> Seq<T> {
        self.items@
    }

    /// Every entry ever inserted, in insertion order.
    pub closed spec fn inserted(self) -> Seq<T> {
        self.inserted@
    }

    /// The selector's invariant: what it holds is a selection of the
    /// largest entries inserted so far.
    pub open spec fn wf(self) -> bool {
        is_selection(self.held(), self.inserted(), self.capacity())
    }

    /// An empty selector with capacity `cap`.
    pub fn new(cap: usize) -> (r: Self)
        ensures
            r.wf(),
            r.capacity() == cap,
            r.inserted() == Seq::<T>::empty(),
    {
        let r = TopNSelector { cap, items: Vec::new(), inserted: Ghost(Seq::empty()) };
        proof {
            assert(r.items@.to_multiset() =~= Multiset::empty());
        }
        r
    }

    /// Adds `e`, then, if the collection now exceeds its capacity, evicts
    /// one entry of minimal size.
    pub fn insert(&mut self, e: T)
        requires
            old(self).wf(),
        ensures
            final(self).wf(),
            final(self).capacity() == old(self).capacity(),
            final(self).inserted() == old(self).inserted().push(e),
    {
        let ghost ge = e;
        let ghost old_items = self.items@;
        let ghost old_ins = self.inserted@;
        self.items.push(e);
        self.inserted = Ghost(self.inserted@.push(ge));
        if self.items.len() > self.cap {
            let ghost pushed = self.items@;
            let mut j: usize = 0;
            let mut k: usize = 1;
            while k < self.items.len()
                invariant
                    0 < self.items@.len(),
                    j < k,
                    k <= self.items@.len(),
                    self.items@ == pushed,
                    forall|i: int|
                        0 <= i < k ==> pushed[j as int].weight() <= #[trigger] pushed[i].weight(),
                decreases self.items@.len() - k,
            {
                if self.items[k].byte_size() < self.items[j].byte_size() {
                    j = k;
                }
                k += 1;
            }
            let ghost m = pushed[j as int];
            let _ = self.items.remove(j);
            proof {
                let all = self.inserted@;
                let kept = self.items@;
                let old_len = old_items.len() as int;
                assert(pushed.to_multiset() =~= old_items.to_multiset().insert(ge));
                assert(kept =~= pushed.remove(j as int));
                assert(pushed.remove(j as int).to_multiset() == pushed.to_multiset().remove(m));
                assert(all.to_multiset() =~= old_ins.to_multiset().insert(ge));
                // the selector was full: its old length equals the capacity
                assert(old_items.len() == self.cap);
                assert(kept.len() == min_nat(self.capacity(), all.len()));
                // each kept entry is a pushed entry
                assert(forall|i: int|
                    0 <= i < kept.len() ==> kept[i] == (if i < j {
                        pushed[i]
                    } else {
                        pushed[i + 1]
                    }));
                // pushed entries are the old entries plus e
                assert(forall|i: int| 0 <= i < old_len ==> pushed[i] == old_items[i]);
                assert(pushed[old_len] == ge);
                assert forall|x: T|
                    kept.to_multiset().count(x) <= all.to_multiset().count(x) by {
                    assert(old_items.to_multiset().count(x) <= old_ins.to_multiset().count(x));
                }
                assert forall|x: T|
                    all.to_multiset().count(x) > kept.to_multiset().count(x) implies below_all(
                    x,
                    kept,
                ) by {
                    if old_ins.to_multiset().count(x) > old_items.to_multiset().count(x) {
                        // x was already discarded: it is below every old entry,
                        // and below e because it is below the evicted minimum
                        assert(below_all(x, old_items));
                        assert forall|i: int| 0 <= i < kept.len() implies x.weight()
                            <= kept[i].weight() by {
                            if i < j {
                                assert(kept[i] == old_items[i]);
                                assert(x.weight() <= old_items[i].weight());
                            } else if i + 1 < old_len {
                                assert(kept[i] == old_items[i + 1]);
                                assert(x.weight() <= old_items[i + 1].weight());
                            } else {
                                // here kept[i] == e, and j < old_len, so the
                                // evicted minimum m is an old entry below e
                                assert(kept[i] == ge);
                                assert(m == old_items[j as int]);
                                assert(x.weight() <= m.weight());
                                assert(m.weight() <= pushed[old_len].weight());
                            }
                        }
                    } else {
                        // only the evicted minimum lost a copy: x == m, which
                        // weighs no more than any pushed entry
                        assert(old_items.to_multiset().count(x) == old_ins.to_multiset().count(x));
                        assert(x == m);
                        assert forall|i: int| 0 <= i < kept.len() implies x.weight()
                            <= kept[i].weight() by {
                            if i < j {
                                assert(kept[i] == pushed[i]);
                                assert(m.weight() <= pushed[i].weight());
                            } else {
                                assert(kept[i] == pushed[i + 1]);
                                assert(m.weight() <= pushed[i + 1].weight());
                            }
                        }
                    }
                }
            }
        } else {
            proof {
                let all = self.inserted@;
                let kept = self.items@;
                assert(kept.to_multiset() =~= old_items.to_multiset().insert(ge));
                assert(all.to_multiset() =~= old_ins.to_multiset().insert(ge));
                assert(kept.len() == min_nat(self.capacity(), all.len()));
                assert forall|x: T|
                    kept.to_multiset().count(x) <= all.to_multiset().count(x) by {
                    assert(old_items.to_multiset().count(x) <= old_ins.to_multiset().count(x));
                }
                assert forall|x: T|
                    all.to_multiset().count(x) > kept.to_multiset().count(x) implies below_all(
                    x,
                    kept,
                ) by {
                    // with room to spare nothing was ever discarded: the held
                    // multiset equals the inserted one, so there is no such x
                    assert(old_items.len() == old_ins.len());
                    lemma_subset_same_len_eq(old_items.to_multiset(), old_ins.to_multiset());
                    assert(false);
                }
            }
        }
    }

    /// Consumes the selector and returns the held entries sorted by size
    /// descending: the `capacity()` largest entries ever inserted.
    pub fn drain_sorted_descending(self) -> (r: Vec<T>)
        requires
            self.wf(),
        ensures
            is_top_selection(r@, self.inserted(), self.capacity()),
    {
        let ghost orig = self.items@;
        let mut v = self.items;
        let mut r: Vec<T> = Vec::new();
        proof {
            assert(r@.to_multiset() =~= Multiset::empty());
            assert(r@.to_multiset().add(v@.to_multiset()) =~= orig.to_multiset());
        }
        while v.len() > 0
            invariant
                r@.to_multiset().add(v@.to_multiset()) == orig.to_multiset(),
                r@.len() + v@.len() == orig.len(),
                sorted_descending(r@),
                forall|p: int, q: int|
                    #![trigger r@[p].weight(), v@[q].weight()]
                    0 <= p < r@.len() && 0 <= q < v@.len() ==> r@[p].weight() >= v@[q].weight(),
            decreases v@.len(),
        {
            let ghost vs = v@;
            let mut m: usize = 0;
            let mut k: usize = 1;
            while k < v.len()
                invariant
                    0 < v@.len(),
                    m < k,
                    k <= v@.len(),
                    v@ == vs,
                    forall|i: int|
                        0 <= i < k ==> vs[m as int].weight() >= #[trigger] vs[i].weight(),
                decreases v@.len() - k,
            {
                if v[k].byte_size() > v[m].byte_size() {
                    m = k;
                }
                k += 1;
            }
            let ghost old_r = r@;
            let x = v.remove(m);
            let ghost gx = x;
            r.push(x);
            proof {
                assert(v@ =~= vs.remove(m as int));
                assert(vs.remove(m as int).to_multiset() == vs.to_multiset().remove(gx));
                assert(r@.to_multiset() =~= old_r.to_multiset().insert(gx));
                assert(r@.to_multiset().add(v@.to_multiset()) =~= orig.to_multiset());
                assert(forall|i: int|
                    0 <= i < v@.len() ==> v@[i] == (if i < m {
                        vs[i]
                    } else {
                        vs[i + 1]
                    }));
                assert(r@ == old_r.push(gx));
                assert forall|i: int, jj: int|
                    0 <= i < jj < r@.len() implies r@[i].weight() >= r@[jj].weight() by {
                    if jj < r@.len() - 1 {
                        assert(r@[i] == old_r[i] && r@[jj] == old_r[jj]);
                    } else {
                        assert(r@[jj] == gx);
                        assert(gx == vs[m as int]);
                        assert(r@[i] == old_r[i]);
                    }
                }
                assert forall|p: int, q: int|
                    0 <= p < r@.len() && 0 <= q < v@.len() implies r@[p].weight()
                    >= v@[q].weight() by {
                    if p < r@.len() - 1 {
                        assert(r@[p] == old_r[p]);
                        if q < m {
                            assert(v@[q] == vs[q]);
                        } else {
                            assert(v@[q] == vs[q + 1]);
                        }
                    } else {
                        assert(r@[p] == vs[m as int]);
                        if q < m {
                            assert(v@[q] == vs[q]);
                            assert(vs[m as int].weight() >= vs[q].weight());
                        } else {
                            assert(v@[q] == vs[q + 1]);
                            assert(vs[m as int].weight() >= vs[q + 1].weight());
                        }
                    }
                }
            }
        }
        proof {
            let ins = self.inserted@;
            assert(v@.to_multiset().len() == 0);
            vstd::multiset::lemma_multiset_empty_len(v@.to_multiset());
            assert(r@.to_multiset() =~= orig.to_multiset());
            assert(r@.len() == min_nat(self.capacity(), ins.len()));
            assert forall|x: T| r@.to_multiset().count(x) <= ins.to_multiset().count(x) by {
                assert(orig.to_multiset().count(x) <= ins.to_multiset().count(x));
            }
            assert forall|x: T|
                ins.to_multiset().count(x) > r@.to_multiset().count(x) implies below_all(
                x,
                r@,
            ) by {
                assert(ins.to_multiset().count(x) > orig.to_multiset().count(x));
                assert(below_all(x, orig));
                assert forall|i: int| 0 <= i < r@.len() implies x.weight() <= r@[i].weight() by {
                    assert(r@.contains(r@[i]));
                    assert(r@.to_multiset().count(r@[i]) > 0);
                    assert(orig.to_multiset().count(r@[i]) > 0);
                    assert(orig.contains(r@[i]));
                    let idx = choose|idx: int| 0 <= idx < orig.len() && orig[idx] == r@[i];
                    assert(x.weight() <= orig[idx].weight());
                }
            }
        }
        r
    }
}

} // verus!
