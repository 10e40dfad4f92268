//! Laws of the bounded rankings: the sequence of sizes a ranking reports
//! is determined by the sizes that were inserted, however ties among equal
//! sizes are broken.

use vstd::prelude::*;

verus! {

use crate::entry::Weighted;
use crate::selector::below_all;
use crate::selector::dominates;
use crate::selector::is_top_selection;
use crate::selector::min_nat;
use vstd::multiset::Multiset;

broadcast use vstd::seq_lib::group_to_multiset_ensures, vstd::multiset::group_multiset_axioms;

/// The sizes of a sequence of entries, in the same order.
pub open spec fn weights_of<T: Weighted>(s: Seq<T>) -> Seq<u64> {
    s.map_values(|t: T| t.weight())
}

/// The predicate selecting entries of weight `w`.
spec fn has_weight<T: Weighted>(w: u64) -> spec_fn(T) -> bool {
    |x: T| x.weight() == w
}

/// Every element of `kept` is at least `w`.
spec fn below64(w: u64, kept: Seq<u64>) -> bool {
    forall|i: int| 0 <= i < kept.len() ==> w <= #[trigger] kept[i]
}

/// `kept` is sorted descending.
spec fn sorted_desc64(s: Seq<u64>) -> bool {
    forall|i: int, j: int| 0 <= i < j < s.len() ==> #[trigger] s[i] >= #[trigger] s[j]
}

/// `kept` is a sorted selection of the `n` largest values of the
/// multiset `all`.
spec fn sel64(kept: Seq<u64>, all: Multiset<u64>, n: nat) -> bool {
    &&& kept.len() == min_nat(n, all.len())
    &&& kept.to_multiset().subset_of(all)
    &&& (forall|w: u64|
        #![trigger all.count(w)]
        all.count(w) > kept.to_multiset().count(w) ==> below64(w, kept))
    &&& sorted_desc64(kept)
}

/// A multiset contained in another has no greater length.
proof fn lemma_subset_len<T>(a: Multiset<T>, b: Multiset<T>)
    requires
        a.subset_of(b),
    ensures
        a.len() <= b.len(),
{
    assert(b =~= a.add(b.sub(a)));
    assert(b.len() == a.len() + b.sub(a).len());
}

/// How often a weight occurs among the weights of `s`: as often as `s`
/// holds entries of that weight.
proof fn lemma_weight_count<T: Weighted>(s: Seq<T>, w: u64)
    ensures
        weights_of(s).to_multiset().count(w) == s.to_multiset().filter(has_weight::<T>(w)).len(),
    decreases s.len(),
{
    let p = has_weight::<T>(w);
    if s.len() == 0 {
        assert(weights_of(s) =~= Seq::<u64>::empty());
        assert(s.to_multiset() =~= Multiset::<T>::empty());
        assert forall|x: T| s.to_multiset().filter(p).count(x) == 0 by {}
        assert(s.to_multiset().filter(p) =~= Multiset::<T>::empty());
        vstd::multiset::lemma_multiset_empty_len(s.to_multiset().filter(p));
    } else {
        let x = s.last();
        let s2 = s.drop_last();
        lemma_weight_count(s2, w);
        assert(s =~= s2.push(x));
        assert(s.to_multiset() == s2.to_multiset().insert(x));
        assert(weights_of(s) =~= weights_of(s2).push(x.weight()));
        assert(weights_of(s).to_multiset() == weights_of(s2).to_multiset().insert(x.weight()));
        if x.weight() == w {
            assert(s.to_multiset().filter(p) =~= s2.to_multiset().filter(p).insert(x));
            assert(s.to_multiset().filter(p).len() == s2.to_multiset().filter(p).len() + 1);
            assert(weights_of(s).to_multiset().count(w) == weights_of(s2).to_multiset().count(w)
                + 1);
        } else {
            assert(s.to_multiset().filter(p) =~= s2.to_multiset().filter(p));
            assert(weights_of(s).to_multiset().count(w) == weights_of(s2).to_multiset().count(w));
        }
    }
}

/// Entry containment carries over to the weights: the weights of a
/// sub-multiset of entries form a sub-multiset of the weights.
proof fn lemma_weights_subset<T: Weighted>(a: Seq<T>, b: Seq<T>)
    requires
        a.to_multiset().subset_of(b.to_multiset()),
    ensures
        weights_of(a).to_multiset().subset_of(weights_of(b).to_multiset()),
    decreases a.len(),
{
    if a.len() == 0 {
        assert(weights_of(a) =~= Seq::<u64>::empty());
        assert(weights_of(a).to_multiset() =~= Multiset::<u64>::empty());
    } else {
        let x = a.last();
        let a2 = a.drop_last();
        assert(a =~= a2.push(x));
        assert(a.to_multiset() == a2.to_multiset().insert(x));
        assert(a.to_multiset().count(x) > 0);
        assert(b.to_multiset().count(x) > 0);
        assert(b.contains(x));
        let i = choose|i: int| 0 <= i < b.len() && b[i] == x;
        let b2 = b.remove(i);
        assert(b2.to_multiset() == b.to_multiset().remove(x));
        assert forall|y: T| a2.to_multiset().count(y) <= b2.to_multiset().count(y) by {
            assert(a.to_multiset().count(y) <= b.to_multiset().count(y));
        }
        lemma_weights_subset(a2, b2);
        assert(weights_of(a) =~= weights_of(a2).push(x.weight()));
        assert(weights_of(a).to_multiset() == weights_of(a2).to_multiset().insert(x.weight()));
        assert(weights_of(b2) =~= weights_of(b).remove(i));
        assert(weights_of(b).remove(i).to_multiset() == weights_of(b).to_multiset().remove(
            weights_of(b)[i],
        ));
        assert(weights_of(b)[i] == x.weight());
        assert forall|w: u64|
            weights_of(a).to_multiset().count(w) <= weights_of(b).to_multiset().count(w) by {
            assert(weights_of(a2).to_multiset().count(w) <= weights_of(b2).to_multiset().count(w));
        }
    }
}

/// A ranking of entries yields a sorted selection of the largest weights.
proof fn lemma_top_selection_weights<T: Weighted>(kept: Seq<T>, all: Seq<T>, n: nat)
    requires
        is_top_selection(kept, all, n),
    ensures
        sel64(weights_of(kept), weights_of(all).to_multiset(), n),
{
    let wk = weights_of(kept);
    let wa = weights_of(all);
    assert(wk.len() == kept.len());
    assert(wa.len() == all.len());
    assert(wa.to_multiset().len() == all.len());
    lemma_weights_subset(kept, all);
    assert forall|w: u64|
        #![trigger wa.to_multiset().count(w)]
        wa.to_multiset().count(w) > wk.to_multiset().count(w) implies below64(w, wk) by {
        lemma_weight_count(all, w);
        lemma_weight_count(kept, w);
        let p = has_weight::<T>(w);
        if forall|x: T| #[trigger]
            all.to_multiset().filter(p).count(x) <= kept.to_multiset().filter(p).count(x) {
            lemma_subset_len(all.to_multiset().filter(p), kept.to_multiset().filter(p));
            assert(false);
        }
        let x = choose|x: T|
            all.to_multiset().filter(p).count(x) > kept.to_multiset().filter(p).count(x);
        assert(p(x));
        assert(x.weight() == w);
        assert(all.to_multiset().count(x) > kept.to_multiset().count(x));
        assert(below_all(x, kept));
        assert forall|i: int| 0 <= i < wk.len() implies w <= wk[i] by {
            assert(x.weight() <= kept[i].weight());
        }
    }
    assert forall|i: int, j: int| 0 <= i < j < wk.len() implies wk[i] >= wk[j] by {
        assert(kept[i].weight() >= kept[j].weight());
    }
}

/// Two sorted selections of the `n` largest values of one multiset are
/// equal.
proof fn lemma_sel64_unique(a: Seq<u64>, b: Seq<u64>, all: Multiset<u64>, n: nat)
    requires
        sel64(a, all, n),
        sel64(b, all, n),
    ensures
        a == b,
    decreases a.len(),
{
    if a.len() == 0 {
        assert(a =~= b);
    } else {
        // the heads agree: each is the maximum of `all`
        assert(b.to_multiset().count(b[0]) > 0) by {
            assert(b.contains(b[0]));
        }
        if all.count(b[0]) > a.to_multiset().count(b[0]) {
            assert(b[0] <= a[0]);
        } else {
            assert(a.to_multiset().count(b[0]) > 0);
            assert(a.contains(b[0]));
            let i = choose|i: int| 0 <= i < a.len() && a[i] == b[0];
            assert(a[0] >= a[i]);
        }
        assert(a.to_multiset().count(a[0]) > 0) by {
            assert(a.contains(a[0]));
        }
        if all.count(a[0]) > b.to_multiset().count(a[0]) {
            assert(a[0] <= b[0]);
        } else {
            assert(b.to_multiset().count(a[0]) > 0);
            assert(b.contains(a[0]));
            let i = choose|i: int| 0 <= i < b.len() && b[i] == a[0];
            assert(b[0] >= b[i]);
        }
        assert(a[0] == b[0]);
        // strip the heads and recurse on the rest
        let h = a[0];
        let all2 = all.remove(h);
        let a2 = a.drop_first();
        let b2 = b.drop_first();
        assert(a2 =~= a.remove(0));
        assert(a.remove(0).to_multiset() == a.to_multiset().remove(a[0]));
        assert(b2 =~= b.remove(0));
        assert(b.remove(0).to_multiset() == b.to_multiset().remove(b[0]));
        assert(all.count(h) > 0);
        assert(sel64(a2, all2, (n - 1) as nat)) by {
            lemma_tail_sel(a, all, n);
        }
        assert(sel64(b2, all2, (n - 1) as nat)) by {
            lemma_tail_sel(b, all, n);
        }
        lemma_sel64_unique(a2, b2, all2, (n - 1) as nat);
        assert(a.len() == b.len());
        assert forall|i: int| 0 <= i < a.len() implies a[i] == b[i] by {
            if i > 0 {
                assert(a2[i - 1] == a[i]);
                assert(b2[i - 1] == b[i]);
                assert(a2[i - 1] == b2[i - 1]);
            }
        }
        assert(a =~= b);
    }
}

/// Removing the head of a sorted selection leaves a sorted selection of
/// what remains.
proof fn lemma_tail_sel(a: Seq<u64>, all: Multiset<u64>, n: nat)
    requires
        sel64(a, all, n),
        a.len() > 0,
    ensures
        sel64(a.drop_first(), all.remove(a[0]), (n - 1) as nat),
{
    let h = a[0];
    let a2 = a.drop_first();
    let all2 = all.remove(h);
    assert(a2 =~= a.remove(0));
    assert(a.remove(0).to_multiset() == a.to_multiset().remove(h));
    assert(a.to_multiset().count(h) > 0) by {
        assert(a.contains(a[0]));
    }
    assert(all.count(h) > 0);
    assert(all2.len() == all.len() - 1) by {
        assert(all.sub(Multiset::singleton(h)).len() == all.len() - 1) by {
            assert(Multiset::singleton(h).subset_of(all)) by {
                assert(Multiset::singleton(h).count(h) == 1);
                assert forall|y: u64| Multiset::singleton(h).count(y) <= all.count(y) by {
                    if y != h {
                        assert(Multiset::singleton(h).count(y) == 0);
                    }
                }
            }
        }
        assert(all.remove(h) == all.sub(Multiset::singleton(h)));
    }
    assert(a2.len() == min_nat((n - 1) as nat, all2.len()));
    assert forall|y: u64| a2.to_multiset().count(y) <= all2.count(y) by {
        assert(a.to_multiset().count(y) <= all.count(y));
    }
    assert forall|w: u64|
        #![trigger all2.count(w)]
        all2.count(w) > a2.to_multiset().count(w) implies below64(w, a2) by {
        assert(all.count(w) > a.to_multiset().count(w));
        assert(below64(w, a));
        assert forall|i: int| 0 <= i < a2.len() implies w <= a2[i] by {
            assert(a2[i] == a[i + 1]);
            assert(w <= a[i + 1]);
        }
    }
    assert forall|i: int, j: int| 0 <= i < j < a2.len() implies a2[i] >= a2[j] by {
        assert(a2[i] == a[i + 1] && a2[j] == a[j + 1]);
        assert(a[i + 1] >= a[j + 1]);
    }
}

/// Law: the sizes a ranking reports are a function of the sizes inserted.
/// Two rankings of capacity `n`, drawn from insertion sequences that carry
/// the same sizes in the same order, report the same sizes in the same
/// order — whichever entries were kept when sizes tied. In particular, a
/// second scan of an unmodified tree ranks the same sizes as the first.
pub proof fn lemma_ranking_sizes_unique<T: Weighted>(
    a: Seq<T>,
    b: Seq<T>,
    all_a: Seq<T>,
    all_b: Seq<T>,
    n: nat,
)
    requires
        is_top_selection(a, all_a, n),
        is_top_selection(b, all_b, n),
        weights_of(all_a) == weights_of(all_b),
    ensures
        weights_of(a) == weights_of(b),
{
    lemma_top_selection_weights(a, all_a, n);
    lemma_top_selection_weights(b, all_b, n);
    lemma_sel64_unique(weights_of(a), weights_of(b), weights_of(all_a).to_multiset(), n);
}

/// Law: when the inserted sizes are pairwise distinct there are no ties to
/// break, and the ranking is determined entirely — labels included: any
/// two rankings drawn from the same insertion sequence are equal. (With
/// tied sizes the choice among equal-sized entries is deliberately left
/// open, and only the reported sizes are determined, as
/// [`lemma_ranking_sizes_unique`] states.)
pub proof fn lemma_ranking_unique_distinct<T: Weighted>(a: Seq<T>, b: Seq<T>, all: Seq<T>, n: nat)
    requires
        is_top_selection(a, all, n),
        is_top_selection(b, all, n),
        forall|i: int, j: int|
            0 <= i < j < all.len() ==> #[trigger] all[i].weight() != #[trigger] all[j].weight(),
    ensures
        a == b,
{
    lemma_ranking_sizes_unique(a, b, all, all, n);
    assert(a.len() == b.len());
    assert forall|i: int| 0 <= i < a.len() implies a[i] == b[i] by {
        assert(weights_of(a)[i] == a[i].weight());
        assert(weights_of(b)[i] == b[i].weight());
        assert(a[i].weight() == b[i].weight());
        assert(a.contains(a[i]));
        assert(a.to_multiset().count(a[i]) > 0);
        assert(all.to_multiset().count(a[i]) > 0);
        assert(all.contains(a[i]));
        assert(b.contains(b[i]));
        assert(b.to_multiset().count(b[i]) > 0);
        assert(all.to_multiset().count(b[i]) > 0);
        assert(all.contains(b[i]));
        let k1 = choose|k: int| 0 <= k < all.len() && all[k] == a[i];
        let k2 = choose|k: int| 0 <= k < all.len() && all[k] == b[i];
        if k1 != k2 {
            if k1 < k2 {
                assert(all[k1].weight() != all[k2].weight());
            } else {
                assert(all[k2].weight() != all[k1].weight());
            }
            assert(false);
        }
    }
    assert(a =~= b);
}

} // verus!
