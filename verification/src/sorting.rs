//! Sorting a sample into ascending total order.
use crate::ieee::{ascending, ordering_key, rank};
use vstd::multiset::Multiset;
use vstd::prelude::*;
use vstd::relations::{sorted_by, total_ordering};
use vstd::seq_lib::{lemma_multiset_commutative, lemma_sorted_unique};

verus! {

/// `a` and `b` hold the same values, each as often as the other.
pub open spec fn permutation(a: Seq<u64>, b: Seq<u64>) -> bool {
    a.to_multiset() == b.to_multiset()
}

/// The ascending rearrangement of `s`: the one sequence in ascending total
/// order that is a permutation of `s` (see [`lemma_ascending_order`] and
/// [`lemma_ascending_order_unique`]).
pub open spec fn ascending_order(s: Seq<u64>) -> Seq<u64> {
    choose|t: Seq<u64>| ascending(t) && permutation(t, s)
}

/// The total order as a relation: `a` is at or below `b`.
spec fn at_or_below() -> spec_fn(u64, u64) -> bool {
    |a: u64, b: u64| rank(a) <= rank(b)
}

/// Every sample has an ascending rearrangement.
pub proof fn lemma_ascending_order(s: Seq<u64>)
    ensures
        ascending(ascending_order(s)),
        permutation(ascending_order(s), s),
        ascending_order(s).len() == s.len(),
{
    let leq = at_or_below();
    assert(total_ordering(leq));
    s.lemma_sort_by_ensures(leq);
    let t = s.sort_by(leq);
    assert(ascending(t)) by {
        assert forall|i: int, j: int| 0 <= i < j < t.len() implies rank(t[i]) <= rank(t[j]) by {
            assert(leq(t[i], t[j]));
        }
    }
    assert(permutation(t, s));
    ascending_order(s).to_multiset_ensures();
    s.to_multiset_ensures();
}

/// Two ascending sequences that hold the same values are the same sequence.
pub proof fn lemma_ascending_unique(a: Seq<u64>, b: Seq<u64>)
    requires
        ascending(a),
        ascending(b),
        permutation(a, b),
    ensures
        a == b,
{
    let leq = at_or_below();
    assert(total_ordering(leq));
    assert(sorted_by(a, leq));
    assert(sorted_by(b, leq));
    lemma_sorted_unique(a, b, leq);
}

/// A permutation of `s` that is ascending is the ascending rearrangement.
pub proof fn lemma_ascending_order_unique(s: Seq<u64>, t: Seq<u64>)
    requires
        ascending(t),
        permutation(t, s),
    ensures
        t == ascending_order(s),
{
    lemma_ascending_order(s);
    lemma_ascending_unique(t, ascending_order(s));
}

/// The empty sequence holds nothing.
proof fn lemma_empty_to_multiset()
    ensures
        Seq::<u64>::empty().to_multiset() == Multiset::<u64>::empty(),
{
    Seq::<u64>::empty().to_multiset_ensures();
    vstd::multiset::lemma_multiset_empty_len(Seq::<u64>::empty().to_multiset());
}

/// Merges two ascending runs into one.
fn merge(left: &Vec<u64>, right: &Vec<u64>) -> (out: Vec<u64>)
    requires
        ascending(left@),
        ascending(right@),
        left.len() + right.len() <= usize::MAX,
    ensures
        ascending(out@),
        out.len() == left.len() + right.len(),
        out@.to_multiset() == left@.to_multiset().add(right@.to_multiset()),
{
    let mut out: Vec<u64> = Vec::with_capacity(left.len() + right.len());
    let mut i: usize = 0;
    let mut j: usize = 0;
    proof {
        lemma_empty_to_multiset();
        assert(left@.take(0) =~= Seq::empty());
        assert(right@.take(0) =~= Seq::empty());
        assert(out@ =~= Seq::empty());
    }
    while i < left.len() || j < right.len()
        invariant
            ascending(left@),
            ascending(right@),
            left.len() + right.len() <= usize::MAX,
            i <= left.len(),
            j <= right.len(),
            out.len() == i + j,
            ascending(out@),
            out@.to_multiset() == left@.take(i as int).to_multiset().add(
                right@.take(j as int).to_multiset(),
            ),
            forall|k: int, m: int|
                0 <= k < out.len() && i <= m < left.len() ==> rank(out[k]) <= rank(left[m]),
            forall|k: int, m: int|
                0 <= k < out.len() && j <= m < right.len() ==> rank(out[k]) <= rank(right[m]),
        decreases left.len() - i + right.len() - j,
    {
        let take_left = if i == left.len() {
            false
        } else if j == right.len() {
            true
        } else {
            ordering_key(left[i]) <= ordering_key(right[j])
        };
        if take_left {
            proof {
                assert(left@.take(i + 1) =~= left@.take(i as int).push(left[i as int]));
                vstd::seq_lib::to_multiset_build(left@.take(i as int), left[i as int]);
                vstd::seq_lib::to_multiset_build(out@, left[i as int]);
            }
            out.push(left[i]);
            i = i + 1;
        } else {
            proof {
                assert(right@.take(j + 1) =~= right@.take(j as int).push(right[j as int]));
                vstd::seq_lib::to_multiset_build(right@.take(j as int), right[j as int]);
                vstd::seq_lib::to_multiset_build(out@, right[j as int]);
            }
            out.push(right[j]);
            j = j + 1;
        }
    }
    proof {
        assert(left@.take(i as int) =~= left@);
        assert(right@.take(j as int) =~= right@);
    }
    out
}

/// An ascending copy of `v[lo..hi]`, by merge sort.
fn sorted_range(v: &[u64], lo: usize, hi: usize) -> (out: Vec<u64>)
    requires
        lo <= hi <= v@.len(),
    ensures
        ascending(out@),
        out.len() == hi - lo,
        permutation(out@, v@.subrange(lo as int, hi as int)),
    decreases hi - lo,
{
    if hi - lo == 0 {
        let out: Vec<u64> = Vec::new();
        assert(out@ =~= v@.subrange(lo as int, hi as int));
        out
    } else if hi - lo == 1 {
        let mut out: Vec<u64> = Vec::new();
        out.push(v[lo]);
        assert(out@ =~= v@.subrange(lo as int, hi as int));
        out
    } else {
        let mid: usize = lo + (hi - lo) / 2;
        let left = sorted_range(v, lo, mid);
        let right = sorted_range(v, mid, hi);
        proof {
            let whole = v@.subrange(lo as int, hi as int);
            let first = v@.subrange(lo as int, mid as int);
            let second = v@.subrange(mid as int, hi as int);
            assert(whole =~= first + second);
            lemma_multiset_commutative(first, second);
        }
        merge(&left, &right)
    }
}

/// Reorders `sample` into ascending total order (see [`rank`]). The sample
/// keeps its values; only their order changes.
pub fn sort_ascending(sample: &mut [u64])
    ensures
        ascending(final(sample)@),
        permutation(final(sample)@, old(sample)@),
        final(sample)@ == ascending_order(old(sample)@),
        final(sample)@.len() == old(sample)@.len(),
{
    let n: usize = sample.len();
    let sorted = sorted_range(sample, 0, n);
    proof {
        assert(sample@.subrange(0, n as int) =~= sample@);
        lemma_ascending_order_unique(sample@, sorted@);
    }
    let mut i: usize = 0;
    while i < n
        invariant
            i <= n,
            n == sample@.len(),
            n == sorted@.len(),
            forall|j: int| 0 <= j < i ==> sample@[j] == sorted@[j],
        decreases n - i,
    {
        sample[i] = sorted[i];
        i = i + 1;
    }
    assert(sample@ =~= sorted@);
}

} // verus!
