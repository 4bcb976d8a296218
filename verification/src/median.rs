//! The median of a sample.
use crate::ieee::{ascending, rank};
use crate::sorting::{
    ascending_order, lemma_ascending_order, lemma_ascending_order_unique, permutation,
    sort_ascending,
};
use vstd::prelude::*;
use vstd::seq_lib::to_multiset_build;

verus! {

/// Where the median of a non-empty sample lies.
#[derive(Clone, Copy, Debug, PartialEq, Eq, Structural)]
pub enum Median {
    /// The sample has an odd number of values; this is the middle one of them
    /// in ascending order, and it is the median.
    Middle(u64),
    /// The sample has an even number of values; these are the two central
    /// ones in ascending order, the lower one first. The median is their
    /// arithmetic mean.
    Between(u64, u64),
}

/// The centre of a non-empty sequence: its middle value, or its two central
/// values where the length is even.
pub open spec fn central(s: Seq<u64>) -> Median
    recommends
        s.len() > 0,
{
    let mid = (s.len() / 2) as int;
    if s.len() % 2 == 0 {
        Median::Between(s[mid - 1], s[mid])
    } else {
        Median::Middle(s[mid])
    }
}

/// The median of a sample: the centre of its ascending rearrangement. An
/// empty sample has none.
pub open spec fn median_of(s: Seq<u64>) -> Option<Median> {
    if s.len() == 0 {
        None
    } else {
        Some(central(ascending_order(s)))
    }
}

/// The median of `sample`, or `None` for an empty sample.
///
/// As a side effect the sample is left in ascending total order: the caller
/// gets back the same values, sorted. NaNs take part in the order like any
/// other value (see [`rank`]).
pub fn mediana(sample: &mut [u64]) -> (r: Option<Median>)
    ensures
        ascending(final(sample)@),
        permutation(final(sample)@, old(sample)@),
        final(sample)@ == ascending_order(old(sample)@),
        final(sample)@.len() == old(sample)@.len(),
        r is None <==> old(sample)@.len() == 0,
        r == median_of(old(sample)@),
        r matches Some(m) ==> m == central(final(sample)@),
{
    if sample.len() == 0 {
        proof {
            lemma_ascending_order(sample@);
            assert(sample@ =~= ascending_order(sample@));
        }
        return None;
    }
    sort_ascending(sample);
    let mid: usize = sample.len() / 2;
    if sample.len() % 2 == 0 {
        Some(Median::Between(sample[mid - 1], sample[mid]))
    } else {
        Some(Median::Middle(sample[mid]))
    }
}

/// The median does not depend on the order in which the sample is given:
/// samples that are permutations of each other have the same ascending
/// rearrangement and the same median.
pub proof fn lemma_median_ignores_order(a: Seq<u64>, b: Seq<u64>)
    requires
        permutation(a, b),
    ensures
        ascending_order(a) == ascending_order(b),
        median_of(a) == median_of(b),
{
    lemma_ascending_order(a);
    lemma_ascending_order_unique(b, ascending_order(a));
    a.to_multiset_ensures();
    b.to_multiset_ensures();
}

/// The median of a sample of one value is that value.
pub proof fn lemma_median_of_one(x: u64)
    ensures
        median_of(seq![x]) == Some(Median::Middle(x)),
{
    let s = seq![x];
    lemma_ascending_order_unique(s, s);
}

/// The median of a sample of two values lies between them: the one that is
/// lower in the total order comes first.
pub proof fn lemma_median_of_two(x: u64, y: u64)
    ensures
        median_of(seq![x, y]) == Some(
            if rank(x) <= rank(y) {
                Median::Between(x, y)
            } else {
                Median::Between(y, x)
            },
        ),
{
    let s = seq![x, y];
    if rank(x) <= rank(y) {
        lemma_ascending_order_unique(s, s);
    } else {
        let t = seq![y, x];
        assert(t.to_multiset() =~= s.to_multiset()) by {
            let e = Seq::<u64>::empty();
            assert(t =~= e.push(y).push(x));
            assert(s =~= e.push(x).push(y));
            to_multiset_build(e, x);
            to_multiset_build(e, y);
            to_multiset_build(e.push(x), y);
            to_multiset_build(e.push(y), x);
        }
        lemma_ascending_order_unique(s, t);
    }
}

} // verus!
