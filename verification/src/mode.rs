//! The mode of a sample: its most frequent value or values.
use crate::ieee::{frequency_key, key_of};
use std::collections::HashMap;
use vstd::prelude::*;

verus! {

/// How often the value with key `k` occurs in `s`. Values are told apart by
/// their keys (see [`key_of`]): exact equality, no tolerance.
pub open spec fn frequency(s: Seq<u64>, k: u64) -> nat
    decreases s.len(),
{
    if s.len() == 0 {
        0
    } else {
        frequency(s.drop_last(), k) + if key_of(s.last()) == k {
            1nat
        } else {
            0nat
        }
    }
}

/// `k` is a most frequent value of `s`: it occurs, and nothing occurs more
/// often.
pub open spec fn modal(s: Seq<u64>, k: u64) -> bool {
    frequency(s, k) > 0 && forall|j: u64| frequency(s, j) <= frequency(s, k)
}

/// No value occurs twice in `s`.
pub open spec fn all_distinct(s: Seq<u64>) -> bool {
    forall|i: int, j: int| 0 <= i < j < s.len() ==> key_of(s[i]) != key_of(s[j])
}

/// `s` has a mode: it is a single value, or some value in it repeats.
pub open spec fn has_mode(s: Seq<u64>) -> bool {
    s.len() == 1 || exists|k: u64| frequency(s, k) >= 2
}

/// A value cannot occur more often than the sample has values.
pub proof fn lemma_frequency_at_most_len(s: Seq<u64>, k: u64)
    ensures
        frequency(s, k) <= s.len(),
    decreases s.len(),
{
    if s.len() > 0 {
        lemma_frequency_at_most_len(s.drop_last(), k);
    }
}

/// A value that stands in the sample occurs in it, and only such values do.
pub proof fn lemma_frequency_positive(s: Seq<u64>, k: u64)
    ensures
        frequency(s, k) > 0 <==> exists|i: int| 0 <= i < s.len() && key_of(#[trigger] s[i]) == k,
    decreases s.len(),
{
    if s.len() > 0 {
        let init = s.drop_last();
        lemma_frequency_positive(init, k);
        if frequency(s, k) > 0 {
            if key_of(s.last()) == k {
                assert(key_of(s[s.len() - 1]) == k);
            } else {
                let i = choose|i: int| 0 <= i < init.len() && key_of(#[trigger] init[i]) == k;
                assert(key_of(s[i]) == k);
            }
        }
        if exists|i: int| 0 <= i < s.len() && key_of(#[trigger] s[i]) == k {
            let i = choose|i: int| 0 <= i < s.len() && key_of(#[trigger] s[i]) == k;
            if i < s.len() - 1 {
                assert(key_of(init[i]) == k);
            }
        }
    }
}

/// Some value repeats exactly when the values are not all distinct.
pub proof fn lemma_repeats_iff_not_distinct(s: Seq<u64>)
    ensures
        (exists|k: u64| frequency(s, k) >= 2) <==> !all_distinct(s),
    decreases s.len(),
{
    if s.len() > 0 {
        let init = s.drop_last();
        let last_key = key_of(s.last());
        lemma_repeats_iff_not_distinct(init);
        lemma_frequency_positive(init, last_key);
        if exists|k: u64| frequency(s, k) >= 2 {
            let k = choose|k: u64| frequency(s, k) >= 2;
            if frequency(init, k) >= 2 {
                let (i, j) = choose|i: int, j: int|
                    0 <= i < j < init.len() && key_of(init[i]) == key_of(init[j]);
                assert(key_of(s[i]) == key_of(s[j]));
            } else {
                let i = choose|i: int| 0 <= i < init.len() && key_of(#[trigger] init[i]) == k;
                assert(key_of(s[i]) == key_of(s[s.len() - 1]));
            }
        }
        if !all_distinct(s) {
            let (i, j) = choose|i: int, j: int|
                0 <= i < j < s.len() && key_of(s[i]) == key_of(s[j]);
            if j < s.len() - 1 {
                assert(key_of(init[i]) == key_of(init[j]));
                let k = choose|k: u64| frequency(init, k) >= 2;
                assert(frequency(s, k) >= 2);
            } else {
                assert(key_of(init[i]) == last_key);
                assert(frequency(s, last_key) >= 2);
            }
        }
    }
}

/// A sample of one value has that value as its only mode.
pub proof fn lemma_mode_of_one(x: u64)
    ensures
        has_mode(seq![x]),
        forall|k: u64| modal(seq![x], k) <==> k == key_of(x),
{
    let s = seq![x];
    assert forall|k: u64| frequency(s, k) == (if k == key_of(x) {
        1nat
    } else {
        0nat
    }) by {
        assert(s.drop_last() =~= Seq::<u64>::empty());
        assert(frequency(s.drop_last(), k) == 0);
    }
}

/// A sample of several values that are all distinct has no mode, and neither
/// has the empty sample.
pub proof fn lemma_all_distinct_has_no_mode(s: Seq<u64>)
    requires
        s.len() != 1,
        all_distinct(s),
    ensures
        !has_mode(s),
{
    lemma_repeats_iff_not_distinct(s);
}

/// Counts how often each value of the sample occurs, by key.
fn tally(sample: &[u64]) -> (counts: HashMap<u64, usize>)
    ensures
        forall|k: u64|
            #![trigger counts@.contains_key(k)]
            #![trigger frequency(sample@, k)]
            counts@.contains_key(k) <==> frequency(sample@, k) > 0,
        forall|k: u64|
            #![trigger counts@[k]]
            #![trigger frequency(sample@, k)]
            counts@.contains_key(k) ==> counts@[k] == frequency(sample@, k),
{
    let mut counts: HashMap<u64, usize> = HashMap::new();
    let mut i: usize = 0;
    while i < sample.len()
        invariant
            i <= sample.len(),
            forall|k: u64| counts@.contains_key(k) <==> frequency(sample@.take(i as int), k) > 0,
            forall|k: u64|
                counts@.contains_key(k) ==> counts@[k] == frequency(sample@.take(i as int), k),
        decreases sample.len() - i,
    {
        let key: u64 = frequency_key(sample[i]);
        proof {
            assert(sample@.take(i + 1).drop_last() =~= sample@.take(i as int));
            lemma_frequency_at_most_len(sample@.take(i as int), key);
        }
        let count = counts.entry(key).or_insert(0);
        *count = *count + 1;
        i = i + 1;
    }
    proof {
        assert(sample@.take(i as int) =~= sample@);
    }
    counts
}

/// The highest count in the table, or 0 for an empty table.
fn highest(counts: &HashMap<u64, usize>) -> (max: usize)
    ensures
        forall|k: u64| counts@.contains_key(k) ==> #[trigger] counts@[k] <= max,
        max > 0 ==> exists|k: u64| counts@.contains_key(k) && counts@[k] == max,
{
    let mut max: usize = 0;
    let ghost mut best: u64 = 0;
    for pair in it: counts.iter()
        invariant
            forall|j: int| 0 <= j < it.index() ==> *(#[trigger] it.seq()[j]).1 <= max,
            max > 0 ==> counts@.contains_key(best) && counts@[best] == max,
    {
        let (key, count) = pair;
        if *count > max {
            max = *count;
            proof {
                best = *key;
            }
        }
    }
    max
}

/// Among the first `upto` entries of a table walk there is one for key `k`
/// with the given count.
spec fn listed(entries: Seq<(&u64, &usize)>, upto: int, k: u64, count: usize) -> bool {
    exists|j: int| 0 <= j < upto && *(#[trigger] entries[j]).0 == k && *entries[j].1 == count
}

/// The mode of `sample`: the keys of its most frequent values, each once, in
/// no particular order.
///
/// There is no mode, and the result is `None`, where the sample is empty, and
/// where it has more than one value and none of them repeats. A sample of a
/// single value has that value as its mode.
pub fn mode(sample: &[u64]) -> (r: Option<Vec<u64>>)
    ensures
        sample@.len() == 0 ==> r is None,
        r is Some <==> has_mode(sample@),
        r matches Some(modes) ==> {
            &&& modes@.len() > 0
            &&& modes@.no_duplicates()
            &&& forall|k: u64| modes@.contains(k) <==> modal(sample@, k)
        },
{
    if sample.len() == 0 {
        proof {
            assert forall|k: u64| frequency(sample@, k) < 2 by {
                lemma_frequency_at_most_len(sample@, k);
            }
        }
        return None;
    }
    let counts = tally(sample);
    let max: usize = highest(&counts);
    if max <= 1 && sample.len() > 1 {
        return None;
    }
    proof {
        // The table is not empty, so its highest count is attained, and the
        // modal values are exactly the keys that attain it.
        let first = key_of(sample@[0]);
        lemma_frequency_positive(sample@, first);
        assert(counts@.contains_key(first));
        assert forall|k: u64| modal(sample@, k) <==> counts@.contains_key(k) && counts@[k]
            == max by {
            assert(max > 0);
            let best = choose|best: u64| counts@.contains_key(best) && counts@[best] == max;
            assert(frequency(sample@, best) == max);
            if modal(sample@, k) {
                assert(frequency(sample@, best) <= frequency(sample@, k));
                assert(counts@.contains_key(k));
            }
            if counts@.contains_key(k) && counts@[k] == max {
                assert forall|j: u64| frequency(sample@, j) <= frequency(sample@, k) by {
                    if frequency(sample@, j) > 0 {
                        assert(counts@.contains_key(j));
                    }
                }
            }
        }
    }
    let mut modes: Vec<u64> = Vec::new();
    let entries = counts.iter();
    for pair in it: entries
        invariant
            it.seq().no_duplicates(),
            forall|j: int|
                0 <= j < it.seq().len() ==> counts@.contains_key(*(#[trigger] it.seq()[j]).0)
                    && counts@[*it.seq()[j].0] == *it.seq()[j].1,
            forall|k: u64|
                counts@.contains_key(k) ==> exists|j: int|
                    0 <= j < it.seq().len() && *(#[trigger] it.seq()[j]).0 == k,
            forall|k: u64| modal(sample@, k) <==> counts@.contains_key(k) && counts@[k] == max,
            forall|a: int|
                0 <= a < modes.len() ==> listed(it.seq(), it.index(), #[trigger] modes[a], max),
            forall|j: int|
                0 <= j < it.index() && *(#[trigger] it.seq()[j]).1 == max ==> modes@.contains(
                    *it.seq()[j].0,
                ),
            modes@.no_duplicates(),
    {
        let (key, count) = pair;
        if *count == max {
            let ghost before = modes@;
            proof {
                // A walk visits each key once, so this key is not listed yet.
                let here = it.index();
                assert forall|a: int| 0 <= a < modes.len() implies modes[a] != *key by {
                    assert(listed(it.seq(), it.index(), modes[a], max));
                    let j = choose|j: int|
                        0 <= j < it.index() && *(#[trigger] it.seq()[j]).0 == modes[a]
                            && *it.seq()[j].1 == max;
                    if modes[a] == *key {
                        assert(it.seq()[j] == it.seq()[here]);
                    }
                }
            }
            modes.push(*key);
            proof {
                assert(modes@[before.len() as int] == *key);
                assert forall|k: u64| before.contains(k) implies modes@.contains(k) by {
                    let a = choose|a: int| 0 <= a < before.len() && before[a] == k;
                    assert(modes@[a] == k);
                }
            }
        }
    }
    Some(modes)
}

} // verus!
