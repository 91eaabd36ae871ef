//! Distribution statistics over a finite sequence of counts.

use vstd::prelude::*;
use vstd::relations::{sorted_by, total_ordering};
use vstd::seq_lib::*;

verus! {

/// A snapshot of the distribution of one sequence.
#[derive(Clone, Copy, Debug, PartialEq, Eq, Structural)]
pub struct Stats {
    pub sum: u64,
    pub average: u64,
    pub median: u64,
    pub p99: u64,
    pub max: u64,
}

/// Why no statistics could be computed.
#[derive(Clone, Copy, Debug, PartialEq, Eq, Structural)]
pub enum StatsError {
    /// The sequence holds no element.
    EmptySequence,
    /// The sum of the elements does not fit in 64 bits.
    SumOverflow,
}

/// The sum of all elements.
pub open spec fn seq_sum(s: Seq<u64>) -> nat
    decreases s.len(),
{
    if s.len() == 0 {
        0
    } else {
        seq_sum(s.drop_last()) + s.last() as nat
    }
}

/// `m` occurs in `s` and no element of `s` is larger.
pub open spec fn is_max_of(m: u64, s: Seq<u64>) -> bool {
    s.contains(m) && forall|i: int| 0 <= i < s.len() ==> s[i] <= m
}

/// No element is larger than one that follows it.
pub open spec fn sorted_ascending(s: Seq<u64>) -> bool {
    forall|i: int, j: int| 0 <= i <= j < s.len() ==> s[i] <= s[j]
}

/// The position of the 99th percentile in a sorted sequence of `len` elements.
pub open spec fn p99_index(len: nat) -> nat {
    len * 99 / 100
}

/// The order of the numbers.
pub open spec fn at_most() -> spec_fn(u64, u64) -> bool {
    |a: u64, b: u64| a <= b
}

/// The ascending arrangement of `data`.
pub open spec fn ascending(data: Seq<u64>) -> Seq<u64> {
    data.sort_by(at_most())
}

/// The statistics of `data`: its sum, its truncated average, the element in
/// the middle of its ascending arrangement (the upper one of two), the
/// element at ninety-nine hundredths of it, and its last element.
pub open spec fn summary(data: Seq<u64>) -> Result<Stats, StatsError> {
    if data.len() == 0 {
        Err(StatsError::EmptySequence)
    } else if seq_sum(data) > u64::MAX {
        Err(StatsError::SumOverflow)
    } else {
        Ok(
            Stats {
                sum: seq_sum(data) as u64,
                average: (seq_sum(data) / data.len()) as u64,
                median: ascending(data)[data.len() as int / 2],
                p99: ascending(data)[p99_index(data.len()) as int],
                max: ascending(data).last(),
            },
        )
    }
}

/// An arrangement of `data` in ascending order is its ascending
/// arrangement.
pub proof fn lemma_ascending_unique(data: Seq<u64>, sorted: Seq<u64>)
    requires
        sorted_ascending(sorted),
        sorted.to_multiset() == data.to_multiset(),
    ensures
        sorted == ascending(data),
{
    let leq = at_most();
    assert(total_ordering(leq));
    data.lemma_sort_by_ensures(leq);
    assert(sorted_by(sorted, leq));
    lemma_sorted_unique(sorted, ascending(data), leq);
}

/// The ascending arrangement holds the elements of `data` in ascending
/// order, and its last element is the maximum of `data`.
pub proof fn lemma_ascending(data: Seq<u64>)
    ensures
        sorted_ascending(ascending(data)),
        ascending(data).to_multiset() == data.to_multiset(),
        ascending(data).len() == data.len(),
        data.len() > 0 ==> is_max_of(ascending(data).last(), data),
{
    let leq = at_most();
    assert(total_ordering(leq));
    data.lemma_sort_by_ensures(leq);
    let sorted = ascending(data);
    assert(sorted_ascending(sorted)) by {
        assert forall|i: int, j: int| 0 <= i <= j < sorted.len() implies sorted[i] <= sorted[j] by {
            if i < j {
                assert(leq(sorted[i], sorted[j]));
            }
        }
    }
    to_multiset_len(sorted);
    to_multiset_len(data);
    if data.len() > 0 {
        lemma_last_of_sorted_is_max(data, sorted);
    }
}

/// Sorts in place with `<[u64]>::sort`: afterwards the vector holds the same
/// elements, each as often as before, in ascending order.
#[verifier::external_body]
fn sort_ascending(data: &mut Vec<u64>)
    ensures
        sorted_ascending(final(data)@),
        final(data)@.to_multiset() == old(data)@.to_multiset(),
{
    data.sort();
}

/// The last element of an ascending arrangement is the maximum of the
/// sequence it arranges.
pub proof fn lemma_last_of_sorted_is_max(original: Seq<u64>, sorted: Seq<u64>)
    requires
        original.len() > 0,
        sorted_ascending(sorted),
        sorted.to_multiset() == original.to_multiset(),
    ensures
        sorted.len() == original.len(),
        is_max_of(sorted.last(), original),
{
    to_multiset_len(sorted);
    to_multiset_len(original);
    let m = sorted.last();
    to_multiset_contains(sorted, m);
    to_multiset_contains(original, m);
    assert(sorted[sorted.len() - 1] == m);
    assert forall|i: int| 0 <= i < original.len() implies original[i] <= m by {
        to_multiset_contains(sorted, original[i]);
        to_multiset_contains(original, original[i]);
        assert(original.contains(original[i]));
        let j = choose|j: int| 0 <= j < sorted.len() && sorted[j] == original[i];
        assert(sorted[j] <= sorted[sorted.len() - 1]);
    }
}

/// Sorts `data` in place and returns its sum, truncated average, upper
/// median, 99th percentile and maximum.
pub fn calculate_stats(data: &mut Vec<u64>) -> (r: Result<Stats, StatsError>)
    ensures
        final(data)@ == ascending(old(data)@),
        sorted_ascending(final(data)@),
        final(data)@.to_multiset() == old(data)@.to_multiset(),
        r == summary(old(data)@),
        r matches Ok(s) ==> {
            &&& s.sum == seq_sum(old(data)@)
            &&& s.average == seq_sum(old(data)@) / old(data)@.len()
            &&& s.median == final(data)@[old(data)@.len() as int / 2]
            &&& s.p99 == final(data)@[p99_index(old(data)@.len()) as int]
            &&& is_max_of(s.max, old(data)@)
        },
{
    let len = data.len();
    let mut total: u128 = 0;
    let mut i: usize = 0;
    while i < len
        invariant
            len == data@.len(),
            0 <= i <= len,
            total == seq_sum(data@.take(i as int)),
            total <= i * u64::MAX,
        decreases len - i,
    {
        assert(data@.take(i + 1).drop_last() == data@.take(i as int));
        total = total + data[i] as u128;
        i += 1;
    }
    assert(data@.take(len as int) == data@);
    let ghost original = data@;
    sort_ascending(data);
    proof {
        to_multiset_len(original);
        to_multiset_len(data@);
        lemma_ascending_unique(original, data@);
    }
    if len == 0 {
        return Err(StatsError::EmptySequence);
    }
    if total > u64::MAX as u128 {
        return Err(StatsError::SumOverflow);
    }
    proof {
        lemma_last_of_sorted_is_max(original, data@);
    }
    let sum = total as u64;
    let p99_at = ((len as u128) * 99 / 100) as usize;
    Ok(
        Stats {
            sum,
            average: sum / (len as u64),
            median: data[len / 2],
            p99: data[p99_at],
            max: data[len - 1],
        },
    )
}

} // verus!
