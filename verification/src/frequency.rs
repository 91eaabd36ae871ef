//! The frequency analyzer: how often each key prefix occurs among the
//! storage slots, in bounded memory.

use crate::bytes::bytes_eq;
use crate::heap::{Counted, MinHeap};
use crate::iterators::{PreimageIterator, SourceError};
use crate::types::{AccountStorageItem, ConfigurationError, StorageKey};
use std::collections::HashMap;
use vstd::multiset::Multiset;
use vstd::pervasive::unreached;
use vstd::prelude::*;
use vstd::seq_lib::{to_multiset_contains, to_multiset_len};
use vstd::slice::{slice_subrange, slice_to_vec};
use vstd::std_specs::hash::group_hash_axioms;

verus! {

/// The first `n` bytes of a key.
pub open spec fn prefix_of(key: Seq<u8>, n: nat) -> Seq<u8> {
    key.take(n as int)
}

/// The counts after one more occurrence of the prefix `p`.
pub open spec fn bump(counts: Map<Seq<u8>, nat>, p: Seq<u8>) -> Map<Seq<u8>, nat> {
    if counts.dom().contains(p) {
        counts.insert(p, counts[p] + 1)
    } else {
        counts.insert(p, 1)
    }
}

/// The counts without the prefixes that occurred once.
pub open spec fn prune(counts: Map<Seq<u8>, nat>) -> Map<Seq<u8>, nat> {
    Map::new(|p: Seq<u8>| counts.dom().contains(p) && counts[p] > 1, |p: Seq<u8>| counts[p])
}

/// The counts after one more occurrence of `p` under the ceiling `ceiling`:
/// where the table then holds more prefixes than the ceiling, the prefixes
/// that occurred once leave it.
pub open spec fn observe(counts: Map<Seq<u8>, nat>, p: Seq<u8>, ceiling: nat) -> Map<
    Seq<u8>,
    nat,
> {
    let bumped = bump(counts, p);
    if bumped.dom().len() > ceiling {
        prune(bumped)
    } else {
        bumped
    }
}

/// Why the analysis stopped.
#[derive(Clone, Debug, PartialEq, Eq)]
pub enum FrequencyError {
    /// The configuration was refused.
    Configuration(ConfigurationError),
    /// The table has counted as many slots as a counter can hold.
    SlotCountOverflow,
    /// The traversal failed.
    Source(SourceError),
}

/// The counts after the storage slots among `items`, taken in order under
/// the ceiling `ceiling`.
pub open spec fn count_items(items: Seq<AccountStorageItem>, n: nat, ceiling: nat) -> Map<
    Seq<u8>,
    nat,
>
    decreases items.len(),
{
    if items.len() == 0 {
        Map::empty()
    } else {
        match items.last() {
            AccountStorageItem::Account(_) => count_items(items.drop_last(), n, ceiling),
            AccountStorageItem::StorageSlot(_, key) => observe(
                count_items(items.drop_last(), n, ceiling),
                prefix_of(key@, n),
                ceiling,
            ),
        }
    }
}

/// How often each prefix occurs among the storage slots of `items`.
pub open spec fn tally_items(items: Seq<AccountStorageItem>, n: nat) -> Map<Seq<u8>, nat>
    decreases items.len(),
{
    if items.len() == 0 {
        Map::empty()
    } else {
        match items.last() {
            AccountStorageItem::Account(_) => tally_items(items.drop_last(), n),
            AccountStorageItem::StorageSlot(_, key) => bump(
                tally_items(items.drop_last(), n),
                prefix_of(key@, n),
            ),
        }
    }
}

/// The number of storage slots among `items`.
pub open spec fn slot_count(items: Seq<AccountStorageItem>) -> nat
    decreases items.len(),
{
    if items.len() == 0 {
        0
    } else if items.last() is StorageSlot {
        slot_count(items.drop_last()) + 1
    } else {
        slot_count(items.drop_last())
    }
}

/// The prefixes that occur among the slots of `items` are finitely many,
/// and no more than the slots.
pub proof fn lemma_tally_bound(items: Seq<AccountStorageItem>, n: nat)
    ensures
        tally_items(items, n).dom().finite(),
        tally_items(items, n).dom().len() <= slot_count(items),
    decreases items.len(),
{
    if items.len() > 0 {
        lemma_tally_bound(items.drop_last(), n);
    }
}

/// Where the ceiling is no lower than the number of storage slots, nothing
/// is pruned during the pass, and the table holds how often each prefix
/// occurred.
pub proof fn lemma_exact_below_ceiling(items: Seq<AccountStorageItem>, n: nat, ceiling: nat)
    requires
        slot_count(items) <= ceiling,
    ensures
        count_items(items, n, ceiling) == tally_items(items, n),
    decreases items.len(),
{
    if items.len() > 0 {
        lemma_exact_below_ceiling(items.drop_last(), n, ceiling);
        lemma_tally_bound(items, n);
    }
}

/// A ranking of one line shows the prefix that occurs more often than every
/// other.
pub proof fn lemma_top_one(rows: Seq<FrequencyRow>, counts: Map<Seq<u8>, nat>, p: Seq<u8>, n: nat)
    requires
        counts.dom().finite(),
        is_top_k(rows, counts, 1, n),
        counts.dom().contains(p),
        forall|q: Seq<u8>| counts.dom().contains(q) && q != p ==> counts[q] < counts[p],
    ensures
        rows.len() == 1,
        rows[0].prefix@ == p,
        rows[0].count == counts[p],
{
    assert(counts.dom().len() >= 1) by {
        if counts.dom().len() == 0 {
            assert(counts.dom() =~= Set::<Seq<u8>>::empty());
        }
    }
    if !listed(rows, p) {
        assert(counts.dom().contains(rows[0].prefix@));
    }
}

/// Where the ceiling is no lower than the number of storage slots, a
/// prefix that occurs more than once and more often than every other stands
/// alone on the ranking of one line, with the number of its occurrences.
pub proof fn lemma_most_frequent_prefix(
    items: Seq<AccountStorageItem>,
    n: nat,
    ceiling: nat,
    p: Seq<u8>,
    rows: Seq<FrequencyRow>,
)
    requires
        slot_count(items) <= ceiling,
        tally_items(items, n).dom().contains(p),
        tally_items(items, n)[p] > 1,
        forall|q: Seq<u8>|
            tally_items(items, n).dom().contains(q) && q != p ==> tally_items(items, n)[q]
                < tally_items(items, n)[p],
        is_top_k(rows, prune(count_items(items, n, ceiling)), 1, n),
    ensures
        rows.len() == 1,
        rows[0].prefix@ == p,
        rows[0].count == tally_items(items, n)[p],
{
    let tally = tally_items(items, n);
    lemma_exact_below_ceiling(items, n, ceiling);
    lemma_tally_bound(items, n);
    let kept = prune(tally);
    assert(kept.dom().subset_of(tally.dom()));
    vstd::set_lib::lemma_len_subset(kept.dom(), tally.dom());
    lemma_top_one(rows, kept, p, n);
}

/// The prefix that an entry stands for.
spec fn entry_prefix(e: Counted, n: nat) -> Seq<u8> {
    prefix_of(e.key@, n)
}

/// The entry at `i` stands for the prefix `p`.
spec fn holds_at(entries: Seq<Counted>, n: nat, i: int, p: Seq<u8>) -> bool {
    0 <= i < entries.len() && entry_prefix(entries[i], n) == p
}

/// No two entries stand for one prefix.
spec fn distinct_prefixes(entries: Seq<Counted>, n: nat) -> bool {
    forall|i: int, j: int|
        0 <= i < entries.len() && 0 <= j < entries.len() && i != j ==> entry_prefix(
            #[trigger] entries[i],
            n,
        ) != entry_prefix(#[trigger] entries[j], n)
}

/// The counts that a sequence of entries holds.
spec fn entries_map(entries: Seq<Counted>, n: nat) -> Map<Seq<u8>, nat> {
    Map::new(
        |p: Seq<u8>| exists|i: int| holds_at(entries, n, i, p),
        |p: Seq<u8>| entries[choose|i: int| holds_at(entries, n, i, p)].count as nat,
    )
}

/// The entry at `i` decides the count of its prefix.
proof fn lemma_entry_decides(entries: Seq<Counted>, n: nat, i: int)
    requires
        distinct_prefixes(entries, n),
        0 <= i < entries.len(),
    ensures
        entries_map(entries, n).dom().contains(entry_prefix(entries[i], n)),
        entries_map(entries, n)[entry_prefix(entries[i], n)] == entries[i].count,
{
    let p = entry_prefix(entries[i], n);
    assert(holds_at(entries, n, i, p));
    let c = choose|c: int| holds_at(entries, n, c, p);
    assert(c == i);
}

/// A prefix of the map is held by some entry.
proof fn lemma_prefix_held(entries: Seq<Counted>, n: nat, p: Seq<u8>) -> (i: int)
    requires
        entries_map(entries, n).dom().contains(p),
    ensures
        holds_at(entries, n, i, p),
{
    choose|i: int| holds_at(entries, n, i, p)
}

/// A new prefix at the end adds one element to the map.
proof fn lemma_map_push(entries: Seq<Counted>, n: nat, e: Counted)
    requires
        distinct_prefixes(entries, n),
        !entries_map(entries, n).dom().contains(entry_prefix(e, n)),
    ensures
        distinct_prefixes(entries.push(e), n),
        entries_map(entries.push(e), n) == entries_map(entries, n).insert(
            entry_prefix(e, n),
            e.count as nat,
        ),
{
    let after = entries.push(e);
    let p = entry_prefix(e, n);
    assert forall|i: int, j: int|
        0 <= i < after.len() && 0 <= j < after.len() && i != j implies entry_prefix(
        #[trigger] after[i],
        n,
    ) != entry_prefix(#[trigger] after[j], n) by {
        if i < entries.len() && j < entries.len() {
            assert(after[i] == entries[i] && after[j] == entries[j]);
        } else if i < entries.len() {
            assert(holds_at(entries, n, i, entry_prefix(entries[i], n)));
        } else {
            assert(holds_at(entries, n, j, entry_prefix(entries[j], n)));
        }
    }
    let m = entries_map(entries, n).insert(p, e.count as nat);
    assert forall|q: Seq<u8>| entries_map(after, n).dom().contains(q) == m.dom().contains(q) by {
        if entries_map(after, n).dom().contains(q) {
            let i = lemma_prefix_held(after, n, q);
            if i < entries.len() {
                assert(holds_at(entries, n, i, q));
            }
        }
        if m.dom().contains(q) {
            if q == p {
                assert(holds_at(after, n, entries.len() as int, q));
            } else {
                let i = lemma_prefix_held(entries, n, q);
                assert(holds_at(after, n, i, q));
            }
        }
    }
    assert forall|q: Seq<u8>| m.dom().contains(q) implies entries_map(after, n)[q] == m[q] by {
        if q == p {
            lemma_entry_decides(after, n, entries.len() as int);
        } else {
            let i = lemma_prefix_held(entries, n, q);
            lemma_entry_decides(entries, n, i);
            assert(after[i] == entries[i]);
            lemma_entry_decides(after, n, i);
        }
    }
    assert(entries_map(after, n) =~= m);
}

/// A changed count changes the map at the entry's prefix alone.
proof fn lemma_map_update(entries: Seq<Counted>, n: nat, i: int, e: Counted)
    requires
        distinct_prefixes(entries, n),
        0 <= i < entries.len(),
        entry_prefix(e, n) == entry_prefix(entries[i], n),
    ensures
        distinct_prefixes(entries.update(i, e), n),
        entries_map(entries.update(i, e), n) == entries_map(entries, n).insert(
            entry_prefix(e, n),
            e.count as nat,
        ),
{
    let after = entries.update(i, e);
    let p = entry_prefix(e, n);
    assert forall|a: int, b: int|
        0 <= a < after.len() && 0 <= b < after.len() && a != b implies entry_prefix(
        #[trigger] after[a],
        n,
    ) != entry_prefix(#[trigger] after[b], n) by {
        assert(entry_prefix(after[a], n) == entry_prefix(entries[a], n));
        assert(entry_prefix(after[b], n) == entry_prefix(entries[b], n));
    }
    let m = entries_map(entries, n).insert(p, e.count as nat);
    assert forall|q: Seq<u8>| entries_map(after, n).dom().contains(q) == m.dom().contains(q) by {
        if entries_map(after, n).dom().contains(q) {
            let a = lemma_prefix_held(after, n, q);
            assert(entry_prefix(after[a], n) == entry_prefix(entries[a], n));
            assert(holds_at(entries, n, a, q));
        }
        if m.dom().contains(q) {
            if q == p {
                assert(holds_at(after, n, i, q));
            } else {
                let a = lemma_prefix_held(entries, n, q);
                assert(holds_at(after, n, a, q));
            }
        }
    }
    assert forall|q: Seq<u8>| m.dom().contains(q) implies entries_map(after, n)[q] == m[q] by {
        if q == p {
            lemma_entry_decides(after, n, i);
        } else {
            let a = lemma_prefix_held(entries, n, q);
            lemma_entry_decides(entries, n, a);
            assert(after[a] == entries[a]);
            lemma_entry_decides(after, n, a);
        }
    }
    assert(entries_map(after, n) =~= m);
}

/// The map of entries with distinct prefixes has as many elements as there
/// are entries.
proof fn lemma_map_len(entries: Seq<Counted>, n: nat)
    requires
        distinct_prefixes(entries, n),
    ensures
        entries_map(entries, n).dom().finite(),
        entries_map(entries, n).dom().len() == entries.len(),
    decreases entries.len(),
{
    if entries.len() == 0 {
        assert forall|q: Seq<u8>| !entries_map(entries, n).dom().contains(q) by {
            if entries_map(entries, n).dom().contains(q) {
                let i = lemma_prefix_held(entries, n, q);
            }
        }
        assert(entries_map(entries, n).dom() =~= Set::<Seq<u8>>::empty());
    } else {
        let front = entries.drop_last();
        let e = entries.last();
        assert(distinct_prefixes(front, n)) by {
            assert forall|i: int, j: int|
                0 <= i < front.len() && 0 <= j < front.len() && i != j implies entry_prefix(
                #[trigger] front[i],
                n,
            ) != entry_prefix(#[trigger] front[j], n) by {
                assert(front[i] == entries[i] && front[j] == entries[j]);
            }
        }
        lemma_map_len(front, n);
        if entries_map(front, n).dom().contains(entry_prefix(e, n)) {
            let i = lemma_prefix_held(front, n, entry_prefix(e, n));
            assert(front[i] == entries[i]);
            assert(entry_prefix(entries[i], n) == entry_prefix(entries[entries.len() - 1], n));
        }
        lemma_map_push(front, n, e);
        assert(front.push(e) == entries);
    }
}

/// The position `a` of the kept entries was taken from position `j`.
spec fn taken_from(picks: Seq<int>, a: int, j: int) -> bool {
    0 <= a < picks.len() && picks[a] == j
}

/// The entries of `entries` whose count is above one, in their order.
fn kept_entries(entries: &Vec<Counted>, Ghost(n): Ghost<nat>) -> (kept: Vec<Counted>)
    requires
        distinct_prefixes(entries@, n),
    ensures
        distinct_prefixes(kept@, n),
        entries_map(kept@, n) == prune(entries_map(entries@, n)),
        kept@.len() <= entries@.len(),
        forall|a: int| 0 <= a < kept@.len() ==> entries@.contains(#[trigger] kept@[a]),
{
    let mut kept: Vec<Counted> = Vec::new();
    let ghost mut picks: Seq<int> = Seq::empty();
    let mut i: usize = 0;
    while i < entries.len()
        invariant
            0 <= i <= entries@.len(),
            picks.len() == kept@.len(),
            kept@.len() <= i,
            forall|a: int|
                0 <= a < picks.len() ==> 0 <= #[trigger] picks[a] < i && kept@[a]
                    == entries@[picks[a]] && entries@[picks[a]].count > 1,
            forall|a: int, b: int| 0 <= a < b < picks.len() ==> picks[a] < picks[b],
            forall|j: int|
                0 <= j < i && (#[trigger] entries@[j]).count > 1 ==> exists|a: int|
                    taken_from(picks, a, j),
        decreases entries@.len() - i,
    {
        let e = entries[i];
        if e.count > 1 {
            let ghost before = picks;
            kept.push(e);
            proof {
                picks = picks.push(i as int);
                assert(taken_from(picks, before.len() as int, i as int));
                assert forall|j: int|
                    0 <= j < i + 1 && (#[trigger] entries@[j]).count > 1 implies exists|a: int|
                    taken_from(picks, a, j) by {
                    if j < i {
                        let a = choose|a: int| taken_from(before, a, j);
                        assert(taken_from(picks, a, j));
                    }
                }
            }
        }
        i += 1;
    }
    proof {
        let src = entries@;
        assert forall|a: int, b: int|
            0 <= a < kept@.len() && 0 <= b < kept@.len() && a != b implies entry_prefix(
            #[trigger] kept@[a],
            n,
        ) != entry_prefix(#[trigger] kept@[b], n) by {
            assert(picks[a] != picks[b]) by {
                if a < b {
                    assert(picks[a] < picks[b]);
                } else {
                    assert(picks[b] < picks[a]);
                }
            }
            assert(kept@[a] == src[picks[a]] && kept@[b] == src[picks[b]]);
        }
        let pruned = prune(entries_map(src, n));
        assert forall|q: Seq<u8>| entries_map(kept@, n).dom().contains(q) == pruned.dom().contains(
            q,
        ) by {
            if entries_map(kept@, n).dom().contains(q) {
                let a = lemma_prefix_held(kept@, n, q);
                assert(kept@[a] == src[picks[a]]);
                lemma_entry_decides(src, n, picks[a]);
            }
            if pruned.dom().contains(q) {
                let j = lemma_prefix_held(src, n, q);
                lemma_entry_decides(src, n, j);
                let a = choose|a: int| taken_from(picks, a, j);
                assert(holds_at(kept@, n, a, q));
            }
        }
        assert forall|q: Seq<u8>| pruned.dom().contains(q) implies entries_map(kept@, n)[q]
            == pruned[q] by {
            let j = lemma_prefix_held(src, n, q);
            lemma_entry_decides(src, n, j);
            let a = choose|a: int| taken_from(picks, a, j);
            lemma_entry_decides(kept@, n, a);
        }
        assert(entries_map(kept@, n) =~= pruned);
        assert forall|a: int| 0 <= a < kept@.len() implies src.contains(#[trigger] kept@[a]) by {
            assert(kept@[a] == src[picks[a]]);
        }
    }
    kept
}

/// One line of the ranking: a prefix, how often it occurred, the bytes that
/// its occurrences take, and the bytes of all lines down to this one.
#[derive(Clone, Debug, PartialEq, Eq)]
pub struct FrequencyRow {
    pub prefix: Vec<u8>,
    pub count: u32,
    pub footprint: u64,
    pub cumulative_footprint: u128,
}

/// The bytes that the first `upto` lines of a ranking take together, at
/// `n` bytes for each occurrence.
pub open spec fn footprint_sum(rows: Seq<FrequencyRow>, n: nat, upto: int) -> nat
    decreases upto,
{
    if upto <= 0 {
        0
    } else {
        footprint_sum(rows, n, upto - 1) + rows[upto - 1].count as nat * n
    }
}

/// The prefix `p` stands on a line of the ranking.
pub open spec fn listed(rows: Seq<FrequencyRow>, p: Seq<u8>) -> bool {
    exists|a: int| 0 <= a < rows.len() && (#[trigger] rows[a]).prefix@ == p
}

/// `rows` ranks the `k` most frequent prefixes of `counts`: each line holds
/// a prefix of the table with its count, no prefix stands on two lines, the
/// counts fall from line to line, and a prefix is left out only where the
/// ranking is full and no line counts less than it.
pub open spec fn is_top_k(rows: Seq<FrequencyRow>, counts: Map<Seq<u8>, nat>, k: nat, n: nat)
    -> bool {
    &&& rows.len() == if counts.dom().len() < k {
        counts.dom().len()
    } else {
        k
    }
    &&& forall|a: int|
        0 <= a < rows.len() ==> counts.dom().contains((#[trigger] rows[a]).prefix@)
            && counts[rows[a].prefix@] == rows[a].count
    &&& forall|a: int, b: int|
        0 <= a < rows.len() && 0 <= b < rows.len() && a != b ==> (#[trigger] rows[a]).prefix@
            != (#[trigger] rows[b]).prefix@
    &&& forall|a: int, b: int|
        0 <= a < b < rows.len() ==> (#[trigger] rows[a]).count >= (#[trigger] rows[b]).count
    &&& forall|p: Seq<u8>| #[trigger]
        counts.dom().contains(p) && !listed(rows, p) ==> rows.len() == k && forall|a: int|
            0 <= a < rows.len() ==> counts[p] <= (#[trigger] rows[a]).count
    &&& forall|a: int|
        0 <= a < rows.len() ==> (#[trigger] rows[a]).footprint == rows[a].count * n
            && rows[a].cumulative_footprint == footprint_sum(rows, n, a + 1)
}

/// The counts fall from entry to entry.
spec fn falling(best: Seq<Counted>) -> bool {
    forall|a: int, b: int|
        0 <= a < b < best.len() ==> (#[trigger] best[a]).count >= (#[trigger] best[b]).count
}

/// No entry of `best` counts less than `count`.
spec fn at_most_all(count: u32, best: Seq<Counted>) -> bool {
    forall|a: int| 0 <= a < best.len() ==> count <= (#[trigger] best[a]).count
}

/// `best` ranks the `k` highest counts among the entries `seen`: it holds
/// entries of `seen` with falling counts and distinct prefixes, and leaves
/// an entry out only where it is full and none of its entries counts less.
spec fn ranking_of(best: Seq<Counted>, seen: Seq<Counted>, k: nat, n: nat)
    -> bool {
    &&& best.len() == if seen.len() < k {
        seen.len()
    } else {
        k
    }
    &&& forall|a: int| 0 <= a < best.len() ==> seen.contains(#[trigger] best[a])
    &&& falling(best)
    &&& distinct_prefixes(best, n)
    &&& forall|j: int|
        0 <= j < seen.len() ==> best.contains(#[trigger] seen[j]) || (best.len() == k
            && at_most_all(seen[j].count, best))
}

/// The front of entries with distinct prefixes has distinct prefixes.
proof fn lemma_distinct_take(src: Seq<Counted>, n: nat, i: int)
    requires
        distinct_prefixes(src, n),
        0 <= i <= src.len(),
    ensures
        distinct_prefixes(src.take(i), n),
{
    let front = src.take(i);
    assert forall|a: int, b: int|
        0 <= a < front.len() && 0 <= b < front.len() && a != b implies entry_prefix(
        #[trigger] front[a],
        n,
    ) != entry_prefix(#[trigger] front[b], n) by {
        assert(front[a] == src[a] && front[b] == src[b]);
    }
}

/// No entry counts less than the first.
spec fn first_is_least(heap: Seq<Counted>) -> bool {
    forall|a: int| 0 <= a < heap.len() ==> heap[0].count <= (#[trigger] heap[a]).count
}

/// `heap` holds the `k` highest counts among the entries `seen`: it holds
/// entries of `seen`, none twice, and leaves an entry out only where it is
/// full and none of its entries counts less.
spec fn choice_of(heap: Seq<Counted>, seen: Seq<Counted>, k: nat) -> bool {
    &&& heap.len() == if seen.len() < k {
        seen.len()
    } else {
        k
    }
    &&& heap.no_duplicates()
    &&& forall|a: int| 0 <= a < heap.len() ==> seen.contains(#[trigger] heap[a])
    &&& forall|j: int|
        0 <= j < seen.len() ==> heap.contains(#[trigger] seen[j]) || (heap.len() == k
            && at_most_all(seen[j].count, heap))
}

/// An entry with a new prefix is none of the entries before it.
proof fn lemma_new_entry(seen: Seq<Counted>, e: Counted, n: nat)
    requires
        distinct_prefixes(seen.push(e), n),
    ensures
        !seen.contains(e),
        forall|x: Counted| seen.contains(x) ==> #[trigger] seen.push(e).contains(x),
        seen.push(e).contains(e),
{
    let all = seen.push(e);
    if seen.contains(e) {
        let c = choose|c: int| 0 <= c < seen.len() && seen[c] == e;
        assert(all[c] == e && all[seen.len() as int] == e);
        assert(entry_prefix(all[c], n) != entry_prefix(all[seen.len() as int], n));
    }
    assert forall|x: Counted| seen.contains(x) implies #[trigger] all.contains(x) by {
        let c = choose|c: int| 0 <= c < seen.len() && seen[c] == x;
        assert(all[c] == x);
    }
    assert(all[seen.len() as int] == e);
}

/// A full choice stays as it is where the new entry counts no more than
/// its least entry.
proof fn lemma_choice_pass(heap: Seq<Counted>, seen: Seq<Counted>, e: Counted, k: nat, n: nat)
    requires
        choice_of(heap, seen, k),
        heap.len() == k,
        first_is_least(heap),
        k == 0 || e.count <= heap[0].count,
        distinct_prefixes(seen.push(e), n),
    ensures
        choice_of(heap, seen.push(e), k),
{
    let all = seen.push(e);
    lemma_new_entry(seen, e, n);
    assert(at_most_all(e.count, heap)) by {
        assert forall|a: int| 0 <= a < heap.len() implies e.count <= (#[trigger] heap[a]).count by {
            assert(heap[0].count <= heap[a].count);
        }
    }
    assert forall|j: int| 0 <= j < all.len() implies heap.contains(#[trigger] all[j]) || (
    heap.len() == k && at_most_all(all[j].count, heap)) by {
        if j < seen.len() {
            assert(all[j] == seen[j]);
        }
    }
}

/// A choice with room takes the new entry.
proof fn lemma_choice_grow(
    heap: Seq<Counted>,
    after: Seq<Counted>,
    seen: Seq<Counted>,
    e: Counted,
    k: nat,
    n: nat,
)
    requires
        choice_of(heap, seen, k),
        heap.len() < k,
        after.to_multiset() == heap.to_multiset().insert(e),
        distinct_prefixes(seen.push(e), n),
    ensures
        choice_of(after, seen.push(e), k),
{
    broadcast use vstd::multiset::group_multiset_axioms;

    let all = seen.push(e);
    lemma_new_entry(seen, e, n);
    to_multiset_len(heap);
    to_multiset_len(after);
    heap.lemma_multiset_has_no_duplicates();
    assert forall|x: Counted| after.contains(x) <==> (x == e || heap.contains(x)) by {
        to_multiset_contains(after, x);
        to_multiset_contains(heap, x);
    }
    assert(!heap.contains(e)) by {
        if heap.contains(e) {
            let a = choose|a: int| 0 <= a < heap.len() && heap[a] == e;
            assert(seen.contains(heap[a]));
        }
    }
    assert forall|x: Counted| after.to_multiset().contains(x) implies after.to_multiset().count(x)
        == 1 by {
        to_multiset_contains(heap, x);
        to_multiset_contains(heap, e);
    }
    after.lemma_multiset_has_no_duplicates_conv();
    assert forall|a: int| 0 <= a < after.len() implies all.contains(#[trigger] after[a]) by {
        assert(after.contains(after[a]));
        if after[a] != e {
            let b = choose|b: int| 0 <= b < heap.len() && heap[b] == after[a];
            assert(seen.contains(heap[b]));
        }
    }
    assert forall|j: int| 0 <= j < all.len() implies after.contains(#[trigger] all[j]) || (
    after.len() == k && at_most_all(all[j].count, after)) by {
        if j < seen.len() {
            assert(all[j] == seen[j]);
            assert(heap.contains(seen[j]));
        }
    }
}

/// A full choice gives up its least entry for a new entry that counts more.
proof fn lemma_choice_replace(
    heap: Seq<Counted>,
    after: Seq<Counted>,
    seen: Seq<Counted>,
    e: Counted,
    k: nat,
    n: nat,
)
    requires
        choice_of(heap, seen, k),
        heap.len() == k,
        k > 0,
        first_is_least(heap),
        e.count > heap[0].count,
        after.to_multiset() == heap.to_multiset().insert(e).remove(heap[0]),
        after.len() == heap.len(),
        distinct_prefixes(seen.push(e), n),
    ensures
        choice_of(after, seen.push(e), k),
{
    broadcast use vstd::multiset::group_multiset_axioms;

    let all = seen.push(e);
    let least = heap[0];
    lemma_new_entry(seen, e, n);
    heap.lemma_multiset_has_no_duplicates();
    assert(heap.contains(least));
    assert(!heap.contains(e)) by {
        if heap.contains(e) {
            let a = choose|a: int| 0 <= a < heap.len() && heap[a] == e;
            assert(seen.contains(heap[a]));
        }
    }
    to_multiset_contains(heap, e);
    to_multiset_contains(heap, least);
    assert forall|x: Counted| after.contains(x) <==> (x == e || (heap.contains(x) && x != least)) by {
        to_multiset_contains(after, x);
        to_multiset_contains(heap, x);
    }
    assert forall|x: Counted| after.to_multiset().contains(x) implies after.to_multiset().count(x)
        == 1 by {
        to_multiset_contains(heap, x);
    }
    after.lemma_multiset_has_no_duplicates_conv();
    assert forall|a: int| 0 <= a < after.len() implies all.contains(#[trigger] after[a]) by {
        assert(after.contains(after[a]));
        if after[a] != e {
            let b = choose|b: int| 0 <= b < heap.len() && heap[b] == after[a];
            assert(seen.contains(heap[b]));
        }
    }
    assert forall|a: int| 0 <= a < after.len() implies least.count <= (#[trigger] after[a]).count by {
        assert(after.contains(after[a]));
        if after[a] != e {
            let b = choose|b: int| 0 <= b < heap.len() && heap[b] == after[a];
            assert(heap[0].count <= heap[b].count);
        }
    }
    assert forall|j: int| 0 <= j < all.len() implies after.contains(#[trigger] all[j]) || (
    after.len() == k && at_most_all(all[j].count, after)) by {
        if j < seen.len() {
            let x = seen[j];
            assert(all[j] == x);
            if heap.contains(x) {
                if x == least {
                    assert(at_most_all(x.count, after));
                }
            } else {
                assert(at_most_all(x.count, heap));
                assert(x.count <= heap[0].count);
                assert(at_most_all(x.count, after));
            }
        }
    }
}

/// What holds of the first entry of a heap.
proof fn lemma_heap_first(heap: &MinHeap)
    requires
        heap.wf(),
    ensures
        first_is_least(heap.items()),
{
    assert forall|a: int| 0 <= a < heap.items().len() implies heap.items()[0].count <= (
    #[trigger] heap.items()[a]).count by {
        heap.lemma_first_is_least(a);
    }
}

/// Offers the entry `e`, which follows the entries `seen`, to the choice of
/// their `k` highest counts.
fn offer(
    heap: &mut MinHeap,
    e: Counted,
    k: usize,
    Ghost(seen): Ghost<Seq<Counted>>,
    Ghost(n): Ghost<nat>,
)
    requires
        old(heap).wf(),
        choice_of(old(heap).items(), seen, k as nat),
        distinct_prefixes(seen.push(e), n),
    ensures
        final(heap).wf(),
        choice_of(final(heap).items(), seen.push(e), k as nat),
{
    let ghost before = heap.items();
    proof {
        lemma_heap_first(heap);
    }
    if heap.len() < k {
        heap.push(e);
        proof {
            lemma_choice_grow(before, heap.items(), seen, e, k as nat, n);
        }
    } else {
        match heap.least() {
            Some(least) => {
                if e.count > least.count {
                    heap.replace_least(e);
                    proof {
                        lemma_choice_replace(before, heap.items(), seen, e, k as nat, n);
                    }
                } else {
                    proof {
                        lemma_choice_pass(before, seen, e, k as nat, n);
                    }
                }
            },
            None => {
                proof {
                    lemma_choice_pass(before, seen, e, k as nat, n);
                }
            },
        }
    }
}

/// The entries of two sequences taken together are as many of each kind as
/// in the heap they were drawn from.
spec fn drawn_from(rising: Seq<Counted>, heap: Seq<Counted>, all: Seq<Counted>) -> bool {
    rising.to_multiset().add(heap.to_multiset()) == all.to_multiset()
}

/// The entries of the heap with the highest count first.
fn into_falling(heap: MinHeap) -> (best: Vec<Counted>)
    requires
        heap.wf(),
    ensures
        best@.to_multiset() == heap.items().to_multiset(),
        best@.len() == heap.items().len(),
        falling(best@),
{
    broadcast use vstd::multiset::group_multiset_axioms;

    let ghost all = heap.items();
    let mut heap = heap;
    let mut rising: Vec<Counted> = Vec::new();
    proof {
        to_multiset_len(rising@);
        vstd::multiset::lemma_multiset_empty_len(rising@.to_multiset());
        assert(rising@.to_multiset().add(heap.items().to_multiset()) =~= all.to_multiset());
    }
    while heap.len() > 0
        invariant
            heap.wf(),
            drawn_from(rising@, heap.items(), all),
            forall|a: int, b: int|
                0 <= a < b < rising@.len() ==> (#[trigger] rising@[a]).count <= (
                #[trigger] rising@[b]).count,
            forall|a: int, i: int|
                0 <= a < rising@.len() && 0 <= i < heap.items().len() ==> (
                #[trigger] rising@[a]).count <= (#[trigger] heap.items()[i]).count,
        decreases heap.items().len(),
    {
        let ghost held = heap.items();
        let ghost drawn = rising@;
        proof {
            lemma_heap_first(&heap);
        }
        let e = match heap.pop_least() {
            Some(e) => e,
            None => unreached(),
        };
        rising.push(e);
        proof {
            let left = heap.items();
            vstd::seq_lib::to_multiset_build(drawn, e);
            to_multiset_contains(held, e);
            assert(held.contains(e));
            assert(rising@.to_multiset().add(left.to_multiset()) =~= all.to_multiset());
            assert forall|a: int, i: int| 0 <= a < rising@.len() && 0 <= i < left.len() implies (
            #[trigger] rising@[a]).count <= (#[trigger] left[i]).count by {
                to_multiset_contains(left, left[i]);
                to_multiset_contains(held, left[i]);
                assert(left.contains(left[i]));
                let c = choose|c: int| 0 <= c < held.len() && held[c] == left[i];
                if a < drawn.len() {
                    assert(rising@[a] == drawn[a]);
                    assert(drawn[a].count <= held[c].count);
                } else {
                    assert(held[0].count <= held[c].count);
                }
            }
            assert forall|a: int, b: int| 0 <= a < b < rising@.len() implies (
            #[trigger] rising@[a]).count <= (#[trigger] rising@[b]).count by {
                if b == drawn.len() {
                    assert(rising@[a] == drawn[a]);
                    assert(drawn[a].count <= held[0].count);
                } else {
                    assert(rising@[a] == drawn[a] && rising@[b] == drawn[b]);
                }
            }
        }
    }
    proof {
        assert(heap.items().to_multiset() =~= Multiset::<Counted>::empty()) by {
            to_multiset_len(heap.items());
            vstd::multiset::lemma_multiset_empty_len(heap.items().to_multiset());
        }
        assert(rising@.to_multiset() =~= all.to_multiset());
        to_multiset_len(rising@);
        to_multiset_len(all);
    }
    let mut best: Vec<Counted> = Vec::new();
    let mut i: usize = rising.len();
    while i > 0
        invariant
            0 <= i <= rising@.len(),
            best@.len() == rising@.len() - i,
            forall|j: int| 0 <= j < best@.len() ==> #[trigger] best@[j] == rising@[rising@.len() - 1
                - j],
        decreases i,
    {
        i -= 1;
        best.push(rising[i]);
    }
    proof {
        assert(best@ =~= rising@.reverse());
        rising@.lemma_reverse_to_multiset();
        assert forall|a: int, b: int| 0 <= a < b < best@.len() implies (#[trigger] best@[a]).count
            >= (#[trigger] best@[b]).count by {
            let ra = rising@.len() - 1 - a;
            let rb = rising@.len() - 1 - b;
            assert(rising@[rb].count <= rising@[ra].count);
        }
    }
    best
}

/// A choice of the highest counts, put in falling order, ranks them.
proof fn lemma_choice_ranks(
    heap: Seq<Counted>,
    best: Seq<Counted>,
    seen: Seq<Counted>,
    k: nat,
    n: nat,
)
    requires
        choice_of(heap, seen, k),
        distinct_prefixes(seen, n),
        best.to_multiset() == heap.to_multiset(),
        best.len() == heap.len(),
        falling(best),
    ensures
        ranking_of(best, seen, k, n),
{
    broadcast use vstd::multiset::group_multiset_axioms;

    assert forall|x: Counted| best.contains(x) <==> heap.contains(x) by {
        to_multiset_contains(best, x);
        to_multiset_contains(heap, x);
    }
    heap.lemma_multiset_has_no_duplicates();
    best.lemma_multiset_has_no_duplicates_conv();
    assert forall|a: int| 0 <= a < best.len() implies seen.contains(#[trigger] best[a]) by {
        assert(best.contains(best[a]));
        let b = choose|b: int| 0 <= b < heap.len() && heap[b] == best[a];
        assert(seen.contains(heap[b]));
    }
    assert forall|a: int, b: int|
        0 <= a < best.len() && 0 <= b < best.len() && a != b implies entry_prefix(
        #[trigger] best[a],
        n,
    ) != entry_prefix(#[trigger] best[b], n) by {
        assert(best[a] != best[b]);
        assert(seen.contains(best[a]) && seen.contains(best[b]));
        let i = choose|i: int| 0 <= i < seen.len() && seen[i] == best[a];
        let j = choose|j: int| 0 <= j < seen.len() && seen[j] == best[b];
        assert(i != j);
    }
    assert forall|j: int| 0 <= j < seen.len() implies best.contains(#[trigger] seen[j]) || (
    best.len() == k && at_most_all(seen[j].count, best)) by {
        if !heap.contains(seen[j]) {
            assert(at_most_all(seen[j].count, heap));
            assert forall|a: int| 0 <= a < best.len() implies seen[j].count <= (
            #[trigger] best[a]).count by {
                assert(best.contains(best[a]));
                let b = choose|b: int| 0 <= b < heap.len() && heap[b] == best[a];
                assert(seen[j].count <= heap[b].count);
            }
        }
    }
}

/// The line `row` shows the entry `e`.
spec fn row_of(row: FrequencyRow, e: Counted, n: nat) -> bool {
    &&& row.prefix@ == entry_prefix(e, n)
    &&& row.count == e.count
    &&& row.footprint == e.count * n
}

/// A further line leaves the sums of the lines before it as they were.
proof fn lemma_footprint_sum_push(rows: Seq<FrequencyRow>, row: FrequencyRow, n: nat, upto: int)
    requires
        0 <= upto <= rows.len(),
    ensures
        footprint_sum(rows.push(row), n, upto) == footprint_sum(rows, n, upto),
        upto == rows.len() ==> footprint_sum(rows.push(row), n, upto + 1) == footprint_sum(
            rows,
            n,
            upto,
        ) + row.count as nat * n,
    decreases upto,
{
    if upto > 0 {
        lemma_footprint_sum_push(rows, row, n, upto - 1);
        assert(rows.push(row)[upto - 1] == rows[upto - 1]);
    }
    if upto == rows.len() {
        let longer = rows.push(row);
        assert(longer[upto] == row);
        assert(footprint_sum(longer, n, upto + 1) == footprint_sum(longer, n, upto)
            + longer[upto].count as nat * n);
    }
}

/// The lines that show a ranking of the entries rank the prefixes of the
/// table.
proof fn lemma_rows_rank(
    rows: Seq<FrequencyRow>,
    best: Seq<Counted>,
    entries: Seq<Counted>,
    k: nat,
    n: nat,
)
    requires
        distinct_prefixes(entries, n),
        ranking_of(best, entries, k, n),
        rows.len() == best.len(),
        forall|b: int|
            0 <= b < rows.len() ==> row_of(#[trigger] rows[b], best[b], n)
                && rows[b].cumulative_footprint == footprint_sum(rows, n, b + 1),
    ensures
        is_top_k(rows, entries_map(entries, n), k, n),
{
    let counts = entries_map(entries, n);
    lemma_map_len(entries, n);
    assert forall|a: int| 0 <= a < rows.len() implies counts.dom().contains(
        (#[trigger] rows[a]).prefix@,
    ) && counts[rows[a].prefix@] == rows[a].count by {
        assert(row_of(rows[a], best[a], n));
        assert(entries.contains(best[a]));
        let c = choose|c: int| 0 <= c < entries.len() && entries[c] == best[a];
        lemma_entry_decides(entries, n, c);
    }
    assert forall|a: int, b: int|
        0 <= a < rows.len() && 0 <= b < rows.len() && a != b implies (#[trigger] rows[a]).prefix@
        != (#[trigger] rows[b]).prefix@ by {
        assert(row_of(rows[a], best[a], n) && row_of(rows[b], best[b], n));
        assert(entry_prefix(best[a], n) != entry_prefix(best[b], n));
    }
    assert forall|a: int, b: int| 0 <= a < b < rows.len() implies (#[trigger] rows[a]).count >= (
    #[trigger] rows[b]).count by {
        assert(row_of(rows[a], best[a], n) && row_of(rows[b], best[b], n));
        assert(best[a].count >= best[b].count);
    }
    assert forall|p: Seq<u8>| #[trigger]
        counts.dom().contains(p) && !listed(rows, p) implies rows.len() == k && forall|a: int|
        0 <= a < rows.len() ==> counts[p] <= (#[trigger] rows[a]).count by {
        let j = lemma_prefix_held(entries, n, p);
        lemma_entry_decides(entries, n, j);
        if best.contains(entries[j]) {
            let a = choose|a: int| 0 <= a < best.len() && best[a] == entries[j];
            assert(row_of(rows[a], best[a], n));
            assert(rows[a].prefix@ == p);
            assert(listed(rows, p));
        }
        assert(at_most_all(entries[j].count, best));
        assert forall|a: int| 0 <= a < rows.len() implies counts[p] <= (
        #[trigger] rows[a]).count by {
            assert(row_of(rows[a], best[a], n));
            assert(entries[j].count <= best[a].count);
        }
    }
    assert forall|a: int| 0 <= a < rows.len() implies (#[trigger] rows[a]).footprint
        == rows[a].count * n && rows[a].cumulative_footprint == footprint_sum(rows, n, a + 1) by {
        assert(row_of(rows[a], best[a], n));
    }
}

/// The start value of the fingerprint of a prefix.
const FINGERPRINT_SEED: u64 = 0xcbf2_9ce4_8422_2325;

/// The factor of the fingerprint of a prefix.
const FINGERPRINT_PRIME: u64 = 0x100_0000_01b3;

/// The fingerprint `h` with the byte `b` mixed in.
spec fn mixed(h: u64, b: u8) -> u64 {
    (((h ^ (b as u64)) * FINGERPRINT_PRIME) % 0x1_0000_0000_0000_0000) as u64
}

/// A 64-bit fingerprint of a prefix, by which the table finds the entries
/// that may stand for it.
spec fn fingerprint(bytes: Seq<u8>) -> u64
    decreases bytes.len(),
{
    if bytes.len() == 0 {
        FINGERPRINT_SEED
    } else {
        mixed(fingerprint(bytes.drop_last()), bytes.last())
    }
}

/// The fingerprint of `bytes`.
fn fingerprint_of(bytes: &[u8]) -> (r: u64)
    ensures
        r == fingerprint(bytes@),
{
    let mut h: u64 = FINGERPRINT_SEED;
    let mut i: usize = 0;
    while i < bytes.len()
        invariant
            0 <= i <= bytes@.len(),
            h == fingerprint(bytes@.take(i as int)),
        decreases bytes@.len() - i,
    {
        let x = h ^ (bytes[i] as u64);
        assert(x * FINGERPRINT_PRIME <= 0xffff_ffff_ffff_ffff * 0x100_0000_01b3) by (nonlinear_arith)
            requires
                x <= 0xffff_ffff_ffff_ffff,
                FINGERPRINT_PRIME == 0x100_0000_01b3,
        ;
        let product = (x as u128) * (FINGERPRINT_PRIME as u128);
        proof {
            assert(bytes@.take(i + 1).drop_last() == bytes@.take(i as int));
            assert(bytes@.take(i + 1).last() == bytes@[i as int]);
        }
        h = (product % 0x1_0000_0000_0000_0000u128) as u64;
        i += 1;
    }
    proof {
        assert(bytes@.take(i as int) == bytes@);
    }
    h
}

/// The places of the entries of a table by the fingerprints of their
/// prefixes: one place for each fingerprint, and beside it the places of
/// further entries whose prefixes share a fingerprint.
struct PlaceIndex {
    first: HashMap<u64, usize>,
    more: Vec<(u64, usize)>,
}

impl PlaceIndex {
    /// The index names the place `at` under the fingerprint `f`.
    spec fn names(&self, f: u64, at: usize) -> bool {
        (self.first@.dom().contains(f) && self.first@[f] == at) || self.more@.contains((f, at))
    }

    /// The index names, under the fingerprint of its prefix, the place of
    /// each of the first `upto` entries.
    spec fn covers(&self, entries: Seq<Counted>, n: nat, upto: int) -> bool {
        forall|i: int|
            0 <= i < upto && i < entries.len() ==> self.names(
                fingerprint(entry_prefix(#[trigger] entries[i], n)),
                i as usize,
            )
    }

    /// An index that names no place.
    fn new() -> (r: PlaceIndex)
        ensures
            forall|f: u64, at: usize| !r.names(f, at),
    {
        PlaceIndex { first: HashMap::new(), more: Vec::new() }
    }

    /// Names the place `at` under the fingerprint `f`.
    fn add(&mut self, f: u64, at: usize)
        ensures
            final(self).names(f, at),
            forall|g: u64, x: usize| old(self).names(g, x) ==> final(self).names(g, x),
    {
        broadcast use group_hash_axioms;

        let taken = self.first.get(&f).is_some();
        if taken {
            let ghost before = self.more@;
            self.more.push((f, at));
            proof {
                assert(self.more@[before.len() as int] == (f, at));
                assert forall|g: u64, x: usize| old(self).names(g, x) implies self.names(g, x) by {
                    if before.contains((g, x)) {
                        let c = choose|c: int| 0 <= c < before.len() && before[c] == (g, x);
                        assert(self.more@[c] == (g, x));
                    }
                }
            }
        } else {
            self.first.insert(f, at);
        }
    }

    /// An index that names the place of every entry.
    fn of_entries(entries: &Vec<Counted>, prefix_len: usize) -> (index: PlaceIndex)
        requires
            prefix_len <= 32,
        ensures
            index.covers(entries@, prefix_len as nat, entries@.len() as int),
    {
        let ghost n = prefix_len as nat;
        let mut index = PlaceIndex::new();
        let mut i: usize = 0;
        while i < entries.len()
            invariant
                0 <= i <= entries@.len(),
                prefix_len <= 32,
                n == prefix_len,
                index.covers(entries@, n, i as int),
            decreases entries@.len() - i,
        {
            let f = fingerprint_of(slice_subrange(entries[i].key.as_slice(), 0, prefix_len));
            index.add(f, i);
            i += 1;
        }
        index
    }
}

/// The table of the frequency analyzer: a count for each key prefix, and
/// the number of slots that were counted.
pub struct FrequencyTable {
    prefix_len: usize,
    ceiling: usize,
    entries: Vec<Counted>,
    index: PlaceIndex,
    total: u32,
}

impl FrequencyTable {
    /// The count of each prefix that the table holds.
    pub closed spec fn counts(&self) -> Map<Seq<u8>, nat> {
        entries_map(self.entries@, self.prefix_len as nat)
    }

    /// The number of slots that were counted.
    pub closed spec fn total_slots(&self) -> nat {
        self.total as nat
    }

    /// The length of the prefixes in bytes.
    pub closed spec fn prefix_bytes(&self) -> nat {
        self.prefix_len as nat
    }

    /// The number of prefixes above which the table is pruned.
    pub closed spec fn limit(&self) -> nat {
        self.ceiling as nat
    }

    /// No prefix is held twice, and no count is zero or above the number of
    /// slots counted.
    pub closed spec fn wf(&self) -> bool {
        &&& self.prefix_len <= 32
        &&& distinct_prefixes(self.entries@, self.prefix_len as nat)
        &&& self.index.covers(
            self.entries@,
            self.prefix_len as nat,
            self.entries@.len() as int,
        )
        &&& forall|i: int|
            0 <= i < self.entries@.len() ==> 1 <= (#[trigger] self.entries@[i]).count
                <= self.total
    }

    /// In a well-formed table the prefixes are finitely many and every count
    /// lies between one and the number of slots counted.
    pub proof fn lemma_counts_bounded(&self)
        requires
            self.wf(),
        ensures
            self.counts().dom().finite(),
            forall|p: Seq<u8>| #[trigger]
                self.counts().dom().contains(p) ==> 1 <= self.counts()[p] <= self.total_slots(),
    {
        let n = self.prefix_len as nat;
        lemma_map_len(self.entries@, n);
        assert forall|p: Seq<u8>| #[trigger] self.counts().dom().contains(p) implies 1
            <= self.counts()[p] <= self.total_slots() by {
            let i = lemma_prefix_held(self.entries@, n, p);
            lemma_entry_decides(self.entries@, n, i);
        }
    }

    /// An empty table for prefixes of `prefix_len` bytes that is pruned
    /// above `ceiling` prefixes.
    pub fn new(prefix_len: usize, ceiling: usize) -> (r: Result<
        FrequencyTable,
        ConfigurationError,
    >)
        ensures
            r is Ok <==> prefix_len <= 32,
            r matches Err(e) ==> e == ConfigurationError::PrefixTooLong,
            r matches Ok(t) ==> t.wf() && t.counts() == Map::<Seq<u8>, nat>::empty()
                && t.total_slots() == 0 && t.prefix_bytes() == prefix_len && t.limit()
                == ceiling,
    {
        if prefix_len > 32 {
            return Err(ConfigurationError::PrefixTooLong);
        }
        let t = FrequencyTable {
            prefix_len,
            ceiling,
            entries: Vec::new(),
            index: PlaceIndex::new(),
            total: 0,
        };
        proof {
            assert forall|q: Seq<u8>| !t.counts().dom().contains(q) by {
                if t.counts().dom().contains(q) {
                    let i = lemma_prefix_held(t.entries@, prefix_len as nat, q);
                }
            }
            assert(t.counts() =~= Map::<Seq<u8>, nat>::empty());
        }
        Ok(t)
    }

    /// The number of prefixes in the table.
    pub fn len(&self) -> (r: usize)
        requires
            self.wf(),
        ensures
            r == self.counts().dom().len(),
    {
        proof {
            lemma_map_len(self.entries@, self.prefix_len as nat);
        }
        self.entries.len()
    }

    /// The number of slots that were counted.
    pub fn total(&self) -> (r: u32)
        ensures
            r == self.total_slots(),
    {
        self.total
    }

    /// Whether the entry at `at` stands for the prefix `wanted`.
    fn stands_at(&self, at: usize, wanted: &[u8]) -> (r: bool)
        requires
            self.prefix_len <= 32,
        ensures
            r == holds_at(self.entries@, self.prefix_len as nat, at as int, wanted@),
    {
        if at < self.entries.len() {
            let held = slice_subrange(self.entries[at].key.as_slice(), 0, self.prefix_len);
            bytes_eq(held, wanted)
        } else {
            false
        }
    }

    /// The position of the entry that stands for the prefix of `key`, and
    /// the fingerprint of the prefix. The entry is looked for at the places
    /// that the index names under the fingerprint.
    fn find(&self, key: &StorageKey) -> (r: (Option<usize>, u64))
        requires
            self.wf(),
        ensures
            r.1 == fingerprint(prefix_of(key@, self.prefix_len as nat)),
            match r.0 {
                Some(i) => holds_at(
                    self.entries@,
                    self.prefix_len as nat,
                    i as int,
                    prefix_of(key@, self.prefix_len as nat),
                ),
                None => !self.counts().dom().contains(prefix_of(key@, self.prefix_len as nat)),
            },
    {
        broadcast use group_hash_axioms;

        let wanted = slice_subrange(key.as_slice(), 0, self.prefix_len);
        let f = fingerprint_of(wanted);
        let held = self.entries.len();
        let ghost n = self.prefix_len as nat;
        let ghost p = prefix_of(key@, n);
        match self.index.first.get(&f) {
            Some(at) => {
                if self.stands_at(*at, wanted) {
                    return (Some(*at), f);
                }
            },
            None => {},
        }
        let mut c: usize = 0;
        while c < self.index.more.len()
            invariant
                0 <= c <= self.index.more@.len(),
                self.prefix_len <= 32,
                n == self.prefix_len,
                p == prefix_of(key@, n),
                wanted@ == p,
                f == fingerprint(p),
                forall|b: int|
                    0 <= b < c && (#[trigger] self.index.more@[b]).0 == f ==> !holds_at(
                        self.entries@,
                        n,
                        self.index.more@[b].1 as int,
                        p,
                    ),
            decreases self.index.more@.len() - c,
        {
            let (g, at) = self.index.more[c];
            if g == f && self.stands_at(at, wanted) {
                return (Some(at), f);
            }
            c += 1;
        }
        proof {
            if self.counts().dom().contains(p) {
                let a = lemma_prefix_held(self.entries@, n, p);
                assert(0 <= a < held);
                assert(self.index.names(fingerprint(entry_prefix(self.entries@[a], n)), a as usize));
                if self.index.more@.contains((f, a as usize)) {
                    let b = choose|b: int|
                        0 <= b < self.index.more@.len() && self.index.more@[b] == (f, a as usize);
                    assert(self.index.more@[b].0 == f);
                }
            }
        }
        (None, f)
    }

    /// Counts one storage slot by the prefix of its key. Where the table
    /// then holds more prefixes than its ceiling, the prefixes that occurred
    /// once leave it. A slot beyond the number that a counter can hold is
    /// refused and leaves the table as it was.
    pub fn record(&mut self, key: &StorageKey) -> (r: Result<(), FrequencyError>)
        requires
            old(self).wf(),
        ensures
            final(self).wf(),
            final(self).prefix_bytes() == old(self).prefix_bytes(),
            final(self).limit() == old(self).limit(),
            r is Err <==> old(self).total_slots() == u32::MAX,
            r matches Err(e) ==> e == FrequencyError::SlotCountOverflow,
            r is Err ==> final(self).counts() == old(self).counts() && final(self).total_slots()
                == old(self).total_slots(),
            r is Ok ==> final(self).counts() == observe(
                old(self).counts(),
                prefix_of(key@, old(self).prefix_bytes()),
                old(self).limit(),
            ) && final(self).total_slots() == old(self).total_slots() + 1,
    {
        if self.total == u32::MAX {
            return Err(FrequencyError::SlotCountOverflow);
        }
        let ghost n = self.prefix_len as nat;
        let ghost before = self.entries@;
        let (found, f) = self.find(key);
        match found {
            Some(i) => {
                let e = self.entries[i];
                let bumped = Counted { key: e.key, count: e.count + 1 };
                proof {
                    lemma_entry_decides(before, n, i as int);
                    lemma_map_update(before, n, i as int, bumped);
                }
                self.entries.set(i, bumped);
                proof {
                    assert forall|j: int| 0 <= j < self.entries@.len() implies entry_prefix(
                        #[trigger] self.entries@[j],
                        n,
                    ) == entry_prefix(before[j], n) by {}
                }
            },
            None => {
                let fresh = Counted { key: *key, count: 1 };
                proof {
                    lemma_map_push(before, n, fresh);
                }
                let at = self.entries.len();
                self.entries.push(fresh);
                self.index.add(f, at);
                proof {
                    assert forall|j: int| 0 <= j < before.len() implies self.entries@[j]
                        == before[j] by {}
                }
            },
        }
        self.total = self.total + 1;
        proof {
            lemma_map_len(self.entries@, n);
        }
        if self.entries.len() > self.ceiling {
            self.entries = kept_entries(&self.entries, Ghost(n));
            self.index = PlaceIndex::of_entries(&self.entries, self.prefix_len);
        }
        Ok(())
    }

    /// The `k` entries with the highest counts, highest first: each entry is
    /// offered to a heap of at most `k` entries, which gives up its least
    /// entry for one that counts more.
    fn select(&self, k: usize) -> (best: Vec<Counted>)
        requires
            self.wf(),
        ensures
            ranking_of(best@, self.entries@, k as nat, self.prefix_len as nat),
    {
        let mut heap = MinHeap::new();
        let ghost n = self.prefix_len as nat;
        let ghost src = self.entries@;
        let mut i: usize = 0;
        assert(src.take(0) =~= Seq::<Counted>::empty());
        while i < self.entries.len()
            invariant
                src == self.entries@,
                distinct_prefixes(src, n),
                0 <= i <= src.len(),
                heap.wf(),
                choice_of(heap.items(), src.take(i as int), k as nat),
            decreases src.len() - i,
        {
            proof {
                assert(src.take(i + 1) == src.take(i as int).push(src[i as int]));
                lemma_distinct_take(src, n, i + 1);
            }
            offer(&mut heap, self.entries[i], k, Ghost(src.take(i as int)), Ghost(n));
            i += 1;
        }
        let ghost chosen = heap.items();
        let best = into_falling(heap);
        proof {
            assert(src.take(i as int) == src);
            lemma_choice_ranks(chosen, best@, src, k as nat, n);
        }
        best
    }

    /// The ranking of the `k` most frequent prefixes of the table, the most
    /// frequent first, each with the bytes that its occurrences take and the
    /// bytes of the ranking down to it.
    pub fn top_k(&self, k: usize) -> (rows: Vec<FrequencyRow>)
        requires
            self.wf(),
        ensures
            is_top_k(rows@, self.counts(), k as nat, self.prefix_bytes()),
    {
        let best = self.select(k);
        let ghost n = self.prefix_len as nat;
        let mut rows: Vec<FrequencyRow> = Vec::new();
        let mut running: u128 = 0;
        let mut a: usize = 0;
        while a < best.len()
            invariant
                0 <= a <= best@.len(),
                n == self.prefix_len,
                n <= 32,
                rows@.len() == a,
                running == footprint_sum(rows@, n, a as int),
                running <= a * (u32::MAX * 32),
                forall|b: int|
                    0 <= b < a ==> row_of(#[trigger] rows@[b], best@[b], n)
                        && rows@[b].cumulative_footprint == footprint_sum(rows@, n, b + 1),
            decreases best@.len() - a,
        {
            let e = best[a];
            let prefix = slice_to_vec(slice_subrange(e.key.as_slice(), 0, self.prefix_len));
            assert(e.count * n <= u32::MAX * 32) by (nonlinear_arith)
                requires
                    e.count <= u32::MAX,
                    n <= 32,
            ;
            let footprint = e.count as u64 * self.prefix_len as u64;
            running = running + footprint as u128;
            let row = FrequencyRow {
                prefix,
                count: e.count,
                footprint,
                cumulative_footprint: running,
            };
            let ghost before = rows@;
            rows.push(row);
            proof {
                lemma_footprint_sum_push(before, row, n, a as int);
                assert forall|b: int| 0 <= b < a + 1 implies row_of(
                    #[trigger] rows@[b],
                    best@[b],
                    n,
                ) && rows@[b].cumulative_footprint == footprint_sum(rows@, n, b + 1) by {
                    if b < a {
                        assert(rows@[b] == before[b]);
                        lemma_footprint_sum_push(before, row, n, b + 1);
                    }
                }
            }
            a += 1;
        }
        proof {
            lemma_rows_rank(rows@, best@, self.entries@, k as nat, n);
        }
        rows
    }

    /// Drops the prefixes that occurred once.
    pub fn prune(&mut self)
        requires
            old(self).wf(),
        ensures
            final(self).wf(),
            final(self).prefix_bytes() == old(self).prefix_bytes(),
            final(self).limit() == old(self).limit(),
            final(self).total_slots() == old(self).total_slots(),
            final(self).counts() == prune(old(self).counts()),
    {
        self.entries = kept_entries(&self.entries, Ghost(self.prefix_len as nat));
        self.index = PlaceIndex::of_entries(&self.entries, self.prefix_len);
    }
}

/// What the frequency analysis reports.
#[derive(Clone, Debug, PartialEq, Eq)]
pub struct FrequencyReport {
    /// The number of storage slots that were counted.
    pub total_slots: u32,
    /// The most frequent prefixes, the most frequent first.
    pub rows: Vec<FrequencyRow>,
}

/// Counts the key prefixes of `prefix_len` bytes over the storage slots of
/// the traversal `it`, pruning above `ceiling` prefixes, drops the prefixes
/// that occurred once, and ranks the `top_n` most frequent of the rest. The
/// prefix length is checked before the traversal is read; the traversal
/// stops at the first slot beyond the number that a counter can hold; a
/// traversal that ends in a failure gives that failure.
pub fn storage_slot_freq<I: PreimageIterator>(
    it: &mut I,
    prefix_len: usize,
    ceiling: usize,
    top_n: usize,
) -> (r: Result<FrequencyReport, FrequencyError>)
    requires
        old(it).valid(),
    ensures
        final(it).valid(),
        r == Err::<FrequencyReport, FrequencyError>(
            FrequencyError::Configuration(ConfigurationError::PrefixTooLong),
        ) <==> prefix_len > 32,
        r == Err::<FrequencyReport, FrequencyError>(FrequencyError::SlotCountOverflow)
            <==> prefix_len <= 32 && slot_count(old(it).remaining()) > u32::MAX,
        prefix_len <= 32 && slot_count(old(it).remaining()) <= u32::MAX ==> match old(it).failure() {
            Some(e) => r == Err::<FrequencyReport, FrequencyError>(FrequencyError::Source(e)),
            None => r is Ok,
        },
        r matches Ok(report) ==> report.total_slots == slot_count(old(it).remaining())
            && is_top_k(
            report.rows@,
            prune(count_items(old(it).remaining(), prefix_len as nat, ceiling as nat)),
            top_n as nat,
            prefix_len as nat,
        ),
{
    let mut table = match FrequencyTable::new(prefix_len, ceiling) {
        Ok(table) => table,
        Err(e) => {
            return Err(FrequencyError::Configuration(e));
        },
    };
    let ghost items = it.remaining();
    let ghost mut done: int = 0;
    assert(items.take(0) =~= Seq::<AccountStorageItem>::empty());
    loop
        invariant
            it.valid(),
            it.failure() == old(it).failure(),
            items == old(it).remaining(),
            0 <= done <= items.len(),
            it.remaining() == items.skip(done),
            table.wf(),
            table.prefix_bytes() == prefix_len,
            table.limit() == ceiling,
            table.total_slots() == slot_count(items.take(done)),
            table.counts() == count_items(items.take(done), prefix_len as nat, ceiling as nat),
        decreases items.len() - done,
    {
        match it.advance() {
            None => {
                assert(items.take(done) == items);
                table.prune();
                let rows = table.top_k(top_n);
                return Ok(FrequencyReport { total_slots: table.total(), rows });
            },
            Some(Err(e)) => {
                assert(items.take(done) == items);
                return Err(FrequencyError::Source(e));
            },
            Some(Ok(item)) => {
                proof {
                    assert(items.take(done + 1).drop_last() == items.take(done));
                    assert(items.take(done + 1).last() == item);
                    assert(items.skip(done).skip(1) == items.skip(done + 1));
                    lemma_slot_count_grows(items, done + 1);
                }
                match item {
                    AccountStorageItem::Account(_) => {},
                    AccountStorageItem::StorageSlot(_, key) => {
                        match table.record(&key) {
                            Ok(()) => {},
                            Err(e) => {
                                return Err(e);
                            },
                        }
                    },
                }
                proof {
                    done = done + 1;
                }
            },
        }
    }
}

/// The slots among the first items are no more than the slots among all.
pub proof fn lemma_slot_count_grows(items: Seq<AccountStorageItem>, upto: int)
    requires
        0 <= upto <= items.len(),
    ensures
        slot_count(items.take(upto)) <= slot_count(items),
    decreases items.len() - upto,
{
    if upto < items.len() {
        assert(items.take(upto + 1).drop_last() == items.take(upto));
        lemma_slot_count_grows(items, upto + 1);
    } else {
        assert(items.take(upto) == items);
    }
}

} // verus!
