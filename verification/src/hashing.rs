//! Hashes of addresses and storage keys, and the order that they give.

use crate::bytes::{be_value, lemma_lex_lt_is_numeric, lex_le};
use crate::types::{Address, StorageKey};
use rayon::slice::ParallelSliceMut;
use vstd::prelude::*;

verus! {

/// A 32-byte hash.
pub type Digest = [u8; 32];

/// The Keccak-256 hash of a byte string.
pub uninterp spec fn keccak256_spec(bytes: Seq<u8>) -> Seq<u8>;

/// `keccak256` of alloy-primitives: the Keccak-256 hash of `bytes`, which
/// depends on the bytes alone.
#[verifier::external_body]
pub(crate) fn keccak256(bytes: &[u8]) -> (r: Digest)
    ensures
        r@ == keccak256_spec(bytes@),
{
    alloy_primitives::keccak256(bytes).0
}

/// The place of a hash in the order of hashes: the number that it spells.
pub open spec fn rank(h: Digest) -> nat {
    be_value(h@)
}

/// The entry carries the hash `h`.
pub open spec fn carries<T>(h: Digest) -> spec_fn((T, Digest)) -> bool {
    |e: (T, Digest)| e.1 == h
}

/// The entries that carry the hash `h`, in their order.
pub open spec fn with_hash<T>(entries: Seq<(T, Digest)>, h: Digest) -> Seq<(T, Digest)> {
    entries.filter(carries(h))
}

/// The hash of the entry is not above `h`.
pub open spec fn not_above<T>(h: Digest) -> spec_fn((T, Digest)) -> bool {
    |e: (T, Digest)| rank(e.1) <= rank(h)
}

/// No entry carries a hash above that of an entry behind it.
pub open spec fn ascending_hashes<T>(entries: Seq<(T, Digest)>) -> bool {
    forall|i: int, j: int| 0 <= i < j < entries.len() ==> rank(entries[i].1) <= rank(entries[j].1)
}

/// The entries in ascending order of their hashes, entries with one hash in
/// the order in which they stand in `entries`: each entry in turn goes
/// behind the entries whose hash is not above its own.
pub open spec fn hash_sorted<T>(entries: Seq<(T, Digest)>) -> Seq<(T, Digest)>
    decreases entries.len(),
{
    if entries.len() == 0 {
        entries
    } else {
        let front = hash_sorted(entries.drop_last());
        let e = entries.last();
        front.insert(front.filter(not_above(e.1)).len() as int, e)
    }
}

/// `par_sort_by_key` of rayon with the hash as the key: a stable sort.
/// Afterwards the vector is as long as before, the hashes ascend in the
/// lexicographic order of their bytes, which is the order of arrays, and
/// the entries that carry one hash are the same as before and in the same
/// order.
#[verifier::external_body]
pub(crate) fn par_sort_by_hash<T: Send>(entries: &mut Vec<(T, Digest)>)
    ensures
        final(entries)@.len() == old(entries)@.len(),
        forall|i: int, j: int|
            0 <= i < j < final(entries)@.len() ==> lex_le(
                (#[trigger] final(entries)@[i]).1@,
                (#[trigger] final(entries)@[j]).1@,
            ),
        forall|h: Digest| #[trigger] with_hash(final(entries)@, h) == with_hash(old(entries)@, h),
{
    entries.par_sort_by_key(|e| e.1);
}

/// Two hashes with one rank are one hash.
pub proof fn lemma_rank_decides(a: Digest, b: Digest)
    ensures
        rank(a) == rank(b) <==> a == b,
        lex_le(a@, b@) <==> rank(a) <= rank(b),
{
    lemma_lex_lt_is_numeric(a@, b@);
    if a@ == b@ {
        assert(a =~= b);
    }
}

/// A sequence whose entries all meet a condition passes the filter for it
/// whole.
proof fn lemma_filter_keeps_all<T>(s: Seq<(T, Digest)>, pred: spec_fn((T, Digest)) -> bool)
    requires
        forall|i: int| 0 <= i < s.len() ==> pred(#[trigger] s[i]),
    ensures
        s.filter(pred) == s,
    decreases s.len(),
{
    reveal(Seq::filter);
    if s.len() > 0 {
        lemma_filter_keeps_all(s.drop_last(), pred);
        assert(s.drop_last().push(s.last()) == s);
    }
}

/// A sequence none of whose entries meets a condition leaves nothing in the
/// filter for it.
proof fn lemma_filter_drops_all<T>(s: Seq<(T, Digest)>, pred: spec_fn((T, Digest)) -> bool)
    requires
        forall|i: int| 0 <= i < s.len() ==> !pred(#[trigger] s[i]),
    ensures
        s.filter(pred) == Seq::<(T, Digest)>::empty(),
    decreases s.len(),
{
    reveal(Seq::filter);
    if s.len() > 0 {
        lemma_filter_drops_all(s.drop_last(), pred);
    }
}

/// A filter that leaves something finds an entry that meets its condition.
proof fn lemma_filter_witness<T>(s: Seq<(T, Digest)>, pred: spec_fn((T, Digest)) -> bool) -> (i: int)
    requires
        s.filter(pred).len() > 0,
    ensures
        0 <= i < s.len(),
        pred(s[i]),
    decreases s.len(),
{
    reveal(Seq::filter);
    if pred(s.last()) {
        s.len() - 1
    } else {
        lemma_filter_witness(s.drop_last(), pred)
    }
}

/// In a sequence of ascending hashes the entries whose hash is not above
/// `h` stand at the front.
proof fn lemma_front_not_above<T>(s: Seq<(T, Digest)>, h: Digest)
    requires
        ascending_hashes(s),
    ensures
        s.filter(not_above(h)).len() <= s.len(),
        forall|i: int|
            0 <= i < s.filter(not_above(h)).len() ==> rank((#[trigger] s[i]).1) <= rank(h),
        forall|i: int|
            s.filter(not_above(h)).len() <= i < s.len() ==> rank((#[trigger] s[i]).1) > rank(h),
    decreases s.len(),
{
    reveal(Seq::filter);
    if s.len() > 0 {
        let front = s.drop_last();
        let x = s.last();
        assert(ascending_hashes(front)) by {
            assert forall|i: int, j: int| 0 <= i < j < front.len() implies rank(front[i].1)
                <= rank(front[j].1) by {
                assert(front[i] == s[i] && front[j] == s[j]);
            }
        }
        lemma_front_not_above(front, h);
        if rank(x.1) <= rank(h) {
            assert forall|i: int| 0 <= i < s.len() implies not_above(h)(#[trigger] s[i]) by {
                if i < s.len() - 1 {
                    assert(rank(s[i].1) <= rank(s[s.len() - 1].1));
                }
            }
            lemma_filter_keeps_all(s, not_above(h));
        } else {
            assert forall|i: int| s.filter(not_above(h)).len() <= i < s.len() implies rank(
                (#[trigger] s[i]).1,
            ) > rank(h) by {
                if i < s.len() - 1 {
                    assert(s[i] == front[i]);
                }
            }
            assert forall|i: int| 0 <= i < s.filter(not_above(h)).len() implies rank(
                (#[trigger] s[i]).1,
            ) <= rank(h) by {
                assert(s[i] == front[i]);
            }
        }
    }
}

/// What leaves the filters when the entry at `p` leaves the sequence.
proof fn lemma_filter_remove<T>(s: Seq<(T, Digest)>, p: int, pred: spec_fn((T, Digest)) -> bool)
    requires
        0 <= p < s.len(),
    ensures
        s.filter(pred) == s.take(p).filter(pred) + seq![s[p]].filter(pred) + s.skip(p + 1).filter(
            pred,
        ),
        s.remove(p).filter(pred) == s.take(p).filter(pred) + s.skip(p + 1).filter(pred),
        pred(s[p]) ==> seq![s[p]].filter(pred) == seq![s[p]],
        !pred(s[p]) ==> seq![s[p]].filter(pred) == Seq::<(T, Digest)>::empty(),
{
    let a = s.take(p);
    let b = seq![s[p]];
    let c = s.skip(p + 1);
    assert(s == a + b + c);
    assert(s.remove(p) == a + c);
    Seq::filter_distributes_over_add(a, b, pred);
    Seq::filter_distributes_over_add(a + b, c, pred);
    Seq::filter_distributes_over_add(a, c, pred);
    if pred(s[p]) {
        lemma_filter_keeps_all(b, pred);
    } else {
        lemma_filter_drops_all(b, pred);
    }
}

/// Where the last entry of `input` stands in a stable arrangement of it:
/// at the end of the entries whose hash is not above its own.
proof fn lemma_last_entry_place<T>(input: Seq<(T, Digest)>, output: Seq<(T, Digest)>) -> (p: int)
    requires
        input.len() > 0,
        output.len() == input.len(),
        ascending_hashes(output),
        with_hash(output, input.last().1) == with_hash(input, input.last().1),
    ensures
        0 <= p < output.len(),
        p + 1 == output.filter(not_above(input.last().1)).len(),
        output[p] == input.last(),
        with_hash(output.take(p), input.last().1) == with_hash(
            input.drop_last(),
            input.last().1,
        ),
        forall|i: int| 0 <= i < p ==> rank((#[trigger] output[i]).1) <= rank(input.last().1),
        forall|i: int| p < i < output.len() ==> rank((#[trigger] output[i]).1) > rank(
            input.last().1,
        ),
{
    let rest = input.drop_last();
    let e = input.last();
    let h = e.1;
    assert(rest.push(e) == input);
    rest.lemma_filter_push(e, carries(h));
    assert(with_hash(output, h) == with_hash(rest, h).push(e));
    let m = output.filter(not_above(h)).len() as int;
    lemma_front_not_above(output, h);
    let q = lemma_filter_witness(output, carries(h));
    assert(output[q].1 == h);
    assert(q < m);
    let p = m - 1;
    assert(rank(output[q].1) <= rank(output[p].1));
    lemma_rank_decides(output[p].1, h);
    assert(output[p].1 == h);
    let before = output.take(p);
    let after = output.skip(p + 1);
    assert forall|i: int| 0 <= i < after.len() implies !carries::<T>(h)(#[trigger] after[i]) by {
        assert(after[i] == output[p + 1 + i]);
        lemma_rank_decides(after[i].1, h);
    }
    lemma_filter_drops_all(after, carries(h));
    lemma_filter_remove(output, p, carries(h));
    assert(with_hash(output, h) == with_hash(before, h).push(output[p]));
    assert(with_hash(output, h).last() == output[p]);
    assert(with_hash(before, h).push(output[p]).drop_last() == with_hash(before, h));
    assert(with_hash(rest, h).push(e).drop_last() == with_hash(rest, h));
    p
}

/// A stable arrangement without the last entry of `input` is a stable
/// arrangement of the entries before it.
proof fn lemma_remove_last_entry<T>(input: Seq<(T, Digest)>, output: Seq<(T, Digest)>, p: int)
    requires
        input.len() > 0,
        output.len() == input.len(),
        ascending_hashes(output),
        forall|h: Digest| #[trigger] with_hash(output, h) == with_hash(input, h),
        0 <= p < output.len(),
        output[p] == input.last(),
        with_hash(output.take(p), input.last().1) == with_hash(
            input.drop_last(),
            input.last().1,
        ),
        forall|i: int| p < i < output.len() ==> rank((#[trigger] output[i]).1) > rank(
            input.last().1,
        ),
    ensures
        ascending_hashes(output.remove(p)),
        forall|h: Digest| #[trigger]
            with_hash(output.remove(p), h) == with_hash(input.drop_last(), h),
{
    let rest = input.drop_last();
    let e = input.last();
    let h = e.1;
    let shorter = output.remove(p);
    let before = output.take(p);
    let after = output.skip(p + 1);
    assert(rest.push(e) == input);
    assert forall|i: int, j: int| 0 <= i < j < shorter.len() implies rank(shorter[i].1) <= rank(
        shorter[j].1,
    ) by {
        let oi = if i < p {
            i
        } else {
            i + 1
        };
        let oj = if j < p {
            j
        } else {
            j + 1
        };
        assert(shorter[i] == output[oi] && shorter[j] == output[oj]);
    }
    assert forall|i: int| 0 <= i < after.len() implies !carries::<T>(h)(#[trigger] after[i]) by {
        assert(after[i] == output[p + 1 + i]);
        lemma_rank_decides(after[i].1, h);
    }
    lemma_filter_drops_all(after, carries(h));
    assert forall|h2: Digest| #[trigger] with_hash(shorter, h2) == with_hash(rest, h2) by {
        lemma_filter_remove(output, p, carries(h2));
        rest.lemma_filter_push(e, carries(h2));
        assert(with_hash(output, h2) == with_hash(input, h2));
        if h2 == h {
            assert(with_hash(shorter, h) == with_hash(before, h) + Seq::<(T, Digest)>::empty());
        } else {
            assert(!carries::<T>(h2)(e));
            assert(with_hash(output, h2) == with_hash(before, h2) + Seq::<(T, Digest)>::empty()
                + with_hash(after, h2));
        }
    }
}

/// Putting the entry back where it stood restores the arrangement.
proof fn lemma_insert_back<T>(output: Seq<(T, Digest)>, p: int, h: Digest)
    requires
        0 <= p < output.len(),
        forall|i: int| 0 <= i < p ==> rank((#[trigger] output[i]).1) <= rank(h),
        forall|i: int| p < i < output.len() ==> rank((#[trigger] output[i]).1) > rank(h),
    ensures
        output.remove(p).filter(not_above(h)).len() == p,
        output.remove(p).insert(p, output[p]) == output,
{
    let before = output.take(p);
    let after = output.skip(p + 1);
    assert forall|i: int| 0 <= i < before.len() implies not_above::<T>(h)(#[trigger] before[i]) by {
        assert(before[i] == output[i]);
    }
    assert forall|i: int| 0 <= i < after.len() implies !not_above::<T>(h)(#[trigger] after[i]) by {
        assert(after[i] == output[p + 1 + i]);
    }
    lemma_filter_keeps_all(before, not_above(h));
    lemma_filter_drops_all(after, not_above(h));
    lemma_filter_remove(output, p, not_above(h));
    assert(output.remove(p).filter(not_above(h)) == before + Seq::<(T, Digest)>::empty());
    assert(output.remove(p).insert(p, output[p]) =~= output);
}

/// A stable sort by hash has one result: a sequence as long as `input`
/// whose hashes ascend and which holds, for each hash, the entries of
/// `input` that carry it in their order, is `hash_sorted(input)`.
pub proof fn lemma_stable_sort_unique<T>(input: Seq<(T, Digest)>, output: Seq<(T, Digest)>)
    requires
        output.len() == input.len(),
        ascending_hashes(output),
        forall|h: Digest| #[trigger] with_hash(output, h) == with_hash(input, h),
    ensures
        output == hash_sorted(input),
    decreases input.len(),
{
    if input.len() == 0 {
        assert(output =~= input);
    } else {
        let h = input.last().1;
        assert(with_hash(output, h) == with_hash(input, h));
        let p = lemma_last_entry_place(input, output);
        lemma_remove_last_entry(input, output, p);
        lemma_stable_sort_unique(input.drop_last(), output.remove(p));
        lemma_insert_back(output, p, h);
    }
}

/// Sorts the entries by their hashes, keeping entries with one hash in
/// their order.
pub fn sort_by_hash<T: Send>(entries: &mut Vec<(T, Digest)>)
    ensures
        final(entries)@ == hash_sorted(old(entries)@),
{
    par_sort_by_hash(entries);
    proof {
        assert forall|i: int, j: int| 0 <= i < j < entries@.len() implies rank(entries@[i].1)
            <= rank(entries@[j].1) by {
            lemma_rank_decides(entries@[i].1, entries@[j].1);
        }
        lemma_stable_sort_unique(old(entries)@, entries@);
    }
}

/// What a sequence holds after an insertion: the new entry and what it held
/// before.
proof fn lemma_insert_holds<T>(s: Seq<(T, Digest)>, pos: int, e: (T, Digest))
    requires
        0 <= pos <= s.len(),
    ensures
        forall|x: (T, Digest)| #[trigger] s.insert(pos, e).contains(x) <==> (x == e || s.contains(x)),
{
    let t = s.insert(pos, e);
    assert forall|x: (T, Digest)| #[trigger] t.contains(x) <==> (x == e || s.contains(x)) by {
        if t.contains(x) {
            let i = choose|i: int| 0 <= i < t.len() && t[i] == x;
            if i < pos {
                assert(s[i] == x);
            } else if i > pos {
                assert(s[i - 1] == x);
            }
        }
        if x == e {
            assert(t[pos] == x);
        }
        if s.contains(x) {
            let c = choose|c: int| 0 <= c < s.len() && s[c] == x;
            if c < pos {
                assert(t[c] == x);
            } else {
                assert(t[c + 1] == x);
            }
        }
    }
}

/// The arrangement by hash is as long as `entries`, and its hashes ascend.
pub proof fn lemma_hash_sorted_ascends<T>(entries: Seq<(T, Digest)>)
    ensures
        hash_sorted(entries).len() == entries.len(),
        ascending_hashes(hash_sorted(entries)),
    decreases entries.len(),
{
    if entries.len() > 0 {
        let rest = entries.drop_last();
        let e = entries.last();
        let front = hash_sorted(rest);
        lemma_hash_sorted_ascends(rest);
        lemma_front_not_above(front, e.1);
        let m = front.filter(not_above(e.1)).len() as int;
        let sorted = front.insert(m, e);
        assert forall|i: int, j: int| 0 <= i < j < sorted.len() implies rank(sorted[i].1) <= rank(
            sorted[j].1,
        ) by {
            if i < m && j < m {
                assert(sorted[i] == front[i] && sorted[j] == front[j]);
            } else if i < m && j == m {
                assert(sorted[i] == front[i]);
            } else if i < m {
                assert(sorted[i] == front[i] && sorted[j] == front[j - 1]);
            } else if i == m {
                assert(sorted[j] == front[j - 1]);
            } else {
                assert(sorted[i] == front[i - 1] && sorted[j] == front[j - 1]);
            }
        }
    }
}

/// The arrangement by hash holds the entries of `entries`, no more and no
/// fewer.
pub proof fn lemma_hash_sorted_holds<T>(entries: Seq<(T, Digest)>)
    ensures
        forall|x: (T, Digest)| #[trigger] hash_sorted(entries).contains(x) <==> entries.contains(x),
    decreases entries.len(),
{
    if entries.len() > 0 {
        let rest = entries.drop_last();
        let e = entries.last();
        let front = hash_sorted(rest);
        lemma_hash_sorted_holds(rest);
        lemma_hash_sorted_ascends(rest);
        lemma_front_not_above(front, e.1);
        let m = front.filter(not_above(e.1)).len() as int;
        lemma_insert_holds(front, m, e);
        assert forall|x: (T, Digest)| #[trigger]
            hash_sorted(entries).contains(x) <==> entries.contains(x) by {
            assert(front.contains(x) <==> rest.contains(x));
            if rest.contains(x) {
                let c = choose|c: int| 0 <= c < rest.len() && rest[c] == x;
                assert(entries[c] == x);
            }
            if entries.contains(x) {
                let c = choose|c: int| 0 <= c < entries.len() && entries[c] == x;
                if c < entries.len() - 1 {
                    assert(rest[c] == x);
                }
            }
            assert(entries[entries.len() - 1] == e);
        }
    }
}

/// No two entries carry one hash.
pub open spec fn distinct_hashes<T>(entries: Seq<(T, Digest)>) -> bool {
    forall|i: int, j: int|
        0 <= i < entries.len() && 0 <= j < entries.len() && i != j ==> entries[i].1
            != entries[j].1
}

/// Where no two entries carry one hash, the hashes of the arrangement by
/// hash ascend strictly.
pub proof fn lemma_hash_sorted_strict<T>(entries: Seq<(T, Digest)>)
    requires
        distinct_hashes(entries),
    ensures
        forall|i: int, j: int|
            0 <= i < j < hash_sorted(entries).len() ==> rank(hash_sorted(entries)[i].1) < rank(
                hash_sorted(entries)[j].1,
            ),
    decreases entries.len(),
{
    if entries.len() > 0 {
        let rest = entries.drop_last();
        let e = entries.last();
        let front = hash_sorted(rest);
        assert(distinct_hashes(rest)) by {
            assert forall|i: int, j: int|
                0 <= i < rest.len() && 0 <= j < rest.len() && i != j implies rest[i].1
                != rest[j].1 by {
                assert(rest[i] == entries[i] && rest[j] == entries[j]);
            }
        }
        lemma_hash_sorted_strict(rest);
        lemma_hash_sorted_ascends(rest);
        lemma_hash_sorted_holds(rest);
        lemma_front_not_above(front, e.1);
        let m = front.filter(not_above(e.1)).len() as int;
        let sorted = front.insert(m, e);
        assert forall|a: int| 0 <= a < front.len() implies rank(#[trigger] front[a].1) != rank(
            e.1,
        ) by {
            assert(front.contains(front[a]));
            let c = choose|c: int| 0 <= c < rest.len() && rest[c] == front[a];
            assert(entries[c] == front[a]);
            assert(entries[c].1 != entries[entries.len() - 1].1);
            lemma_rank_decides(front[a].1, e.1);
        }
        assert forall|i: int, j: int| 0 <= i < j < sorted.len() implies rank(sorted[i].1) < rank(
            sorted[j].1,
        ) by {
            if i < m && j < m {
                assert(sorted[i] == front[i] && sorted[j] == front[j]);
            } else if i < m && j == m {
                assert(sorted[i] == front[i]);
            } else if i < m {
                assert(sorted[i] == front[i] && sorted[j] == front[j - 1]);
            } else if i == m {
                assert(sorted[j] == front[j - 1]);
            } else {
                assert(sorted[i] == front[i - 1] && sorted[j] == front[j - 1]);
            }
        }
    }
}

/// The hash of a byte string as an array.
pub open spec fn hash_of(bytes: Seq<u8>) -> Digest {
    choose|h: Digest| h@ == keccak256_spec(bytes)
}

/// The hash of `bytes`.
pub fn hash_bytes(bytes: &[u8]) -> (h: Digest)
    ensures
        h == hash_of(bytes@),
        h@ == keccak256_spec(bytes@),
{
    let h = keccak256(bytes);
    assert(h =~= hash_of(bytes@));
    h
}

/// Each address with its hash.
pub open spec fn hashed_addresses(addresses: Seq<Address>) -> Seq<(Address, Digest)> {
    addresses.map_values(|a: Address| (a, hash_of(a@)))
}

/// Each key with its hash.
pub open spec fn hashed_keys(keys: Seq<StorageKey>) -> Seq<(StorageKey, Digest)> {
    keys.map_values(|k: StorageKey| (k, hash_of(k@)))
}

/// The addresses in ascending order of their hashes, addresses with one
/// hash in their order.
pub open spec fn addresses_by_hash(addresses: Seq<Address>) -> Seq<Address> {
    hash_sorted(hashed_addresses(addresses)).map_values(|e: (Address, Digest)| e.0)
}

/// The keys in ascending order of their hashes, keys with one hash in their
/// order.
pub open spec fn keys_by_hash(keys: Seq<StorageKey>) -> Seq<StorageKey> {
    hash_sorted(hashed_keys(keys)).map_values(|e: (StorageKey, Digest)| e.0)
}

/// The hashes of the byte strings `a` and `b`, in numbers, stand in
/// ascending order.
pub open spec fn hash_at_most(a: Seq<u8>, b: Seq<u8>) -> bool {
    rank(hash_of(a)) <= rank(hash_of(b))
}

/// The hash of `a`, in numbers, is below the hash of `b`.
pub open spec fn hash_below(a: Seq<u8>, b: Seq<u8>) -> bool {
    rank(hash_of(a)) < rank(hash_of(b))
}

/// The addresses in the order of their hashes are as many as before, and
/// their hashes ascend; where no two of the addresses have one hash, their
/// hashes ascend strictly.
pub proof fn lemma_addresses_by_hash(addresses: Seq<Address>)
    ensures
        addresses_by_hash(addresses).len() == addresses.len(),
        forall|i: int, j: int|
            0 <= i < j < addresses.len() ==> hash_at_most(
                #[trigger] addresses_by_hash(addresses)[i]@,
                #[trigger] addresses_by_hash(addresses)[j]@,
            ),
        (forall|i: int, j: int|
            0 <= i < addresses.len() && 0 <= j < addresses.len() && i != j ==> hash_of(
                addresses[i]@,
            ) != hash_of(addresses[j]@)) ==> forall|i: int, j: int|
            0 <= i < j < addresses.len() ==> hash_below(
                #[trigger] addresses_by_hash(addresses)[i]@,
                #[trigger] addresses_by_hash(addresses)[j]@,
            ),
{
    let entries = hashed_addresses(addresses);
    let sorted = hash_sorted(entries);
    let ordered = addresses_by_hash(addresses);
    lemma_hash_sorted_ascends(entries);
    lemma_hash_sorted_holds(entries);
    assert forall|i: int| 0 <= i < sorted.len() implies (#[trigger] sorted[i]).1 == hash_of(
        sorted[i].0@,
    ) by {
        assert(sorted.contains(sorted[i]));
        let c = choose|c: int| 0 <= c < entries.len() && entries[c] == sorted[i];
    }
    assert forall|i: int, j: int| 0 <= i < j < addresses.len() implies hash_at_most(
        #[trigger] ordered[i]@,
        #[trigger] ordered[j]@,
    ) by {
        assert(rank(sorted[i].1) <= rank(sorted[j].1));
    }
    if forall|i: int, j: int|
        0 <= i < addresses.len() && 0 <= j < addresses.len() && i != j ==> hash_of(addresses[i]@)
            != hash_of(addresses[j]@) {
        assert(distinct_hashes(entries)) by {
            assert forall|i: int, j: int|
                0 <= i < entries.len() && 0 <= j < entries.len() && i != j implies entries[i].1
                != entries[j].1 by {
                assert(entries[i].1 == hash_of(addresses[i]@));
                assert(entries[j].1 == hash_of(addresses[j]@));
            }
        }
        lemma_hash_sorted_strict(entries);
        assert forall|i: int, j: int| 0 <= i < j < addresses.len() implies hash_below(
            #[trigger] ordered[i]@,
            #[trigger] ordered[j]@,
        ) by {
            assert(rank(sorted[i].1) < rank(sorted[j].1));
        }
    }
}

/// The keys in the order of their hashes are as many as before, and their
/// hashes ascend; where no two of the keys have one hash, their hashes
/// ascend strictly.
pub proof fn lemma_keys_by_hash(keys: Seq<StorageKey>)
    ensures
        keys_by_hash(keys).len() == keys.len(),
        forall|i: int, j: int|
            0 <= i < j < keys.len() ==> hash_at_most(
                #[trigger] keys_by_hash(keys)[i]@,
                #[trigger] keys_by_hash(keys)[j]@,
            ),
        (forall|i: int, j: int|
            0 <= i < keys.len() && 0 <= j < keys.len() && i != j ==> hash_of(keys[i]@) != hash_of(
                keys[j]@,
            )) ==> forall|i: int, j: int|
            0 <= i < j < keys.len() ==> hash_below(
                #[trigger] keys_by_hash(keys)[i]@,
                #[trigger] keys_by_hash(keys)[j]@,
            ),
{
    let entries = hashed_keys(keys);
    let sorted = hash_sorted(entries);
    let ordered = keys_by_hash(keys);
    lemma_hash_sorted_ascends(entries);
    lemma_hash_sorted_holds(entries);
    assert forall|i: int| 0 <= i < sorted.len() implies (#[trigger] sorted[i]).1 == hash_of(
        sorted[i].0@,
    ) by {
        assert(sorted.contains(sorted[i]));
        let c = choose|c: int| 0 <= c < entries.len() && entries[c] == sorted[i];
    }
    assert forall|i: int, j: int| 0 <= i < j < keys.len() implies hash_at_most(
        #[trigger] ordered[i]@,
        #[trigger] ordered[j]@,
    ) by {
        assert(rank(sorted[i].1) <= rank(sorted[j].1));
    }
    if forall|i: int, j: int|
        0 <= i < keys.len() && 0 <= j < keys.len() && i != j ==> hash_of(keys[i]@) != hash_of(
            keys[j]@,
        ) {
        assert(distinct_hashes(entries)) by {
            assert forall|i: int, j: int|
                0 <= i < entries.len() && 0 <= j < entries.len() && i != j implies entries[i].1
                != entries[j].1 by {
                assert(entries[i].1 == hash_of(keys[i]@));
                assert(entries[j].1 == hash_of(keys[j]@));
            }
        }
        lemma_hash_sorted_strict(entries);
        assert forall|i: int, j: int| 0 <= i < j < keys.len() implies hash_below(
            #[trigger] ordered[i]@,
            #[trigger] ordered[j]@,
        ) by {
            assert(rank(sorted[i].1) < rank(sorted[j].1));
        }
    }
}

/// Orders addresses by their hashes.
pub fn order_addresses(addresses: &[Address]) -> (r: Vec<Address>)
    ensures
        r@ == addresses_by_hash(addresses@),
{
    let mut entries: Vec<(Address, Digest)> = Vec::with_capacity(addresses.len());
    let mut i: usize = 0;
    while i < addresses.len()
        invariant
            0 <= i <= addresses@.len(),
            entries@ == hashed_addresses(addresses@.take(i as int)),
        decreases addresses@.len() - i,
    {
        let a = addresses[i];
        let h = hash_bytes(a.as_slice());
        entries.push((a, h));
        proof {
            let front = addresses@.take(i as int);
            assert(addresses@.take(i + 1) == front.push(a));
            assert(hashed_addresses(front.push(a)) =~= hashed_addresses(front).push((a, h)));
        }
        i += 1;
    }
    proof {
        assert(addresses@.take(i as int) == addresses@);
    }
    sort_by_hash(&mut entries);
    let mut ordered: Vec<Address> = Vec::with_capacity(entries.len());
    let mut j: usize = 0;
    while j < entries.len()
        invariant
            0 <= j <= entries@.len(),
            ordered@ == entries@.take(j as int).map_values(|e: (Address, Digest)| e.0),
        decreases entries@.len() - j,
    {
        ordered.push(entries[j].0);
        proof {
            assert(entries@.take(j + 1) == entries@.take(j as int).push(entries@[j as int]));
            assert(entries@.take(j + 1).map_values(|e: (Address, Digest)| e.0) =~= entries@.take(
                j as int,
            ).map_values(|e: (Address, Digest)| e.0).push(entries@[j as int].0));
        }
        j += 1;
    }
    proof {
        assert(entries@.take(j as int) == entries@);
    }
    ordered
}

/// Orders keys, each given with its hash, by their hashes.
pub fn order_keys(entries: Vec<(StorageKey, Digest)>) -> (r: Vec<StorageKey>)
    ensures
        r@ == hash_sorted(entries@).map_values(|e: (StorageKey, Digest)| e.0),
{
    let mut entries = entries;
    sort_by_hash(&mut entries);
    let mut ordered: Vec<StorageKey> = Vec::with_capacity(entries.len());
    let mut j: usize = 0;
    while j < entries.len()
        invariant
            0 <= j <= entries@.len(),
            ordered@ == entries@.take(j as int).map_values(|e: (StorageKey, Digest)| e.0),
        decreases entries@.len() - j,
    {
        ordered.push(entries[j].0);
        proof {
            assert(entries@.take(j + 1) == entries@.take(j as int).push(entries@[j as int]));
            assert(entries@.take(j + 1).map_values(|e: (StorageKey, Digest)| e.0) =~= entries@.take(
                j as int,
            ).map_values(|e: (StorageKey, Digest)| e.0).push(entries@[j as int].0));
        }
        j += 1;
    }
    proof {
        assert(entries@.take(j as int) == entries@);
    }
    ordered
}

} // verus!
