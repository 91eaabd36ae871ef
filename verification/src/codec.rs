//! The preimage stream: the raw bytes of every item of a traversal, one
//! after the other, with nothing between them.

use crate::bytes::bytes_eq;
use crate::iterators::{PreimageIterator, SourceError};
use crate::types::{AccountStorageItem, Address, StorageKey};
use vstd::prelude::*;
use vstd::slice::slice_subrange;

verus! {

/// The bytes that stand for one item: the address of an account, the key of
/// a storage slot.
pub open spec fn item_bytes(item: AccountStorageItem) -> Seq<u8> {
    match item {
        AccountStorageItem::Account(address) => address@,
        AccountStorageItem::StorageSlot(_, key) => key@,
    }
}

/// The stream of a sequence of items.
pub open spec fn encode_items(items: Seq<AccountStorageItem>) -> Seq<u8>
    decreases items.len(),
{
    if items.len() == 0 {
        Seq::empty()
    } else {
        encode_items(items.drop_last()) + item_bytes(items.last())
    }
}

/// The place in the stream at which the record of item `i` starts.
pub open spec fn record_offset(items: Seq<AccountStorageItem>, i: int) -> nat {
    encode_items(items.take(i)).len()
}

/// The stream is too short to hold the whole record of item `i`.
pub open spec fn record_cut_short(items: Seq<AccountStorageItem>, bytes: Seq<u8>, i: int)
    -> bool {
    record_offset(items, i) + item_bytes(items[i]).len() > bytes.len()
}

/// What the stream holds where the record of item `i` is expected.
pub open spec fn record_found(items: Seq<AccountStorageItem>, bytes: Seq<u8>, i: int) -> Seq<
    u8,
> {
    bytes.subrange(
        record_offset(items, i) as int,
        (record_offset(items, i) + item_bytes(items[i]).len()) as int,
    )
}

/// The stream holds the record of item `i` at its place.
pub open spec fn record_agrees(items: Seq<AccountStorageItem>, bytes: Seq<u8>, i: int) -> bool {
    !record_cut_short(items, bytes, i) && record_found(items, bytes, i) == item_bytes(items[i])
}

/// The stream holds the records of the first `n` items at their places.
pub open spec fn records_agree(items: Seq<AccountStorageItem>, bytes: Seq<u8>, n: int) -> bool {
    forall|i: int| 0 <= i < n ==> record_agrees(items, bytes, i)
}

/// `item` is what the stream holds in place of `expected`: the found bytes
/// in the shape of the expected item, a storage slot under the expected
/// owner.
pub open spec fn is_found_item(
    item: AccountStorageItem,
    expected: AccountStorageItem,
    found: Seq<u8>,
) -> bool {
    match (expected, item) {
        (AccountStorageItem::Account(_), AccountStorageItem::Account(address)) => address@
            == found,
        (
            AccountStorageItem::StorageSlot(owner, _),
            AccountStorageItem::StorageSlot(address, key),
        ) => address == owner && key@ == found,
        _ => false,
    }
}

/// A record of the stream that differs from the item of the traversal.
#[derive(Clone, Copy, Debug, PartialEq, Eq)]
pub struct RecordMismatch {
    /// The number of items before this one.
    pub index: usize,
    /// The place of the record in the stream.
    pub offset: usize,
    /// The item of the traversal.
    pub expected: AccountStorageItem,
    /// The item that the stream holds; for a storage slot, under the
    /// expected owner.
    pub found: AccountStorageItem,
}

/// A stream that ends inside or before the record of an item.
#[derive(Clone, Copy, Debug, PartialEq, Eq)]
pub struct RecordMissing {
    /// The number of items before this one.
    pub index: usize,
    /// The place at which the record should start.
    pub offset: usize,
    /// The item of the traversal.
    pub expected: AccountStorageItem,
}

/// Why a stream was not confirmed.
#[derive(Clone, Debug, PartialEq, Eq)]
pub enum VerifyError {
    /// The traversal failed.
    Source(SourceError),
    /// The stream ended before the traversal did.
    UnexpectedEnd(RecordMissing),
    /// A record differs from the item of the traversal.
    FormatMismatch(RecordMismatch),
}

/// The outcome of checking the stream `bytes` against the items `items`:
/// the first item whose record the stream does not hold decides, and
/// without one the stream is confirmed.
pub open spec fn outcome_is(
    r: Result<(), VerifyError>,
    items: Seq<AccountStorageItem>,
    bytes: Seq<u8>,
) -> bool {
    match r {
        Ok(()) => records_agree(items, bytes, items.len() as int),
        Err(VerifyError::Source(_)) => false,
        Err(VerifyError::UnexpectedEnd(missing)) => {
            &&& missing.index < items.len()
            &&& records_agree(items, bytes, missing.index as int)
            &&& record_cut_short(items, bytes, missing.index as int)
            &&& missing.offset == record_offset(items, missing.index as int)
            &&& missing.expected == items[missing.index as int]
        },
        Err(VerifyError::FormatMismatch(mismatch)) => {
            &&& mismatch.index < items.len()
            &&& records_agree(items, bytes, mismatch.index as int)
            &&& !record_cut_short(items, bytes, mismatch.index as int)
            &&& !record_agrees(items, bytes, mismatch.index as int)
            &&& mismatch.offset == record_offset(items, mismatch.index as int)
            &&& mismatch.expected == items[mismatch.index as int]
            &&& is_found_item(
                mismatch.found,
                mismatch.expected,
                record_found(items, bytes, mismatch.index as int),
            )
        },
    }
}

/// The stream of a sequence is the stream of its front followed by the
/// stream of its back.
pub proof fn lemma_encode_concat(a: Seq<AccountStorageItem>, b: Seq<AccountStorageItem>)
    ensures
        encode_items(a + b) == encode_items(a) + encode_items(b),
    decreases b.len(),
{
    if b.len() == 0 {
        assert(a + b == a);
    } else {
        lemma_encode_concat(a, b.drop_last());
        assert((a + b).drop_last() == a + b.drop_last());
        assert((a + b).last() == b.last());
    }
}

/// The stream of the first `i + 1` items is the stream of the first `i`
/// followed by the record of item `i`.
pub proof fn lemma_encode_take_next(items: Seq<AccountStorageItem>, i: int)
    requires
        0 <= i < items.len(),
    ensures
        encode_items(items.take(i + 1)) == encode_items(items.take(i)) + item_bytes(items[i]),
{
    assert(items.take(i + 1).drop_last() == items.take(i));
}

/// The stream generated from a sequence of items is confirmed against the
/// same sequence, whatever follows it in the stream.
pub proof fn lemma_round_trip(items: Seq<AccountStorageItem>, trailing: Seq<u8>)
    ensures
        records_agree(items, encode_items(items) + trailing, items.len() as int),
        outcome_is(Ok(()), items, encode_items(items) + trailing),
{
    let bytes = encode_items(items) + trailing;
    assert forall|i: int| 0 <= i < items.len() implies record_agrees(items, bytes, i) by {
        let front = items.take(i + 1);
        let back = items.skip(i + 1);
        assert(front + back == items);
        lemma_encode_concat(front, back);
        lemma_encode_take_next(items, i);
        assert(record_found(items, bytes, i) =~= item_bytes(items[i]));
    }
}

/// The number of bytes in the record of `item`.
pub fn record_len(item: &AccountStorageItem) -> (r: usize)
    ensures
        r == item_bytes(*item).len(),
        r == 20 || r == 32,
{
    match item {
        AccountStorageItem::Account(_) => 20,
        AccountStorageItem::StorageSlot(_, _) => 32,
    }
}

/// Appends the record of `item` to `out`.
pub fn write_record(item: &AccountStorageItem, out: &mut Vec<u8>)
    ensures
        final(out)@ == old(out)@ + item_bytes(*item),
{
    match item {
        AccountStorageItem::Account(address) => {
            append_bytes(out, address.as_slice());
        },
        AccountStorageItem::StorageSlot(_, key) => {
            append_bytes(out, key.as_slice());
        },
    }
}

fn append_bytes(out: &mut Vec<u8>, bytes: &[u8])
    ensures
        final(out)@ == old(out)@ + bytes@,
{
    let mut i: usize = 0;
    while i < bytes.len()
        invariant
            0 <= i <= bytes@.len(),
            out@ == old(out)@ + bytes@.take(i as int),
        decreases bytes@.len() - i,
    {
        out.push(bytes[i]);
        assert(bytes@.take(i + 1) == bytes@.take(i as int).push(bytes@[i as int]));
        i += 1;
    }
    assert(bytes@.take(i as int) == bytes@);
}

/// The stream of `items`.
pub fn encode(items: &[AccountStorageItem]) -> (r: Vec<u8>)
    ensures
        r@ == encode_items(items@),
{
    let mut out: Vec<u8> = Vec::new();
    let mut i: usize = 0;
    while i < items.len()
        invariant
            0 <= i <= items@.len(),
            out@ == encode_items(items@.take(i as int)),
        decreases items@.len() - i,
    {
        proof {
            lemma_encode_take_next(items@, i as int);
        }
        write_record(&items[i], &mut out);
        i += 1;
    }
    assert(items@.take(i as int) == items@);
    out
}

/// Writes the records of all items of `it` to `out`, in the order of the
/// traversal. Where the traversal ends in a failure, the failure is passed
/// on; what was written before it stays.
pub fn generate<I: PreimageIterator>(it: &mut I, out: &mut Vec<u8>) -> (r: Result<
    (),
    SourceError,
>)
    requires
        old(it).valid(),
    ensures
        final(it).valid(),
        final(it).remaining().len() == 0,
        final(it).failure() is None,
        final(out)@ == old(out)@ + encode_items(old(it).remaining()),
        r == match old(it).failure() {
            Some(e) => Err::<(), SourceError>(e),
            None => Ok(()),
        },
{
    let ghost items = it.remaining();
    let ghost mut done: int = 0;
    loop
        invariant
            it.valid(),
            it.failure() == old(it).failure(),
            0 <= done <= items.len(),
            it.remaining() == items.skip(done),
            out@ == old(out)@ + encode_items(items.take(done)),
            items == old(it).remaining(),
        decreases items.len() - done,
    {
        match it.advance() {
            None => {
                assert(items.take(done) == items);
                return Ok(());
            },
            Some(Err(e)) => {
                assert(items.take(done) == items);
                return Err(e);
            },
            Some(Ok(item)) => {
                proof {
                    lemma_encode_take_next(items, done);
                    assert(items.skip(done).skip(1) == items.skip(done + 1));
                    done = done + 1;
                }
                write_record(&item, out);
            },
        }
    }
}

fn address_from(bytes: &[u8]) -> (r: Address)
    requires
        bytes@.len() == 20,
    ensures
        r@ == bytes@,
{
    let mut r: Address = [0u8;20];
    let mut i: usize = 0;
    while i < 20
        invariant
            bytes@.len() == 20,
            0 <= i <= 20,
            r@.take(i as int) == bytes@.take(i as int),
        decreases 20 - i,
    {
        r[i] = bytes[i];
        assert(r@.take(i + 1) =~= bytes@.take(i + 1));
        i += 1;
    }
    assert(r@.take(20) == r@);
    assert(bytes@.take(20) == bytes@);
    r
}

fn key_from(bytes: &[u8]) -> (r: StorageKey)
    requires
        bytes@.len() == 32,
    ensures
        r@ == bytes@,
{
    let mut r: StorageKey = [0u8;32];
    let mut i: usize = 0;
    while i < 32
        invariant
            bytes@.len() == 32,
            0 <= i <= 32,
            r@.take(i as int) == bytes@.take(i as int),
        decreases 32 - i,
    {
        r[i] = bytes[i];
        assert(r@.take(i + 1) =~= bytes@.take(i + 1));
        i += 1;
    }
    assert(r@.take(32) == r@);
    assert(bytes@.take(32) == bytes@);
    r
}

/// Compares the record `found`, read at `offset` as record number `index`,
/// with the item of the traversal.
pub fn check_record(item: &AccountStorageItem, found: &[u8], index: usize, offset: usize) -> (r:
    Result<(), RecordMismatch>)
    requires
        found@.len() == item_bytes(*item).len(),
    ensures
        r is Ok <==> found@ == item_bytes(*item),
        r matches Err(mismatch) ==> mismatch.index == index && mismatch.offset == offset
            && mismatch.expected == *item && is_found_item(mismatch.found, *item, found@),
{
    match item {
        AccountStorageItem::Account(address) => {
            if bytes_eq(address.as_slice(), found) {
                Ok(())
            } else {
                Err(
                    RecordMismatch {
                        index,
                        offset,
                        expected: *item,
                        found: AccountStorageItem::Account(address_from(found)),
                    },
                )
            }
        },
        AccountStorageItem::StorageSlot(owner, key) => {
            if bytes_eq(key.as_slice(), found) {
                Ok(())
            } else {
                Err(
                    RecordMismatch {
                        index,
                        offset,
                        expected: *item,
                        found: AccountStorageItem::StorageSlot(*owner, key_from(found)),
                    },
                )
            }
        },
    }
}

/// Checks the record of one item against the stream `bytes` at `offset`,
/// and returns the place at which the next record starts.
fn check_next(item: &AccountStorageItem, bytes: &[u8], index: usize, offset: usize) -> (r:
    Result<usize, VerifyError>)
    requires
        offset <= bytes@.len(),
    ensures
        match r {
            Ok(next) => next == offset + item_bytes(*item).len() && next <= bytes@.len()
                && bytes@.subrange(offset as int, next as int) == item_bytes(*item),
            Err(VerifyError::Source(_)) => false,
            Err(VerifyError::UnexpectedEnd(missing)) => offset + item_bytes(*item).len()
                > bytes@.len() && missing.index == index && missing.offset == offset
                && missing.expected == *item,
            Err(VerifyError::FormatMismatch(mismatch)) => offset + item_bytes(*item).len()
                <= bytes@.len() && bytes@.subrange(
                offset as int,
                offset + item_bytes(*item).len(),
            ) != item_bytes(*item) && mismatch.index == index && mismatch.offset == offset
                && mismatch.expected == *item && is_found_item(
                mismatch.found,
                *item,
                bytes@.subrange(offset as int, offset + item_bytes(*item).len()),
            ),
        },
{
    let len = record_len(item);
    if len > bytes.len() - offset {
        return Err(VerifyError::UnexpectedEnd(RecordMissing { index, offset, expected: *item }));
    }
    let found = slice_subrange(bytes, offset, offset + len);
    match check_record(item, found, index, offset) {
        Ok(()) => Ok(offset + len),
        Err(mismatch) => Err(VerifyError::FormatMismatch(mismatch)),
    }
}

/// Confirms that the stream `bytes` starts with the records of `items`, and
/// names the first item whose record it does not hold.
pub fn verify_items(items: &[AccountStorageItem], bytes: &[u8]) -> (r: Result<(), VerifyError>)
    ensures
        outcome_is(r, items@, bytes@),
{
    let mut offset: usize = 0;
    let mut i: usize = 0;
    while i < items.len()
        invariant
            0 <= i <= items@.len(),
            offset == record_offset(items@, i as int),
            offset <= bytes@.len(),
            records_agree(items@, bytes@, i as int),
        decreases items@.len() - i,
    {
        proof {
            lemma_encode_take_next(items@, i as int);
        }
        match check_next(&items[i], bytes, i, offset) {
            Ok(next) => {
                offset = next;
            },
            Err(e) => {
                return Err(e);
            },
        }
        i += 1;
    }
    Ok(())
}

/// The outcome of replaying a traversal with the items `items`, which ends
/// in `failure` where that is a failure, against the stream `bytes`: the
/// first item whose record the stream does not hold decides; without one,
/// the failure of the traversal is passed on, and without that the stream
/// is confirmed.
pub open spec fn replay_outcome_is(
    r: Result<(), VerifyError>,
    items: Seq<AccountStorageItem>,
    failure: Option<SourceError>,
    bytes: Seq<u8>,
) -> bool {
    if records_agree(items, bytes, items.len() as int) {
        r == match failure {
            Some(e) => Err::<(), VerifyError>(VerifyError::Source(e)),
            None => Ok(()),
        }
    } else {
        outcome_is(r, items, bytes)
    }
}

/// Replays the traversal `it` against the stream `bytes`, record by record,
/// and stops at the first item whose record the stream does not hold. What
/// follows the last record in the stream is not looked at.
pub fn verify<I: PreimageIterator>(it: &mut I, bytes: &[u8]) -> (r: Result<(), VerifyError>)
    requires
        old(it).valid(),
    ensures
        final(it).valid(),
        replay_outcome_is(r, old(it).remaining(), old(it).failure(), bytes@),
{
    let ghost items = it.remaining();
    let mut offset: usize = 0;
    let mut index: usize = 0;
    loop
        invariant
            it.valid(),
            it.failure() == old(it).failure(),
            items == old(it).remaining(),
            0 <= index <= items.len(),
            it.remaining() == items.skip(index as int),
            offset == record_offset(items, index as int),
            offset <= bytes@.len(),
            20 * index <= offset,
            records_agree(items, bytes@, index as int),
        decreases items.len() - index,
    {
        match it.advance() {
            None => {
                return Ok(());
            },
            Some(Err(e)) => {
                return Err(VerifyError::Source(e));
            },
            Some(Ok(item)) => {
                proof {
                    lemma_encode_take_next(items, index as int);
                    assert(items.skip(index as int).skip(1) == items.skip(index + 1));
                }
                match check_next(&item, bytes, index, offset) {
                    Ok(next) => {
                        offset = next;
                    },
                    Err(e) => {
                        proof {
                            assert(!record_agrees(items, bytes@, index as int));
                        }
                        return Err(e);
                    },
                }
                index += 1;
            },
        }
    }
}

} // verus!
