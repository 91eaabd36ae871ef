//! A state source held in memory: the account table and the storage table,
//! each in the order of its keys.

use crate::bytes::{be_value, bytes_eq, bytes_lt, lemma_lex_lt_is_numeric};
use crate::types::{Address, StorageKey};
use vstd::prelude::*;
use vstd::slice::slice_subrange;

verus! {

/// A row of the account table, as far as the analysis reads it.
#[derive(Clone, Copy, Debug, PartialEq, Eq)]
pub struct AccountRecord {
    pub address: Address,
    /// The length of the account's code in bytes; zero where it has none.
    pub code_len: usize,
}

/// A row of the storage table.
#[derive(Clone, Copy, Debug, PartialEq, Eq)]
pub struct SlotRecord {
    pub address: Address,
    pub key: StorageKey,
}

/// The row `a` comes before the row `b`: its address is lower, or the
/// addresses are the same and its key is lower.
pub open spec fn row_lt(a: SlotRecord, b: SlotRecord) -> bool {
    be_value(a.address@) < be_value(b.address@) || (be_value(a.address@) == be_value(b.address@)
        && be_value(a.key@) < be_value(b.key@))
}

/// Every storage row comes before the rows that follow it.
pub open spec fn rows_ascending(slots: Seq<SlotRecord>) -> bool {
    forall|i: int, j: int| 0 <= i < j < slots.len() ==> row_lt(slots[i], slots[j])
}

/// Every account row has a lower address than the rows that follow it.
pub open spec fn accounts_ascending(accounts: Seq<AccountRecord>) -> bool {
    forall|i: int, j: int|
        0 <= i < j < accounts.len() ==> be_value(accounts[i].address@) < be_value(
            accounts[j].address@,
        )
}

/// The number of rows at the front of `slots` that belong to `owner`.
pub open spec fn owned_run(slots: Seq<SlotRecord>, owner: Address) -> nat
    decreases slots.len(),
{
    if slots.len() > 0 && slots[0].address == owner {
        1 + owned_run(slots.skip(1), owner)
    } else {
        0
    }
}

/// The addresses of the account rows, in their order.
pub open spec fn addresses_of(accounts: Seq<AccountRecord>) -> Seq<Address> {
    accounts.map_values(|r: AccountRecord| r.address)
}

/// The keys of the storage rows, in their order.
pub open spec fn keys_of(slots: Seq<SlotRecord>) -> Seq<StorageKey> {
    slots.map_values(|r: SlotRecord| r.key)
}

/// The row belongs to `owner`.
pub open spec fn owned_by(owner: Address) -> spec_fn(SlotRecord) -> bool {
    |r: SlotRecord| r.address == owner
}

/// The storage rows of the account `owner`, in their order.
pub open spec fn rows_of(slots: Seq<SlotRecord>, owner: Address) -> Seq<SlotRecord> {
    slots.filter(owned_by(owner))
}

/// A run of rows owned by `owner` is no longer than the table.
pub proof fn lemma_owned_run_bound(slots: Seq<SlotRecord>, owner: Address)
    ensures
        owned_run(slots, owner) <= slots.len(),
        forall|i: int| 0 <= i < owned_run(slots, owner) ==> (#[trigger] slots[i]).address == owner,
        owned_run(slots, owner) < slots.len() ==> slots[owned_run(slots, owner) as int].address
            != owner,
    decreases slots.len(),
{
    if slots.len() > 0 && slots[0].address == owner {
        let rest = slots.skip(1);
        lemma_owned_run_bound(rest, owner);
        assert forall|i: int| 0 <= i < owned_run(slots, owner) implies (#[trigger] slots[i]).address
            == owner by {
            if i > 0 {
                assert(slots[i] == rest[i - 1]);
            }
        }
        if owned_run(slots, owner) < slots.len() {
            assert(slots[owned_run(slots, owner) as int] == rest[owned_run(rest, owner) as int]);
        }
    }
}

/// A sequence whose elements all meet a condition passes the filter for it
/// whole.
proof fn lemma_filter_keeps_all(s: Seq<SlotRecord>, pred: spec_fn(SlotRecord) -> bool)
    requires
        forall|i: int| 0 <= i < s.len() ==> pred(#[trigger] s[i]),
    ensures
        s.filter(pred) == s,
    decreases s.len(),
{
    reveal(Seq::filter);
    if s.len() > 0 {
        lemma_filter_keeps_all(s.drop_last(), pred);
        assert(s.drop_last().push(s.last()) == s);
    }
}

/// A sequence none of whose elements meets a condition leaves nothing in
/// the filter for it.
proof fn lemma_filter_drops_all(s: Seq<SlotRecord>, pred: spec_fn(SlotRecord) -> bool)
    requires
        forall|i: int| 0 <= i < s.len() ==> !pred(#[trigger] s[i]),
    ensures
        s.filter(pred) == Seq::<SlotRecord>::empty(),
    decreases s.len(),
{
    reveal(Seq::filter);
    if s.len() > 0 {
        lemma_filter_drops_all(s.drop_last(), pred);
    }
}

/// In an ascending table the rows of an account stand together: they are
/// the rows from `from` to `to` where the rows before `from` have lower
/// addresses, the rows from `from` to `to` have the account's address, and
/// the row at `to` has another.
pub proof fn lemma_rows_stand_together(slots: Seq<SlotRecord>, owner: Address, from: int, to: int)
    requires
        rows_ascending(slots),
        0 <= from <= to <= slots.len(),
        forall|i: int|
            0 <= i < from ==> be_value((#[trigger] slots[i]).address@) < be_value(owner@),
        forall|i: int|
            from <= i < slots.len() ==> be_value((#[trigger] slots[i]).address@) >= be_value(
                owner@,
            ),
        forall|i: int| from <= i < to ==> (#[trigger] slots[i]).address == owner,
        to < slots.len() ==> slots[to].address != owner,
    ensures
        rows_of(slots, owner) == slots.subrange(from, to),
{
    let pred = owned_by(owner);
    let below = slots.subrange(0, from);
    let own = slots.subrange(from, to);
    let above = slots.subrange(to, slots.len() as int);
    assert(slots == below + (own + above));
    assert forall|i: int| 0 <= i < below.len() implies !pred(#[trigger] below[i]) by {
        assert(below[i] == slots[i]);
    }
    assert forall|i: int| 0 <= i < own.len() implies pred(#[trigger] own[i]) by {
        assert(own[i] == slots[from + i]);
    }
    assert forall|i: int| 0 <= i < above.len() implies !pred(#[trigger] above[i]) by {
        assert(above[i] == slots[to + i]);
        lemma_lex_lt_is_numeric(slots[to].address@, owner@);
        assert(slots[to].address@ != owner@) by {
            if slots[to].address@ == owner@ {
                assert(slots[to].address =~= owner);
            }
        }
        assert(be_value(slots[to].address@) > be_value(owner@));
        if i > 0 {
            assert(row_lt(slots[to], slots[to + i]));
        }
    }
    lemma_filter_drops_all(below, pred);
    lemma_filter_keeps_all(own, pred);
    lemma_filter_drops_all(above, pred);
    Seq::filter_distributes_over_add(own, above, pred);
    Seq::filter_distributes_over_add(below, own + above, pred);
    assert(Seq::<SlotRecord>::empty() + (own + Seq::<SlotRecord>::empty()) == own);
}

/// The keys of the rows of one account in an ascending table ascend
/// strictly.
pub proof fn lemma_account_keys_ascend(slots: Seq<SlotRecord>, owner: Address, from: int, to: int)
    requires
        rows_ascending(slots),
        0 <= from <= to <= slots.len(),
        forall|i: int| from <= i < to ==> (#[trigger] slots[i]).address == owner,
    ensures
        forall|i: int, j: int|
            0 <= i < j < to - from ==> be_value(slots.subrange(from, to)[i].key@) < be_value(
                slots.subrange(from, to)[j].key@,
            ),
{
    let own = slots.subrange(from, to);
    assert forall|i: int, j: int| 0 <= i < j < to - from implies be_value(own[i].key@) < be_value(
        own[j].key@,
    ) by {
        assert(own[i] == slots[from + i] && own[j] == slots[from + j]);
        assert(row_lt(slots[from + i], slots[from + j]));
    }
}

/// Why two tables were not taken as a state.
#[derive(Clone, Copy, Debug, PartialEq, Eq, Structural)]
pub enum SnapshotError {
    /// The account row at this place is not above the row before it.
    UnorderedAccounts(usize),
    /// The storage row at this place is not above the row before it.
    UnorderedSlots(usize),
}

/// The two tables of a state, each in strictly ascending order of its keys.
#[derive(Clone, Debug, PartialEq, Eq)]
pub struct StateSnapshot {
    accounts: Vec<AccountRecord>,
    slots: Vec<SlotRecord>,
}

/// The first account row of `accounts` that is not above the row before it.
fn first_unordered_account(accounts: &Vec<AccountRecord>) -> (r: Option<usize>)
    ensures
        r is None <==> accounts_ascending(accounts@),
        r matches Some(i) ==> 0 < i < accounts@.len() && accounts_ascending(
            accounts@.take(i as int),
        ) && be_value(accounts@[i - 1].address@) >= be_value(accounts@[i as int].address@),
{
    if accounts.len() == 0 {
        return None;
    }
    let mut i: usize = 1;
    while i < accounts.len()
        invariant
            1 <= i <= accounts@.len(),
            accounts_ascending(accounts@.take(i as int)),
        decreases accounts@.len() - i,
    {
        if !bytes_lt(accounts[i - 1].address.as_slice(), accounts[i].address.as_slice()) {
            return Some(i);
        }
        proof {
            let before = accounts@.take(i as int);
            let after = accounts@.take(i + 1);
            assert forall|a: int, b: int| 0 <= a < b < after.len() implies be_value(
                after[a].address@,
            ) < be_value(after[b].address@) by {
                if b < i {
                    assert(before[a] == after[a] && before[b] == after[b]);
                } else if a < i - 1 {
                    assert(before[a] == after[a] && before[i - 1] == after[i - 1]);
                    assert(be_value(before[a].address@) < be_value(before[i - 1].address@));
                }
            }
        }
        i += 1;
    }
    proof {
        assert(accounts@.take(i as int) == accounts@);
    }
    None
}

/// Whether the row `a` comes before the row `b`.
fn row_before(a: &SlotRecord, b: &SlotRecord) -> (r: bool)
    ensures
        r == row_lt(*a, *b),
{
    proof {
        lemma_lex_lt_is_numeric(a.address@, b.address@);
    }
    if bytes_lt(a.address.as_slice(), b.address.as_slice()) {
        true
    } else if bytes_eq(a.address.as_slice(), b.address.as_slice()) {
        bytes_lt(a.key.as_slice(), b.key.as_slice())
    } else {
        false
    }
}

/// The first storage row of `slots` that is not above the row before it.
fn first_unordered_slot(slots: &Vec<SlotRecord>) -> (r: Option<usize>)
    ensures
        r is None <==> rows_ascending(slots@),
        r matches Some(i) ==> 0 < i < slots@.len() && rows_ascending(slots@.take(i as int))
            && !row_lt(slots@[i - 1], slots@[i as int]),
{
    if slots.len() == 0 {
        return None;
    }
    let mut i: usize = 1;
    while i < slots.len()
        invariant
            1 <= i <= slots@.len(),
            rows_ascending(slots@.take(i as int)),
        decreases slots@.len() - i,
    {
        if !row_before(&slots[i - 1], &slots[i]) {
            return Some(i);
        }
        proof {
            let before = slots@.take(i as int);
            let after = slots@.take(i + 1);
            assert forall|a: int, b: int| 0 <= a < b < after.len() implies row_lt(
                after[a],
                after[b],
            ) by {
                if b < i {
                    assert(before[a] == after[a] && before[b] == after[b]);
                } else if a < i - 1 {
                    assert(before[a] == after[a] && before[i - 1] == after[i - 1]);
                    assert(row_lt(before[a], before[i - 1]));
                }
            }
        }
        i += 1;
    }
    proof {
        assert(slots@.take(i as int) == slots@);
    }
    None
}

impl StateSnapshot {
    /// The account rows.
    pub closed spec fn account_rows(&self) -> Seq<AccountRecord> {
        self.accounts@
    }

    /// The storage rows.
    pub closed spec fn slot_rows(&self) -> Seq<SlotRecord> {
        self.slots@
    }

    /// Both tables are in strictly ascending order.
    pub closed spec fn wf(&self) -> bool {
        accounts_ascending(self.accounts@) && rows_ascending(self.slots@)
    }

    /// What well-formedness says of the rows.
    pub proof fn lemma_wf(&self)
        requires
            self.wf(),
        ensures
            accounts_ascending(self.account_rows()),
            rows_ascending(self.slot_rows()),
    {
    }

    /// Takes two tables as a state if each is in strictly ascending order of
    /// its keys, the account rows by address, the storage rows by address
    /// and key; if not, names the first row that is out of order, an
    /// account row before a storage row.
    pub fn new(accounts: Vec<AccountRecord>, slots: Vec<SlotRecord>) -> (r: Result<
        StateSnapshot,
        SnapshotError,
    >)
        ensures
            r is Ok <==> accounts_ascending(accounts@) && rows_ascending(slots@),
            r matches Ok(state) ==> state.wf() && state.account_rows() == accounts@
                && state.slot_rows() == slots@,
            r matches Err(SnapshotError::UnorderedAccounts(i)) ==> 0 < i < accounts@.len()
                && accounts_ascending(accounts@.take(i as int)) && be_value(
                accounts@[i - 1].address@,
            ) >= be_value(accounts@[i as int].address@),
            r matches Err(SnapshotError::UnorderedSlots(i)) ==> accounts_ascending(accounts@) && 0
                < i < slots@.len() && rows_ascending(slots@.take(i as int)) && !row_lt(
                slots@[i - 1],
                slots@[i as int],
            ),
    {
        if let Some(i) = first_unordered_account(&accounts) {
            return Err(SnapshotError::UnorderedAccounts(i));
        }
        if let Some(i) = first_unordered_slot(&slots) {
            return Err(SnapshotError::UnorderedSlots(i));
        }
        Ok(StateSnapshot { accounts, slots })
    }

    /// The account rows.
    pub fn accounts(&self) -> (r: &[AccountRecord])
        ensures
            r@ == self.account_rows(),
    {
        self.accounts.as_slice()
    }

    /// The storage rows.
    pub fn slots(&self) -> (r: &[SlotRecord])
        ensures
            r@ == self.slot_rows(),
    {
        self.slots.as_slice()
    }

    /// The place of the first storage row whose address is not below
    /// `address`.
    pub fn seek(&self, address: &Address) -> (r: usize)
        requires
            self.wf(),
        ensures
            r <= self.slot_rows().len(),
            forall|i: int|
                0 <= i < r ==> be_value((#[trigger] self.slot_rows()[i]).address@) < be_value(
                    address@,
                ),
            forall|i: int|
                r <= i < self.slot_rows().len() ==> be_value(
                    (#[trigger] self.slot_rows()[i]).address@,
                ) >= be_value(address@),
    {
        let mut lo: usize = 0;
        let mut hi: usize = self.slots.len();
        while lo < hi
            invariant
                rows_ascending(self.slots@),
                0 <= lo <= hi <= self.slots@.len(),
                forall|i: int|
                    0 <= i < lo ==> be_value((#[trigger] self.slots@[i]).address@) < be_value(
                        address@,
                    ),
                forall|i: int|
                    hi <= i < self.slots@.len() ==> be_value((#[trigger] self.slots@[i]).address@)
                        >= be_value(address@),
            decreases hi - lo,
        {
            let mid = lo + (hi - lo) / 2;
            if bytes_lt(self.slots[mid].address.as_slice(), address.as_slice()) {
                proof {
                    assert forall|i: int| 0 <= i < mid + 1 implies be_value(
                        (#[trigger] self.slots@[i]).address@,
                    ) < be_value(address@) by {
                        if i < mid {
                            assert(row_lt(self.slots@[i], self.slots@[mid as int]));
                        }
                    }
                }
                lo = mid + 1;
            } else {
                proof {
                    assert forall|i: int| mid <= i < self.slots@.len() implies be_value(
                        (#[trigger] self.slots@[i]).address@,
                    ) >= be_value(address@) by {
                        if i > mid {
                            assert(row_lt(self.slots@[mid as int], self.slots@[i]));
                        }
                    }
                }
                hi = mid;
            }
        }
        lo
    }

    /// The storage rows of the account `address`.
    pub fn storage_of(&self, address: &Address) -> (r: &[SlotRecord])
        requires
            self.wf(),
        ensures
            r@ == rows_of(self.slot_rows(), *address),
            forall|i: int, j: int|
                0 <= i < j < r@.len() ==> be_value(r@[i].key@) < be_value(r@[j].key@),
    {
        let from = self.seek(address);
        let mut to = from;
        while to < self.slots.len() && bytes_eq(
            self.slots[to].address.as_slice(),
            address.as_slice(),
        )
            invariant
                from <= to <= self.slots@.len(),
                forall|i: int| from <= i < to ==> (#[trigger] self.slots@[i]).address == *address,
            decreases self.slots@.len() - to,
        {
            assert(self.slots@[to as int].address =~= *address);
            to += 1;
        }
        proof {
            lemma_rows_stand_together(self.slots@, *address, from as int, to as int);
            lemma_account_keys_ascend(self.slots@, *address, from as int, to as int);
        }
        slice_subrange(self.slots.as_slice(), from, to)
    }
}

} // verus!
