//! The plain ordering: accounts in the order of the account table, each
//! followed by its storage slots in the order of the storage table.

use crate::bytes::bytes_eq;
use crate::iterators::{PreimageIterator, SourceError};
use crate::source::{
    addresses_of, lemma_owned_run_bound, owned_run, AccountRecord, SlotRecord, StateSnapshot,
};
use crate::types::{AccountStorageItem, Address};
use vstd::prelude::*;

verus! {

/// What the driver of a traversal hands to it.
#[derive(Clone, Copy, Debug, PartialEq, Eq)]
pub enum SourceEvent {
    /// Nothing was read: the traversal is asked what comes next.
    Poll,
    /// The next row of the account table, or none at its end.
    Account(Option<Address>),
    /// The row under the storage cursor, or none at the table's end.
    Slot(Option<SlotRecord>),
    /// The source failed.
    Failed,
}

/// What a traversal asks of its driver.
#[derive(Clone, Copy, Debug, PartialEq, Eq)]
pub enum Step {
    /// The next item of the sequence.
    Emit(AccountStorageItem),
    /// Advance the account cursor and report the row.
    ReadAccount,
    /// Advance the storage cursor and report the row.
    ReadSlot,
    /// Place the storage cursor on the first row whose address is not below
    /// the given one, and report the row.
    SeekSlot(Address),
    /// The sequence is at its end.
    Done,
}

/// Where the plain traversal stands.
#[derive(Clone, Copy, Debug, PartialEq, Eq)]
pub enum PlainState {
    /// Between accounts.
    Account,
    /// Among the storage slots of the account.
    StorageSlot(Address),
    /// At the end of the sequence.
    End,
}

/// The plain traversal as a state machine: it is told what the cursors
/// read and says what to emit or to read next.
#[derive(Clone, Copy, Debug, PartialEq, Eq)]
pub struct PlainIterator {
    pub state: PlainState,
    /// A row that was read from the storage table and not yet emitted.
    pub buf_storage_slot: Option<SlotRecord>,
}

/// What the traversal does in a given state when nothing new was read.
pub open spec fn plain_settle(it: PlainIterator) -> (PlainIterator, Step) {
    match it.state {
        PlainState::Account => (it, Step::ReadAccount),
        PlainState::StorageSlot(owner) => match it.buf_storage_slot {
            Some(row) => if row.address == owner {
                (
                    PlainIterator { state: it.state, buf_storage_slot: None },
                    Step::Emit(AccountStorageItem::StorageSlot(row.address, row.key)),
                )
            } else {
                (
                    PlainIterator {
                        state: PlainState::Account,
                        buf_storage_slot: it.buf_storage_slot,
                    },
                    Step::ReadAccount,
                )
            },
            None => (it, Step::ReadSlot),
        },
        PlainState::End => (it, Step::Done),
    }
}

/// The transition of the plain traversal. A report that was not asked for
/// is passed over.
pub open spec fn plain_step(it: PlainIterator, event: SourceEvent) -> (PlainIterator, Step) {
    match (it.state, event) {
        (_, SourceEvent::Failed) => (
            PlainIterator { state: PlainState::End, buf_storage_slot: it.buf_storage_slot },
            Step::Done,
        ),
        (PlainState::Account, SourceEvent::Account(Some(address))) => (
            PlainIterator {
                state: PlainState::StorageSlot(address),
                buf_storage_slot: it.buf_storage_slot,
            },
            Step::Emit(AccountStorageItem::Account(address)),
        ),
        (PlainState::Account, SourceEvent::Account(None)) => (
            PlainIterator { state: PlainState::End, buf_storage_slot: it.buf_storage_slot },
            Step::Done,
        ),
        (PlainState::StorageSlot(_), SourceEvent::Slot(Some(row))) => if it.buf_storage_slot
            is None {
            plain_settle(PlainIterator { state: it.state, buf_storage_slot: Some(row) })
        } else {
            plain_settle(it)
        },
        (PlainState::StorageSlot(_), SourceEvent::Slot(None)) => if it.buf_storage_slot is None {
            (
                PlainIterator { state: PlainState::Account, buf_storage_slot: None },
                Step::ReadAccount,
            )
        } else {
            plain_settle(it)
        },
        _ => plain_settle(it),
    }
}

impl PlainIterator {
    /// The traversal before its first account.
    pub fn new() -> (r: PlainIterator)
        ensures
            r == (PlainIterator { state: PlainState::Account, buf_storage_slot: None }),
    {
        PlainIterator { state: PlainState::Account, buf_storage_slot: None }
    }

    fn settle(&mut self) -> (r: Step)
        ensures
            (*final(self), r) == plain_settle(*old(self)),
    {
        match self.state {
            PlainState::Account => Step::ReadAccount,
            PlainState::StorageSlot(owner) => match self.buf_storage_slot {
                Some(row) => {
                    if bytes_eq(row.address.as_slice(), owner.as_slice()) {
                        assert(row.address =~= owner);
                        self.buf_storage_slot = None;
                        Step::Emit(AccountStorageItem::StorageSlot(row.address, row.key))
                    } else {
                        self.state = PlainState::Account;
                        Step::ReadAccount
                    }
                },
                None => Step::ReadSlot,
            },
            PlainState::End => Step::Done,
        }
    }

    /// Takes what the driver read and says what comes next.
    pub fn step(&mut self, event: SourceEvent) -> (r: Step)
        ensures
            (*final(self), r) == plain_step(*old(self), event),
    {
        match event {
            SourceEvent::Failed => {
                self.state = PlainState::End;
                Step::Done
            },
            SourceEvent::Account(reply) => match self.state {
                PlainState::Account => match reply {
                    Some(address) => {
                        self.state = PlainState::StorageSlot(address);
                        Step::Emit(AccountStorageItem::Account(address))
                    },
                    None => {
                        self.state = PlainState::End;
                        Step::Done
                    },
                },
                _ => self.settle(),
            },
            SourceEvent::Slot(reply) => match self.state {
                PlainState::StorageSlot(_) => {
                    if self.buf_storage_slot.is_none() {
                        match reply {
                            Some(row) => {
                                self.buf_storage_slot = Some(row);
                                self.settle()
                            },
                            None => {
                                self.state = PlainState::Account;
                                Step::ReadAccount
                            },
                        }
                    } else {
                        self.settle()
                    }
                },
                _ => self.settle(),
            },
            SourceEvent::Poll => self.settle(),
        }
    }
}

/// The storage slot items of `slots`, in their order.
pub open spec fn slot_items(slots: Seq<SlotRecord>) -> Seq<AccountStorageItem> {
    slots.map_values(|r: SlotRecord| AccountStorageItem::StorageSlot(r.address, r.key))
}

/// The plain order of a state: each account of `accounts` in turn, followed
/// by the rows at the front of what is left of `slots` that belong to it.
pub open spec fn plain_order(accounts: Seq<Address>, slots: Seq<SlotRecord>) -> Seq<
    AccountStorageItem,
>
    decreases accounts.len(),
{
    if accounts.len() == 0 {
        Seq::empty()
    } else {
        let run = owned_run(slots, accounts[0]) as int;
        seq![AccountStorageItem::Account(accounts[0])] + slot_items(slots.take(run))
            + plain_order(accounts.skip(1), slots.skip(run))
    }
}

/// The plain traversal of a state held in memory.
pub struct PlainTraversal<'a> {
    machine: PlainIterator,
    accounts: &'a [AccountRecord],
    slots: &'a [SlotRecord],
    next_account: usize,
    next_slot: usize,
}

impl<'a> PlainTraversal<'a> {
    /// The storage rows that were not emitted yet.
    pub closed spec fn pending(&self) -> Seq<SlotRecord> {
        match self.machine.buf_storage_slot {
            Some(row) => seq![row] + self.slots@.skip(self.next_slot as int),
            None => self.slots@.skip(self.next_slot as int),
        }
    }

    /// The accounts that were not emitted yet.
    pub closed spec fn waiting(&self) -> Seq<Address> {
        addresses_of(self.accounts@).skip(self.next_account as int)
    }

    /// Starts the traversal of the state `state`.
    pub fn new(state: &'a StateSnapshot) -> (r: PlainTraversal<'a>)
        ensures
            r.valid(),
            r.failure() is None,
            r.remaining() == plain_order(addresses_of(state.account_rows()), state.slot_rows()),
    {
        let r = PlainTraversal {
            machine: PlainIterator::new(),
            accounts: state.accounts(),
            slots: state.slots(),
            next_account: 0,
            next_slot: 0,
        };
        assert(r.pending() == state.slot_rows());
        assert(r.waiting() == addresses_of(state.account_rows()));
        r
    }

    fn read_account(&mut self) -> (r: Option<Address>)
        requires
            old(self).next_account <= old(self).accounts@.len(),
        ensures
            final(self).machine == old(self).machine,
            final(self).accounts == old(self).accounts,
            final(self).slots == old(self).slots,
            final(self).next_slot == old(self).next_slot,
            final(self).next_account <= final(self).accounts@.len(),
            r is Some <==> old(self).next_account < old(self).accounts@.len(),
            r matches Some(a) ==> a == old(self).accounts@[old(self).next_account as int].address
                && final(self).next_account == old(self).next_account + 1,
            r is None ==> final(self).next_account == old(self).next_account,
    {
        if self.next_account < self.accounts.len() {
            let a = self.accounts[self.next_account].address;
            self.next_account = self.next_account + 1;
            Some(a)
        } else {
            None
        }
    }

    fn read_slot(&mut self) -> (r: Option<SlotRecord>)
        requires
            old(self).next_slot <= old(self).slots@.len(),
        ensures
            final(self).machine == old(self).machine,
            final(self).accounts == old(self).accounts,
            final(self).slots == old(self).slots,
            final(self).next_account == old(self).next_account,
            final(self).next_slot <= final(self).slots@.len(),
            r is Some <==> old(self).next_slot < old(self).slots@.len(),
            r matches Some(row) ==> row == old(self).slots@[old(self).next_slot as int]
                && final(self).next_slot == old(self).next_slot + 1,
            r is None ==> final(self).next_slot == old(self).next_slot,
    {
        if self.next_slot < self.slots.len() {
            let row = self.slots[self.next_slot];
            self.next_slot = self.next_slot + 1;
            Some(row)
        } else {
            None
        }
    }
}

/// The slot items of a run start with the run's first row.
proof fn lemma_run_head(pending: Seq<SlotRecord>, owner: Address)
    requires
        pending.len() > 0,
        pending[0].address == owner,
    ensures
        owned_run(pending, owner) == 1 + owned_run(pending.skip(1), owner),
        slot_items(pending.take(owned_run(pending, owner) as int)) == seq![
            AccountStorageItem::StorageSlot(pending[0].address, pending[0].key),
        ] + slot_items(pending.skip(1).take(owned_run(pending.skip(1), owner) as int)),
        pending.skip(owned_run(pending, owner) as int) == pending.skip(1).skip(
            owned_run(pending.skip(1), owner) as int,
        ),
{
    let rest = pending.skip(1);
    let n = owned_run(rest, owner) as int;
    lemma_owned_run_bound(rest, owner);
    assert(slot_items(pending.take(n + 1)) =~= seq![
        AccountStorageItem::StorageSlot(pending[0].address, pending[0].key),
    ] + slot_items(rest.take(n)));
    assert(pending.skip(n + 1) =~= rest.skip(n));
}

impl<'a> PreimageIterator for PlainTraversal<'a> {
    closed spec fn remaining(&self) -> Seq<AccountStorageItem> {
        match self.machine.state {
            PlainState::Account => plain_order(self.waiting(), self.pending()),
            PlainState::StorageSlot(owner) => slot_items(
                self.pending().take(owned_run(self.pending(), owner) as int),
            ) + plain_order(
                self.waiting(),
                self.pending().skip(owned_run(self.pending(), owner) as int),
            ),
            PlainState::End => Seq::empty(),
        }
    }

    closed spec fn valid(&self) -> bool {
        &&& self.next_account <= self.accounts@.len()
        &&& self.next_slot <= self.slots@.len()
    }

    open spec fn failure(&self) -> Option<SourceError> {
        None
    }

    fn advance(&mut self) -> (r: Option<Result<AccountStorageItem, SourceError>>) {
        let ghost start = self.remaining();
        let mut step = self.machine.step(SourceEvent::Poll);
        proof {
            match old(self).machine.state {
                PlainState::StorageSlot(owner) => {
                    let pending = old(self).pending();
                    lemma_owned_run_bound(pending, owner);
                    if old(self).machine.buf_storage_slot is Some {
                        if pending[0].address == owner {
                            lemma_run_head(pending, owner);
                            assert(pending.skip(1) == self.pending());
                        } else {
                            assert(pending.take(0) == Seq::<SlotRecord>::empty());
                            assert(pending.skip(0) == pending);
                        }
                    }
                },
                _ => {},
            }
        }
        loop
            invariant
                self.valid(),
                self.accounts == old(self).accounts,
                self.slots == old(self).slots,
                start == old(self).remaining(),
                match step {
                    Step::Emit(item) => start.len() > 0 && item == start[0] && self.remaining()
                        == start.skip(1),
                    Step::Done => start.len() == 0 && self.remaining().len() == 0,
                    Step::ReadAccount => self.machine.state == PlainState::Account
                        && self.remaining() == start,
                    Step::ReadSlot => self.machine.state is StorageSlot
                        && self.machine.buf_storage_slot is None && self.remaining() == start,
                    Step::SeekSlot(_) => false,
                },
            decreases
                match step {
                    Step::ReadSlot => 2nat,
                    Step::ReadAccount => 1nat,
                    _ => 0nat,
                },
        {
            match step {
                Step::Emit(item) => {
                    return Some(Ok(item));
                },
                Step::Done => {
                    return None;
                },
                Step::ReadAccount => {
                    let ghost before = *self;
                    let reply = self.read_account();
                    step = self.machine.step(SourceEvent::Account(reply));
                    proof {
                        let waiting = before.waiting();
                        let pending = before.pending();
                        assert(self.pending() == pending);
                        if reply is Some {
                            let a = reply->0;
                            assert(waiting[0] == a);
                            assert(waiting.skip(1) == self.waiting());
                            let run = owned_run(pending, a) as int;
                            assert(start =~= seq![AccountStorageItem::Account(a)] + (slot_items(
                                pending.take(run),
                            ) + plain_order(waiting.skip(1), pending.skip(run))));
                            assert(start.skip(1) =~= slot_items(pending.take(run)) + plain_order(
                                waiting.skip(1),
                                pending.skip(run),
                            ));
                        } else {
                            assert(waiting.len() == 0);
                        }
                    }
                },
                Step::ReadSlot => {
                    let ghost before = *self;
                    let reply = self.read_slot();
                    step = self.machine.step(SourceEvent::Slot(reply));
                    proof {
                        let pending = before.pending();
                        let owner = before.machine.state->StorageSlot_0;
                        assert(self.waiting() == before.waiting());
                        lemma_owned_run_bound(pending, owner);
                        if reply is Some {
                            let row = reply->0;
                            assert(pending =~= seq![row] + before.slots@.skip(
                                before.next_slot + 1,
                            ));
                            if row.address == owner {
                                lemma_run_head(pending, owner);
                                assert(pending.skip(1) =~= self.pending());
                            } else {
                                assert(self.pending() == pending);
                                assert(pending.take(0) == Seq::<SlotRecord>::empty());
                                assert(pending.skip(0) == pending);
                            }
                        } else {
                            assert(pending.len() == 0);
                            assert(self.pending() == pending);
                            assert(pending.take(0) == Seq::<SlotRecord>::empty());
                            assert(pending.skip(0) == pending);
                        }
                    }
                },
                Step::SeekSlot(_) => {
                    return None;
                },
            }
        }
    }
}

} // verus!
