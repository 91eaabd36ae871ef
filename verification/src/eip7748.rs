//! The hash-sorted ordering: accounts in ascending order of the hashes of
//! their addresses, each followed by its storage slots in ascending order
//! of the hashes of their keys.

use crate::bytes::{be_value, bytes_eq};
use crate::hashing::{
    addresses_by_hash, hash_at_most, hash_below, hash_bytes, hash_of, hashed_keys, keys_by_hash,
    lemma_addresses_by_hash, lemma_keys_by_hash, order_addresses, order_keys, Digest,
};
use crate::iterators::{PreimageIterator, SourceError};
use crate::plain::{SourceEvent, Step};
use crate::source::{
    addresses_of, keys_of, lemma_rows_stand_together, rows_ascending, rows_of, SlotRecord,
    StateSnapshot,
};
use crate::types::{AccountStorageItem, Address, StorageKey};
use vstd::prelude::*;

verus! {

/// Where the hash-sorted traversal stands.
#[derive(Clone, Copy, Debug, PartialEq, Eq)]
pub enum HashedState {
    /// Between accounts.
    Account,
    /// After an account, before its storage rows are asked for.
    Seek(Address),
    /// Gathering the storage rows of the account.
    Load(Address),
    /// Among the storage slots of the account, which are in their order.
    Slots(Address),
    /// At the end of the sequence.
    End,
}

/// The hash-sorted traversal as a state machine: it is told what the
/// storage cursor reads and says what to emit or to read next.
pub struct Eip7748Iterator {
    state: HashedState,
    ordered_addresses: Vec<Address>,
    ordered_addresses_idx: usize,
    collected: Vec<(StorageKey, Digest)>,
    buf_storage_slot: Vec<StorageKey>,
    buf_storage_slot_idx: usize,
}

/// The state of the hash-sorted traversal in plain values.
#[verifier::ext_equal]
pub struct Eip7748View {
    pub state: HashedState,
    /// The addresses in the order of the traversal.
    pub ordered: Seq<Address>,
    /// The number of accounts that were emitted.
    pub next: nat,
    /// The keys gathered for the account, in the order of the table.
    pub collected: Seq<StorageKey>,
    /// The keys of the account in the order of the traversal.
    pub buffer: Seq<StorageKey>,
    /// The number of keys of the buffer that were emitted.
    pub buffer_next: nat,
}

/// The step to the next account, or to the end.
pub open spec fn next_account(v: Eip7748View) -> (Eip7748View, Step) {
    if v.next < v.ordered.len() {
        (
            Eip7748View {
                state: HashedState::Seek(v.ordered[v.next as int]),
                ordered: v.ordered,
                next: v.next + 1,
                collected: Seq::empty(),
                buffer: Seq::empty(),
                buffer_next: 0,
            },
            Step::Emit(AccountStorageItem::Account(v.ordered[v.next as int])),
        )
    } else {
        (
            Eip7748View {
                state: HashedState::End,
                ordered: v.ordered,
                next: v.next,
                collected: Seq::empty(),
                buffer: Seq::empty(),
                buffer_next: 0,
            },
            Step::Done,
        )
    }
}

/// The step to the next storage slot of `owner`, or past its last one.
pub open spec fn next_slot(v: Eip7748View, owner: Address) -> (Eip7748View, Step) {
    if v.buffer_next < v.buffer.len() {
        (
            Eip7748View {
                state: HashedState::Slots(owner),
                ordered: v.ordered,
                next: v.next,
                collected: Seq::empty(),
                buffer: v.buffer,
                buffer_next: v.buffer_next + 1,
            },
            Step::Emit(AccountStorageItem::StorageSlot(owner, v.buffer[v.buffer_next as int])),
        )
    } else {
        next_account(v)
    }
}

/// The step that ends the gathering: the gathered keys go into the order of
/// their hashes, and the first of them is emitted.
pub open spec fn finish_load(v: Eip7748View, owner: Address) -> (Eip7748View, Step) {
    next_slot(
        Eip7748View {
            state: HashedState::Slots(owner),
            ordered: v.ordered,
            next: v.next,
            collected: Seq::empty(),
            buffer: keys_by_hash(v.collected),
            buffer_next: 0,
        },
        owner,
    )
}

/// The transition of the hash-sorted traversal. Only the gathering looks at
/// what was read; a report that it did not ask for starts it again.
pub open spec fn hashed_step(v: Eip7748View, event: SourceEvent) -> (Eip7748View, Step) {
    match (v.state, event) {
        (_, SourceEvent::Failed) => (
            Eip7748View {
                state: HashedState::End,
                ordered: v.ordered,
                next: v.next,
                collected: Seq::empty(),
                buffer: Seq::empty(),
                buffer_next: 0,
            },
            Step::Done,
        ),
        (HashedState::End, _) => (v, Step::Done),
        (HashedState::Account, _) => next_account(v),
        (HashedState::Seek(owner), _) => (
            Eip7748View {
                state: HashedState::Load(owner),
                ordered: v.ordered,
                next: v.next,
                collected: Seq::empty(),
                buffer: Seq::empty(),
                buffer_next: 0,
            },
            Step::SeekSlot(owner),
        ),
        (HashedState::Load(owner), SourceEvent::Slot(Some(row))) => if row.address == owner {
            (
                Eip7748View {
                    state: v.state,
                    ordered: v.ordered,
                    next: v.next,
                    collected: v.collected.push(row.key),
                    buffer: Seq::empty(),
                    buffer_next: 0,
                },
                Step::ReadSlot,
            )
        } else {
            finish_load(v, owner)
        },
        (HashedState::Load(owner), SourceEvent::Slot(None)) => finish_load(v, owner),
        (HashedState::Load(owner), _) => (
            Eip7748View {
                state: v.state,
                ordered: v.ordered,
                next: v.next,
                collected: Seq::empty(),
                buffer: Seq::empty(),
                buffer_next: 0,
            },
            Step::SeekSlot(owner),
        ),
        (HashedState::Slots(owner), _) => next_slot(v, owner),
    }
}

/// The keys of gathered entries.
pub open spec fn gathered_keys(entries: Seq<(StorageKey, Digest)>) -> Seq<StorageKey> {
    entries.map_values(|e: (StorageKey, Digest)| e.0)
}

impl View for Eip7748Iterator {
    type V = Eip7748View;

    closed spec fn view(&self) -> Eip7748View {
        Eip7748View {
            state: self.state,
            ordered: self.ordered_addresses@,
            next: self.ordered_addresses_idx as nat,
            collected: gathered_keys(self.collected@),
            buffer: self.buf_storage_slot@,
            buffer_next: self.buf_storage_slot_idx as nat,
        }
    }
}

impl Eip7748Iterator {
    /// Each gathered key stands with its hash, and no more accounts or keys
    /// were emitted than there are.
    pub closed spec fn wf(&self) -> bool {
        &&& self.ordered_addresses_idx <= self.ordered_addresses@.len()
        &&& self.buf_storage_slot_idx <= self.buf_storage_slot@.len()
        &&& self.collected@ == hashed_keys(gathered_keys(self.collected@))
        &&& !(self.state is Load) ==> self.collected@.len() == 0
        &&& !(self.state is Slots) ==> self.buf_storage_slot@.len() == 0
            && self.buf_storage_slot_idx == 0
    }

    /// What well-formedness says of the state in plain values.
    pub proof fn lemma_wf(&self)
        requires
            self.wf(),
        ensures
            self@.next <= self@.ordered.len(),
            self@.buffer_next <= self@.buffer.len(),
            !(self@.state is Load) ==> self@.collected.len() == 0,
            !(self@.state is Slots) ==> self@.buffer.len() == 0 && self@.buffer_next == 0,
    {
    }

    /// The traversal of the accounts `addresses` before its first account:
    /// the addresses are put in ascending order of their hashes.
    pub fn new(addresses: &[Address]) -> (r: Eip7748Iterator)
        ensures
            r.wf(),
            r@ == (Eip7748View {
                state: HashedState::Account,
                ordered: addresses_by_hash(addresses@),
                next: 0,
                collected: Seq::empty(),
                buffer: Seq::empty(),
                buffer_next: 0,
            }),
    {
        let r = Eip7748Iterator {
            state: HashedState::Account,
            ordered_addresses: order_addresses(addresses),
            ordered_addresses_idx: 0,
            collected: Vec::new(),
            buf_storage_slot: Vec::new(),
            buf_storage_slot_idx: 0,
        };
        proof {
            assert(gathered_keys(r.collected@) =~= Seq::<StorageKey>::empty());
            assert(r.collected@ =~= hashed_keys(gathered_keys(r.collected@)));
        }
        r
    }

    fn to_next_account(&mut self) -> (r: Step)
        requires
            old(self).wf(),
            old(self).collected@.len() == 0,
            old(self).buf_storage_slot@.len() == 0,
            old(self).buf_storage_slot_idx == 0,
        ensures
            final(self).wf(),
            (final(self)@, r) == next_account(old(self)@),
    {
        proof {
            assert(gathered_keys(self.collected@) =~= Seq::<StorageKey>::empty());
        }
        let r = if self.ordered_addresses_idx < self.ordered_addresses.len() {
            let address = self.ordered_addresses[self.ordered_addresses_idx];
            self.ordered_addresses_idx = self.ordered_addresses_idx + 1;
            self.state = HashedState::Seek(address);
            Step::Emit(AccountStorageItem::Account(address))
        } else {
            self.state = HashedState::End;
            Step::Done
        };
        proof {
            assert(self@ =~= next_account(old(self)@).0);
        }
        r
    }

    fn to_next_slot(&mut self, owner: Address) -> (r: Step)
        requires
            old(self).wf(),
            old(self).state == HashedState::Slots(owner),
        ensures
            final(self).wf(),
            (final(self)@, r) == next_slot(old(self)@, owner),
    {
        proof {
            assert(gathered_keys(self.collected@) =~= Seq::<StorageKey>::empty());
        }
        if self.buf_storage_slot_idx < self.buf_storage_slot.len() {
            let key = self.buf_storage_slot[self.buf_storage_slot_idx];
            self.buf_storage_slot_idx = self.buf_storage_slot_idx + 1;
            proof {
                assert(self@ =~= next_slot(old(self)@, owner).0);
            }
            Step::Emit(AccountStorageItem::StorageSlot(owner, key))
        } else {
            self.buf_storage_slot = Vec::new();
            self.buf_storage_slot_idx = 0;
            self.state = HashedState::Account;
            let r = self.to_next_account();
            proof {
                assert(self@ =~= next_slot(old(self)@, owner).0);
            }
            r
        }
    }

    fn to_first_slot(&mut self, owner: Address) -> (r: Step)
        requires
            old(self).wf(),
            old(self).state == HashedState::Load(owner),
        ensures
            final(self).wf(),
            (final(self)@, r) == finish_load(old(self)@, owner),
    {
        let mut entries: Vec<(StorageKey, Digest)> = Vec::new();
        std::mem::swap(&mut entries, &mut self.collected);
        self.buf_storage_slot = order_keys(entries);
        self.buf_storage_slot_idx = 0;
        self.state = HashedState::Slots(owner);
        proof {
            assert(gathered_keys(self.collected@) =~= Seq::<StorageKey>::empty());
            assert(self.collected@ =~= hashed_keys(gathered_keys(self.collected@)));
            assert(self.buf_storage_slot@ == keys_by_hash(gathered_keys(old(self).collected@)));
        }
        let r = self.to_next_slot(owner);
        proof {
            assert(self@ =~= finish_load(old(self)@, owner).0);
        }
        r
    }

    /// Takes what the driver read and says what comes next.
    pub fn step(&mut self, event: SourceEvent) -> (r: Step)
        requires
            old(self).wf(),
        ensures
            final(self).wf(),
            (final(self)@, r) == hashed_step(old(self)@, event),
    {
        proof {
            if !(self.state is Load) {
                assert(gathered_keys(self.collected@) =~= Seq::<StorageKey>::empty());
            }
        }
        if let SourceEvent::Failed = event {
            self.state = HashedState::End;
            self.collected = Vec::new();
            self.buf_storage_slot = Vec::new();
            self.buf_storage_slot_idx = 0;
            proof {
                assert(gathered_keys(self.collected@) =~= Seq::<StorageKey>::empty());
                assert(self.collected@ =~= hashed_keys(gathered_keys(self.collected@)));
                assert(self@ =~= hashed_step(old(self)@, event).0);
            }
            return Step::Done;
        }
        match self.state {
            HashedState::End => Step::Done,
            HashedState::Account => self.to_next_account(),
            HashedState::Seek(owner) => {
                self.state = HashedState::Load(owner);
                proof {
                    assert(self@ =~= hashed_step(old(self)@, event).0);
                }
                Step::SeekSlot(owner)
            },
            HashedState::Load(owner) => match event {
                SourceEvent::Slot(Some(row)) => {
                    if bytes_eq(row.address.as_slice(), owner.as_slice()) {
                        assert(row.address =~= owner);
                        let hash = hash_bytes(row.key.as_slice());
                        let ghost before = self.collected@;
                        self.collected.push((row.key, hash));
                        proof {
                            assert(gathered_keys(before.push((row.key, hash))) =~= gathered_keys(
                                before,
                            ).push(row.key));
                            assert(self.collected@ =~= hashed_keys(
                                gathered_keys(self.collected@),
                            ));
                            assert(self@ =~= hashed_step(old(self)@, event).0);
                        }
                        Step::ReadSlot
                    } else {
                        self.to_first_slot(owner)
                    }
                },
                SourceEvent::Slot(None) => self.to_first_slot(owner),
                _ => {
                    self.collected = Vec::new();
                    proof {
                        assert(gathered_keys(self.collected@) =~= Seq::<StorageKey>::empty());
                        assert(self.collected@ =~= hashed_keys(gathered_keys(self.collected@)));
                        assert(self@ =~= hashed_step(old(self)@, event).0);
                    }
                    Step::SeekSlot(owner)
                },
            },
            HashedState::Slots(owner) => self.to_next_slot(owner),
        }
    }
}

/// The storage slot items of `owner` with the keys `keys`, in their order.
pub open spec fn key_items(owner: Address, keys: Seq<StorageKey>) -> Seq<AccountStorageItem> {
    keys.map_values(|k: StorageKey| AccountStorageItem::StorageSlot(owner, k))
}

/// The storage slot items of the account `owner` of a state with the
/// storage rows `slots`, in ascending order of the hashes of their keys.
pub open spec fn account_items(slots: Seq<SlotRecord>, owner: Address) -> Seq<
    AccountStorageItem,
> {
    key_items(owner, keys_by_hash(keys_of(rows_of(slots, owner))))
}

/// The items of the accounts `addresses` in turn, each account followed by
/// its storage slots in ascending order of the hashes of their keys.
pub open spec fn hashed_order_from(addresses: Seq<Address>, slots: Seq<SlotRecord>) -> Seq<
    AccountStorageItem,
>
    decreases addresses.len(),
{
    if addresses.len() == 0 {
        Seq::empty()
    } else {
        seq![AccountStorageItem::Account(addresses[0])] + account_items(slots, addresses[0])
            + hashed_order_from(addresses.skip(1), slots)
    }
}

/// The hash-sorted order of a state: the accounts in ascending order of the
/// hashes of their addresses, each followed by its storage slots in
/// ascending order of the hashes of their keys.
pub open spec fn hash_sorted_order(accounts: Seq<Address>, slots: Seq<SlotRecord>) -> Seq<
    AccountStorageItem,
> {
    hashed_order_from(addresses_by_hash(accounts), slots)
}

/// The addresses of the account items among `items`, in their order.
pub open spec fn accounts_in(items: Seq<AccountStorageItem>) -> Seq<Address>
    decreases items.len(),
{
    if items.len() == 0 {
        Seq::empty()
    } else {
        match items.last() {
            AccountStorageItem::Account(address) => accounts_in(items.drop_last()).push(address),
            AccountStorageItem::StorageSlot(_, _) => accounts_in(items.drop_last()),
        }
    }
}

/// The account items of two sequences in a row are those of the first
/// followed by those of the second.
proof fn lemma_accounts_in_concat(a: Seq<AccountStorageItem>, b: Seq<AccountStorageItem>)
    ensures
        accounts_in(a + b) == accounts_in(a) + accounts_in(b),
    decreases b.len(),
{
    if b.len() == 0 {
        assert(a + b == a);
    } else {
        lemma_accounts_in_concat(a, b.drop_last());
        assert((a + b).drop_last() == a + b.drop_last());
        assert((a + b).last() == b.last());
    }
}

/// Storage slot items hold no account item.
proof fn lemma_accounts_in_key_items(owner: Address, keys: Seq<StorageKey>)
    ensures
        accounts_in(key_items(owner, keys)).len() == 0,
    decreases keys.len(),
{
    if keys.len() > 0 {
        lemma_accounts_in_key_items(owner, keys.drop_last());
        assert(key_items(owner, keys).drop_last() == key_items(owner, keys.drop_last()));
    }
}

/// The account items of the order are the given addresses, in their order.
proof fn lemma_accounts_in_order(addresses: Seq<Address>, slots: Seq<SlotRecord>)
    ensures
        accounts_in(hashed_order_from(addresses, slots)) == addresses,
    decreases addresses.len(),
{
    if addresses.len() > 0 {
        let head = seq![AccountStorageItem::Account(addresses[0])];
        let own = account_items(slots, addresses[0]);
        let rest = hashed_order_from(addresses.skip(1), slots);
        lemma_accounts_in_order(addresses.skip(1), slots);
        lemma_accounts_in_concat(head + own, rest);
        lemma_accounts_in_concat(head, own);
        lemma_accounts_in_key_items(
            addresses[0],
            keys_by_hash(keys_of(rows_of(slots, addresses[0]))),
        );
        assert(head.drop_last() =~= Seq::<AccountStorageItem>::empty());
        assert(head.last() == AccountStorageItem::Account(addresses[0]));
        assert(accounts_in(head.drop_last()) =~= Seq::<Address>::empty());
        assert(accounts_in(head) =~= seq![addresses[0]]);
        assert(seq![addresses[0]] + Seq::<Address>::empty() + addresses.skip(1) == addresses);
    }
}

/// In the hash-sorted order of a state the hashes of the accounts ascend,
/// and they ascend strictly where no two accounts of the state have one
/// hash.
pub proof fn lemma_account_hashes_ascend(accounts: Seq<Address>, slots: Seq<SlotRecord>)
    ensures
        accounts_in(hash_sorted_order(accounts, slots)) == addresses_by_hash(accounts),
        accounts_in(hash_sorted_order(accounts, slots)).len() == accounts.len(),
        forall|i: int, j: int|
            0 <= i < j < accounts.len() ==> hash_at_most(
                #[trigger] accounts_in(hash_sorted_order(accounts, slots))[i]@,
                #[trigger] accounts_in(hash_sorted_order(accounts, slots))[j]@,
            ),
        (forall|i: int, j: int|
            0 <= i < accounts.len() && 0 <= j < accounts.len() && i != j ==> hash_of(accounts[i]@)
                != hash_of(accounts[j]@)) ==> forall|i: int, j: int|
            0 <= i < j < accounts.len() ==> hash_below(
                #[trigger] accounts_in(hash_sorted_order(accounts, slots))[i]@,
                #[trigger] accounts_in(hash_sorted_order(accounts, slots))[j]@,
            ),
{
    lemma_accounts_in_order(addresses_by_hash(accounts), slots);
    lemma_addresses_by_hash(accounts);
}

/// The storage slots that the hash-sorted order lists for an account are
/// the storage rows of the account, their hashes ascend, and they ascend
/// strictly where no two keys of the account have one hash.
pub proof fn lemma_slot_hashes_ascend(slots: Seq<SlotRecord>, owner: Address)
    ensures
        account_items(slots, owner) == key_items(
            owner,
            keys_by_hash(keys_of(rows_of(slots, owner))),
        ),
        keys_by_hash(keys_of(rows_of(slots, owner))).len() == rows_of(slots, owner).len(),
        forall|i: int, j: int|
            0 <= i < j < rows_of(slots, owner).len() ==> hash_at_most(
                #[trigger] keys_by_hash(keys_of(rows_of(slots, owner)))[i]@,
                #[trigger] keys_by_hash(keys_of(rows_of(slots, owner)))[j]@,
            ),
        (forall|i: int, j: int|
            0 <= i < rows_of(slots, owner).len() && 0 <= j < rows_of(slots, owner).len() && i != j
                ==> hash_of(rows_of(slots, owner)[i].key@) != hash_of(
                rows_of(slots, owner)[j].key@,
            )) ==> forall|i: int, j: int|
            0 <= i < j < rows_of(slots, owner).len() ==> hash_below(
                #[trigger] keys_by_hash(keys_of(rows_of(slots, owner)))[i]@,
                #[trigger] keys_by_hash(keys_of(rows_of(slots, owner)))[j]@,
            ),
{
    let keys = keys_of(rows_of(slots, owner));
    lemma_keys_by_hash(keys);
    if forall|i: int, j: int|
        0 <= i < rows_of(slots, owner).len() && 0 <= j < rows_of(slots, owner).len() && i != j
            ==> hash_of(rows_of(slots, owner)[i].key@) != hash_of(rows_of(slots, owner)[j].key@) {
        assert forall|i: int, j: int|
            0 <= i < keys.len() && 0 <= j < keys.len() && i != j implies hash_of(keys[i]@)
            != hash_of(keys[j]@) by {
            assert(keys[i] == rows_of(slots, owner)[i].key);
            assert(keys[j] == rows_of(slots, owner)[j].key);
        }
    }
}

/// What is left of the order from the account at `next` on.
proof fn lemma_order_unfolds(ordered: Seq<Address>, next: int, slots: Seq<SlotRecord>)
    requires
        0 <= next <= ordered.len(),
    ensures
        next == ordered.len() ==> hashed_order_from(ordered.skip(next), slots).len() == 0,
        next < ordered.len() ==> hashed_order_from(ordered.skip(next), slots) == seq![
            AccountStorageItem::Account(ordered[next]),
        ] + (account_items(slots, ordered[next]) + hashed_order_from(
            ordered.skip(next + 1),
            slots,
        )),
{
    if next < ordered.len() {
        assert(ordered.skip(next).skip(1) == ordered.skip(next + 1));
        assert(ordered.skip(next)[0] == ordered[next]);
        let head = seq![AccountStorageItem::Account(ordered[next])];
        let own = account_items(slots, ordered[next]);
        let rest = hashed_order_from(ordered.skip(next + 1), slots);
        assert(head + own + rest =~= head + (own + rest));
    }
}

/// What is left of the items of an account from the key at `from` on.
proof fn lemma_key_items_unfold(owner: Address, keys: Seq<StorageKey>, from: int)
    requires
        0 <= from <= keys.len(),
    ensures
        from == keys.len() ==> key_items(owner, keys.skip(from)).len() == 0,
        from < keys.len() ==> key_items(owner, keys.skip(from)) == seq![
            AccountStorageItem::StorageSlot(owner, keys[from]),
        ] + key_items(owner, keys.skip(from + 1)),
{
    if from < keys.len() {
        assert(key_items(owner, keys.skip(from)) =~= seq![
            AccountStorageItem::StorageSlot(owner, keys[from]),
        ] + key_items(owner, keys.skip(from + 1)));
    }
}

/// The hash-sorted traversal of a state held in memory.
pub struct HashSortedTraversal<'a> {
    machine: Eip7748Iterator,
    state: &'a StateSnapshot,
    cursor: usize,
}

impl<'a> HashSortedTraversal<'a> {
    /// What is left of the order after the account that the traversal is in.
    pub closed spec fn later(&self) -> Seq<AccountStorageItem> {
        hashed_order_from(
            self.machine@.ordered.skip(self.machine@.next as int),
            self.state.slot_rows(),
        )
    }

    /// Starts the traversal of the state `state`.
    pub fn new(state: &'a StateSnapshot) -> (r: HashSortedTraversal<'a>)
        requires
            state.wf(),
        ensures
            r.valid(),
            r.failure() is None,
            r.remaining() == hash_sorted_order(
                addresses_of(state.account_rows()),
                state.slot_rows(),
            ),
    {
        let accounts = state.accounts();
        let mut addresses: Vec<Address> = Vec::new();
        let mut i: usize = 0;
        while i < accounts.len()
            invariant
                0 <= i <= accounts@.len(),
                addresses@ == addresses_of(accounts@.take(i as int)),
            decreases accounts@.len() - i,
        {
            addresses.push(accounts[i].address);
            proof {
                let front = accounts@.take(i as int);
                assert(accounts@.take(i + 1) == front.push(accounts@[i as int]));
                assert(addresses_of(front.push(accounts@[i as int])) =~= addresses_of(front).push(
                    accounts@[i as int].address,
                ));
            }
            i += 1;
        }
        proof {
            assert(accounts@.take(i as int) == accounts@);
        }
        let machine = Eip7748Iterator::new(addresses.as_slice());
        let r = HashSortedTraversal { machine, state, cursor: 0 };
        proof {
            assert(r.machine@.ordered.skip(0) == r.machine@.ordered);
        }
        r
    }

    /// The row under the cursor.
    fn row_at_cursor(&self) -> (r: Option<SlotRecord>)
        ensures
            match r {
                Some(row) => self.cursor < self.state.slot_rows().len() && row
                    == self.state.slot_rows()[self.cursor as int],
                None => self.cursor >= self.state.slot_rows().len(),
            },
    {
        let rows = self.state.slots();
        if self.cursor < rows.len() {
            Some(rows[self.cursor])
        } else {
            None
        }
    }
}

/// The rows from `from` up to the cursor belong to `owner`, the rows before
/// them have lower addresses, and their keys were gathered.
spec fn gathering(
    rows: Seq<SlotRecord>,
    owner: Address,
    from: int,
    upto: int,
    collected: Seq<StorageKey>,
) -> bool {
    &&& 0 <= from <= upto <= rows.len()
    &&& forall|i: int| 0 <= i < from ==> be_value((#[trigger] rows[i]).address@) < be_value(owner@)
    &&& forall|i: int|
        from <= i < rows.len() ==> be_value((#[trigger] rows[i]).address@) >= be_value(owner@)
    &&& forall|i: int| from <= i < upto ==> (#[trigger] rows[i]).address == owner
    &&& collected == keys_of(rows.subrange(from, upto))
}

impl<'a> PreimageIterator for HashSortedTraversal<'a> {
    closed spec fn remaining(&self) -> Seq<AccountStorageItem> {
        match self.machine@.state {
            HashedState::Account => self.later(),
            HashedState::Seek(owner) => account_items(self.state.slot_rows(), owner)
                + self.later(),
            HashedState::Load(owner) => account_items(self.state.slot_rows(), owner)
                + self.later(),
            HashedState::Slots(owner) => key_items(
                owner,
                self.machine@.buffer.skip(self.machine@.buffer_next as int),
            ) + self.later(),
            HashedState::End => Seq::empty(),
        }
    }

    closed spec fn valid(&self) -> bool {
        &&& self.machine.wf()
        &&& self.state.wf()
        &&& !(self.machine@.state is Load)
    }

    open spec fn failure(&self) -> Option<SourceError> {
        None
    }

    fn advance(&mut self) -> (r: Option<Result<AccountStorageItem, SourceError>>) {
        let ghost start = self.remaining();
        let ghost rows = self.state.slot_rows();
        proof {
            self.machine.lemma_wf();
            self.state.lemma_wf();
            let v = self.machine@;
            lemma_order_unfolds(v.ordered, v.next as int, rows);
            lemma_key_items_unfold(
                v.state->Slots_0,
                v.buffer,
                v.buffer_next as int,
            );
        }
        let mut step = self.machine.step(SourceEvent::Poll);
        let ghost mut from: int = 0;
        loop
            invariant
                self.machine.wf(),
                self.state.wf(),
                self.state == old(self).state,
                rows == self.state.slot_rows(),
                rows_ascending(rows),
                start == old(self).remaining(),
                match step {
                    Step::Emit(item) => start.len() > 0 && item == start[0] && self.remaining()
                        == start.skip(1) && !(self.machine@.state is Load),
                    Step::Done => start.len() == 0 && self.remaining().len() == 0 && !(
                    self.machine@.state is Load),
                    Step::SeekSlot(owner) => self.machine@.state == HashedState::Load(owner)
                        && self.machine@.collected.len() == 0 && start == self.remaining(),
                    Step::ReadSlot => self.machine@.state is Load && start == self.remaining()
                        && self.cursor < rows.len() && gathering(
                        rows,
                        self.machine@.state->Load_0,
                        from,
                        self.cursor + 1,
                        self.machine@.collected,
                    ),
                    Step::ReadAccount => false,
                },
            decreases
                match step {
                    Step::SeekSlot(_) => (rows.len() + 2) as int,
                    Step::ReadSlot => rows.len() - self.cursor,
                    _ => 0int,
                },
        {
            match step {
                Step::Emit(item) => {
                    return Some(Ok(item));
                },
                Step::Done => {
                    return None;
                },
                Step::SeekSlot(owner) => {
                    self.cursor = self.state.seek(&owner);
                    proof {
                        from = self.cursor as int;
                        assert(rows.subrange(from, from) =~= Seq::<SlotRecord>::empty());
                        assert(keys_of(rows.subrange(from, from)) =~= Seq::<StorageKey>::empty());
                        assert(self.machine@.collected =~= Seq::<StorageKey>::empty());
                        assert(gathering(rows, owner, from, from, self.machine@.collected));
                    }
                },
                Step::ReadSlot => {
                    if self.cursor < self.state.slots().len() {
                        self.cursor = self.cursor + 1;
                    }
                },
                Step::ReadAccount => {
                    return None;
                },
            }
            let ghost before = self.machine@;
            let ghost owner = before.state->Load_0;
            let reply = self.row_at_cursor();
            step = self.machine.step(SourceEvent::Slot(reply));
            proof {
                self.machine.lemma_wf();
                let upto = self.cursor as int;
                assert(gathering(rows, owner, from, upto, before.collected));
                if reply is Some && reply->0.address == owner {
                    let row = reply->0;
                    assert(rows.subrange(from, upto + 1) == rows.subrange(from, upto).push(row));
                    assert(keys_of(rows.subrange(from, upto).push(row)) =~= keys_of(
                        rows.subrange(from, upto),
                    ).push(row.key));
                } else {
                    lemma_rows_stand_together(rows, owner, from, upto);
                    let loaded = Eip7748View {
                        state: HashedState::Slots(owner),
                        ordered: before.ordered,
                        next: before.next,
                        collected: Seq::empty(),
                        buffer: keys_by_hash(before.collected),
                        buffer_next: 0,
                    };
                    assert(loaded.buffer == keys_by_hash(keys_of(rows_of(rows, owner))));
                    assert(loaded.buffer.skip(0) == loaded.buffer);
                    lemma_key_items_unfold(owner, loaded.buffer, 0);
                    lemma_order_unfolds(before.ordered, before.next as int, rows);
                }
            }
        }
    }
}

} // verus!
