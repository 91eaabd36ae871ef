//! The choice between the orderings of a traversal.

use crate::bytes::{be_value, lemma_lex_lt_is_numeric};
use crate::codec::{encode_items, lemma_round_trip, replay_outcome_is};
use crate::eip7748::{account_items, hash_sorted_order, hashed_order_from, HashSortedTraversal};
use crate::hashing::addresses_by_hash;
use crate::iterators::collect_items;
use crate::plain::{plain_order, slot_items, PlainTraversal};
use crate::source::{
    addresses_of, lemma_owned_run_bound, owned_run, row_lt, rows_ascending, AccountRecord,
    SlotRecord, StateSnapshot,
};
use crate::types::{AccountStorageItem, Address};
use vstd::pervasive::unreached;
use vstd::prelude::*;

verus! {

/// The order in which a traversal visits the state.
#[derive(Clone, Copy, Debug, PartialEq, Eq, Structural)]
pub enum OrderingPolicy {
    /// The order of the tables.
    Plain,
    /// The order of the hashes of addresses and keys.
    HashSorted,
}

/// The ordering that two switches ask for: the plain one where the first is
/// set, the hash-sorted one where only the second is set, none where
/// neither is.
pub fn select_ordering(plain: bool, hash_ordered: bool) -> (r: Option<OrderingPolicy>)
    ensures
        r == if plain {
            Some(OrderingPolicy::Plain)
        } else if hash_ordered {
            Some(OrderingPolicy::HashSorted)
        } else {
            None::<OrderingPolicy>
        },
{
    if plain {
        Some(OrderingPolicy::Plain)
    } else if hash_ordered {
        Some(OrderingPolicy::HashSorted)
    } else {
        None
    }
}

/// The sequence of items that the traversal of a state yields under
/// `policy`.
pub open spec fn traversal_order(
    policy: OrderingPolicy,
    accounts: Seq<AccountRecord>,
    slots: Seq<SlotRecord>,
) -> Seq<AccountStorageItem> {
    match policy {
        OrderingPolicy::Plain => plain_order(addresses_of(accounts), slots),
        OrderingPolicy::HashSorted => hash_sorted_order(addresses_of(accounts), slots),
    }
}

/// The items of the state `state` in the order of `policy`.
pub fn traverse(state: &StateSnapshot, policy: OrderingPolicy) -> (r: Vec<AccountStorageItem>)
    requires
        state.wf(),
    ensures
        r@ == traversal_order(policy, state.account_rows(), state.slot_rows()),
{
    let collected = match policy {
        OrderingPolicy::Plain => {
            let mut it = PlainTraversal::new(state);
            collect_items(&mut it)
        },
        OrderingPolicy::HashSorted => {
            let mut it = HashSortedTraversal::new(state);
            collect_items(&mut it)
        },
    };
    match collected {
        Ok(items) => items,
        Err(_) => unreached(),
    }
}

/// The stream generated from a state under an ordering is confirmed when
/// the same state is replayed against it under the same ordering.
pub proof fn lemma_policy_round_trip(
    policy: OrderingPolicy,
    accounts: Seq<AccountRecord>,
    slots: Seq<SlotRecord>,
)
    ensures
        replay_outcome_is(
            Ok(()),
            traversal_order(policy, accounts, slots),
            None,
            encode_items(traversal_order(policy, accounts, slots)),
        ),
{
    let items = traversal_order(policy, accounts, slots);
    lemma_round_trip(items, Seq::empty());
    assert(encode_items(items) + Seq::<u8>::empty() == encode_items(items));
}

/// The item at `i` belongs to the account `owner`: it is the account's own
/// item or one of its storage slots.
pub open spec fn belongs_to(items: Seq<AccountStorageItem>, i: int, owner: Address) -> bool {
    match items[i] {
        AccountStorageItem::Account(address) => address == owner,
        AccountStorageItem::StorageSlot(address, _) => address == owner,
    }
}

/// Every storage slot follows the item of its account, with nothing but
/// storage slots of that account between them.
pub open spec fn grouped_by_account(items: Seq<AccountStorageItem>) -> bool {
    forall|i: int|
        0 <= i < items.len() && (#[trigger] items[i]) is StorageSlot ==> i > 0 && belongs_to(
            items,
            i - 1,
            items[i]->StorageSlot_0,
        )
}

/// The sequence is empty or starts with the item of an account.
pub open spec fn starts_with_account(items: Seq<AccountStorageItem>) -> bool {
    items.len() > 0 ==> items[0] is Account
}

/// An account's item, storage slots of that account, and a grouped
/// sequence that starts with an account form a grouped sequence.
proof fn lemma_block_grouped(
    owner: Address,
    own: Seq<AccountStorageItem>,
    rest: Seq<AccountStorageItem>,
)
    requires
        forall|i: int|
            0 <= i < own.len() ==> (#[trigger] own[i]) is StorageSlot && own[i]->StorageSlot_0
                == owner,
        grouped_by_account(rest),
        starts_with_account(rest),
    ensures
        grouped_by_account(seq![AccountStorageItem::Account(owner)] + own + rest),
        starts_with_account(seq![AccountStorageItem::Account(owner)] + own + rest),
{
    let items = seq![AccountStorageItem::Account(owner)] + own + rest;
    assert forall|i: int| 0 <= i < items.len() && (#[trigger] items[i]) is StorageSlot implies i > 0
        && belongs_to(items, i - 1, items[i]->StorageSlot_0) by {
        if i <= own.len() {
            assert(items[i] == own[i - 1]);
            if i > 1 {
                assert(items[i - 1] == own[i - 2]);
            }
        } else {
            let j = i - 1 - own.len();
            assert(items[i] == rest[j]);
            assert(j > 0);
            assert(items[i - 1] == rest[j - 1]);
        }
    }
}

/// In the plain order every storage slot follows the item of its account,
/// with nothing but storage slots of that account between them.
pub proof fn lemma_plain_order_grouped(accounts: Seq<Address>, slots: Seq<SlotRecord>)
    ensures
        grouped_by_account(plain_order(accounts, slots)),
        starts_with_account(plain_order(accounts, slots)),
    decreases accounts.len(),
{
    if accounts.len() > 0 {
        let run = owned_run(slots, accounts[0]) as int;
        lemma_owned_run_bound(slots, accounts[0]);
        lemma_plain_order_grouped(accounts.skip(1), slots.skip(run));
        let own = slot_items(slots.take(run));
        assert forall|i: int| 0 <= i < own.len() implies (#[trigger] own[i]) is StorageSlot
            && own[i]->StorageSlot_0 == accounts[0] by {
            assert(slots.take(run)[i] == slots[i]);
        }
        lemma_block_grouped(accounts[0], own, plain_order(accounts.skip(1), slots.skip(run)));
    }
}

/// In the hash-sorted order every storage slot follows the item of its
/// account, with nothing but storage slots of that account between them.
pub proof fn lemma_hashed_order_grouped(addresses: Seq<Address>, slots: Seq<SlotRecord>)
    ensures
        grouped_by_account(hashed_order_from(addresses, slots)),
        starts_with_account(hashed_order_from(addresses, slots)),
    decreases addresses.len(),
{
    if addresses.len() > 0 {
        lemma_hashed_order_grouped(addresses.skip(1), slots);
        lemma_block_grouped(
            addresses[0],
            account_items(slots, addresses[0]),
            hashed_order_from(addresses.skip(1), slots),
        );
    }
}

/// Under either ordering every storage slot of a traversal follows the item
/// of its account, with nothing but storage slots of that account between
/// them.
pub proof fn lemma_traversal_grouped(
    policy: OrderingPolicy,
    accounts: Seq<AccountRecord>,
    slots: Seq<SlotRecord>,
)
    ensures
        grouped_by_account(traversal_order(policy, accounts, slots)),
{
    match policy {
        OrderingPolicy::Plain => lemma_plain_order_grouped(addresses_of(accounts), slots),
        OrderingPolicy::HashSorted => lemma_hashed_order_grouped(
            addresses_by_hash(addresses_of(accounts)),
            slots,
        ),
    }
}

/// Each address is lower than the addresses that follow it.
pub open spec fn addresses_ascending(addresses: Seq<Address>) -> bool {
    forall|i: int, j: int|
        0 <= i < j < addresses.len() ==> be_value(addresses[i]@) < be_value(addresses[j]@)
}

/// Every storage row belongs to one of the accounts.
pub open spec fn rows_have_accounts(addresses: Seq<Address>, slots: Seq<SlotRecord>) -> bool {
    forall|i: int| 0 <= i < slots.len() ==> addresses.contains((#[trigger] slots[i]).address)
}

/// Where both tables ascend and every storage row belongs to an account,
/// the plain order holds every account and every storage row: it is as
/// long as the two tables together.
pub proof fn lemma_plain_order_complete(addresses: Seq<Address>, slots: Seq<SlotRecord>)
    requires
        addresses_ascending(addresses),
        rows_ascending(slots),
        rows_have_accounts(addresses, slots),
    ensures
        plain_order(addresses, slots).len() == addresses.len() + slots.len(),
    decreases addresses.len(),
{
    if addresses.len() == 0 {
        if slots.len() > 0 {
            assert(addresses.contains(slots[0].address));
        }
    } else {
        let first = addresses[0];
        let run = owned_run(slots, first) as int;
        let later = addresses.skip(1);
        let rest = slots.skip(run);
        lemma_owned_run_bound(slots, first);
        assert(addresses_ascending(later)) by {
            assert forall|i: int, j: int| 0 <= i < j < later.len() implies be_value(later[i]@)
                < be_value(later[j]@) by {
                assert(later[i] == addresses[i + 1] && later[j] == addresses[j + 1]);
            }
        }
        assert(rows_ascending(rest)) by {
            assert forall|i: int, j: int| 0 <= i < j < rest.len() implies row_lt(
                rest[i],
                rest[j],
            ) by {
                assert(rest[i] == slots[run + i] && rest[j] == slots[run + j]);
            }
        }
        assert forall|i: int| 0 <= i < rest.len() implies later.contains(
            (#[trigger] rest[i]).address,
        ) by {
            let row = rest[i];
            assert(row == slots[run + i]);
            assert(addresses.contains(slots[run + i].address));
            let c = choose|c: int| 0 <= c < addresses.len() && addresses[c] == row.address;
            if c == 0 {
                // the row belongs to the first account but stands behind its run
                let stop = slots[run];
                assert(stop.address != first);
                assert(addresses.contains(stop.address));
                let d = choose|d: int| 0 <= d < addresses.len() && addresses[d] == stop.address;
                assert(d > 0);
                assert(be_value(addresses[0]@) < be_value(addresses[d]@));
                if i > 0 {
                    assert(row_lt(slots[run], slots[run + i]));
                }
                lemma_lex_lt_is_numeric(row.address@, first@);
            } else {
                assert(later[c - 1] == row.address);
            }
        }
        lemma_plain_order_complete(later, rest);
    }
}

} // verus!
