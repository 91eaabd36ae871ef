use alloy_primitives::keccak256;
use preimages::codec::{encode, generate, verify};
use preimages::eip7748::{Eip7748Iterator, HashSortedTraversal};
use preimages::hashing::{hash_bytes, order_addresses, order_keys, sort_by_hash};
use preimages::iterators::{collect_items, PreimageIterator};
use preimages::ordering::{select_ordering, traverse, OrderingPolicy};
use preimages::plain::{PlainIterator, PlainState, PlainTraversal, SourceEvent, Step};
use preimages::source::{AccountRecord, SlotRecord, SnapshotError, StateSnapshot};
use preimages::types::{AccountStorageItem, Address, StorageKey};

fn addr(b: u8) -> Address {
    let mut a = [0u8; 20];
    a[19] = b;
    a
}

fn key(b: u8) -> StorageKey {
    let mut k = [0u8; 32];
    k[31] = b;
    k
}

fn account(b: u8) -> AccountRecord {
    AccountRecord { address: addr(b), code_len: 0 }
}

fn slot(a: u8, k: u8) -> SlotRecord {
    SlotRecord { address: addr(a), key: key(k) }
}

fn state(accounts: &[u8], slots: &[(u8, u8)]) -> StateSnapshot {
    StateSnapshot::new(
        accounts.iter().map(|a| account(*a)).collect(),
        slots.iter().map(|(a, k)| slot(*a, *k)).collect(),
    )
    .unwrap()
}

fn hash_of_address(a: &Address) -> [u8; 32] {
    keccak256(a).0
}

fn hash_of_key(k: &StorageKey) -> [u8; 32] {
    keccak256(k).0
}

fn expected_hash_sorted(accounts: &[u8], slots: &[(u8, u8)]) -> Vec<AccountStorageItem> {
    let mut addresses: Vec<Address> = accounts.iter().map(|a| addr(*a)).collect();
    addresses.sort_by_key(hash_of_address);
    let mut items = Vec::new();
    for a in addresses {
        items.push(AccountStorageItem::Account(a));
        let mut keys: Vec<StorageKey> =
            slots.iter().filter(|(o, _)| addr(*o) == a).map(|(_, k)| key(*k)).collect();
        keys.sort_by_key(hash_of_key);
        for k in keys {
            items.push(AccountStorageItem::StorageSlot(a, k));
        }
    }
    items
}

#[test]
fn snapshot_takes_ascending_tables() {
    let s = state(&[1, 2, 5], &[(1, 0), (1, 9), (2, 3), (5, 1)]);
    assert_eq!(s.accounts().len(), 3);
    assert_eq!(s.slots().len(), 4);
    assert_eq!(s.slots()[2], slot(2, 3));
}

#[test]
fn snapshot_refuses_unordered_accounts() {
    let r = StateSnapshot::new(vec![account(1), account(3), account(2)], vec![]);
    assert_eq!(r, Err(SnapshotError::UnorderedAccounts(2)));
    let r = StateSnapshot::new(vec![account(1), account(1)], vec![]);
    assert_eq!(r, Err(SnapshotError::UnorderedAccounts(1)));
}

#[test]
fn snapshot_refuses_unordered_slots() {
    let r = StateSnapshot::new(vec![account(1)], vec![slot(1, 2), slot(1, 1)]);
    assert_eq!(r, Err(SnapshotError::UnorderedSlots(1)));
    let r = StateSnapshot::new(vec![], vec![slot(1, 2), slot(2, 0), slot(1, 5)]);
    assert_eq!(r, Err(SnapshotError::UnorderedSlots(2)));
    let r = StateSnapshot::new(vec![], vec![slot(1, 2), slot(1, 2)]);
    assert_eq!(r, Err(SnapshotError::UnorderedSlots(1)));
}

#[test]
fn snapshot_names_accounts_before_slots() {
    let r = StateSnapshot::new(vec![account(2), account(1)], vec![slot(1, 2), slot(1, 1)]);
    assert_eq!(r, Err(SnapshotError::UnorderedAccounts(1)));
}

#[test]
fn seek_finds_the_first_row_not_below() {
    let s = state(&[], &[(1, 0), (1, 9), (3, 3), (5, 1)]);
    assert_eq!(s.seek(&addr(0)), 0);
    assert_eq!(s.seek(&addr(1)), 0);
    assert_eq!(s.seek(&addr(2)), 2);
    assert_eq!(s.seek(&addr(3)), 2);
    assert_eq!(s.seek(&addr(4)), 3);
    assert_eq!(s.seek(&addr(5)), 3);
    assert_eq!(s.seek(&addr(6)), 4);
}

#[test]
fn storage_of_gives_the_rows_of_the_account() {
    let s = state(&[], &[(1, 0), (1, 9), (3, 3), (5, 1)]);
    assert_eq!(s.storage_of(&addr(1)), &[slot(1, 0), slot(1, 9)][..]);
    assert_eq!(s.storage_of(&addr(2)), &[][..]);
    assert_eq!(s.storage_of(&addr(3)), &[slot(3, 3)][..]);
    assert_eq!(s.storage_of(&addr(5)), &[slot(5, 1)][..]);
    assert_eq!(s.storage_of(&addr(9)), &[][..]);
}

#[test]
fn plain_traversal_follows_the_tables() {
    let s = state(&[1, 2, 3], &[(1, 5), (1, 6), (3, 0)]);
    let items = collect_items(&mut PlainTraversal::new(&s)).unwrap();
    assert_eq!(
        items,
        vec![
            AccountStorageItem::Account(addr(1)),
            AccountStorageItem::StorageSlot(addr(1), key(5)),
            AccountStorageItem::StorageSlot(addr(1), key(6)),
            AccountStorageItem::Account(addr(2)),
            AccountStorageItem::Account(addr(3)),
            AccountStorageItem::StorageSlot(addr(3), key(0)),
        ]
    );
}

#[test]
fn plain_traversal_of_an_empty_state_is_empty() {
    let s = state(&[], &[]);
    let mut it = PlainTraversal::new(&s);
    assert_eq!(it.advance(), None);
    assert_eq!(it.advance(), None);
}

#[test]
fn plain_traversal_of_accounts_without_slots() {
    let s = state(&[4, 8], &[]);
    let mut it = PlainTraversal::new(&s);
    assert_eq!(it.advance(), Some(Ok(AccountStorageItem::Account(addr(4)))));
    assert_eq!(it.advance(), Some(Ok(AccountStorageItem::Account(addr(8)))));
    assert_eq!(it.advance(), None);
    assert_eq!(it.advance(), None);
}

#[test]
fn plain_traversal_holds_back_rows_of_later_accounts() {
    // the rows of account 2 follow those of an address without account
    let s = state(&[1, 3], &[(1, 1), (2, 7), (3, 9)]);
    let items = collect_items(&mut PlainTraversal::new(&s)).unwrap();
    assert_eq!(
        items,
        vec![
            AccountStorageItem::Account(addr(1)),
            AccountStorageItem::StorageSlot(addr(1), key(1)),
            AccountStorageItem::Account(addr(3)),
        ]
    );
}

#[test]
fn plain_machine_asks_and_emits() {
    let mut m = PlainIterator::new();
    assert_eq!(m.step(SourceEvent::Poll), Step::ReadAccount);
    assert_eq!(
        m.step(SourceEvent::Account(Some(addr(1)))),
        Step::Emit(AccountStorageItem::Account(addr(1)))
    );
    assert_eq!(m.state, PlainState::StorageSlot(addr(1)));
    assert_eq!(m.step(SourceEvent::Poll), Step::ReadSlot);
    assert_eq!(
        m.step(SourceEvent::Slot(Some(slot(1, 4)))),
        Step::Emit(AccountStorageItem::StorageSlot(addr(1), key(4)))
    );
    assert_eq!(m.step(SourceEvent::Poll), Step::ReadSlot);
    // a row of another account is held back and the next account is read
    assert_eq!(m.step(SourceEvent::Slot(Some(slot(2, 0)))), Step::ReadAccount);
    assert_eq!(m.buf_storage_slot, Some(slot(2, 0)));
    assert_eq!(
        m.step(SourceEvent::Account(Some(addr(2)))),
        Step::Emit(AccountStorageItem::Account(addr(2)))
    );
    assert_eq!(
        m.step(SourceEvent::Poll),
        Step::Emit(AccountStorageItem::StorageSlot(addr(2), key(0)))
    );
    assert_eq!(m.step(SourceEvent::Poll), Step::ReadSlot);
    assert_eq!(m.step(SourceEvent::Slot(None)), Step::ReadAccount);
    assert_eq!(m.step(SourceEvent::Account(None)), Step::Done);
    assert_eq!(m.state, PlainState::End);
    assert_eq!(m.step(SourceEvent::Poll), Step::Done);
}

#[test]
fn plain_machine_passes_over_reports_it_did_not_ask_for() {
    let mut m = PlainIterator::new();
    assert_eq!(m.step(SourceEvent::Slot(Some(slot(1, 1)))), Step::ReadAccount);
    assert_eq!(m.buf_storage_slot, None);
    m.step(SourceEvent::Account(Some(addr(1))));
    assert_eq!(m.step(SourceEvent::Account(Some(addr(9)))), Step::ReadSlot);
    assert_eq!(m.state, PlainState::StorageSlot(addr(1)));
}

#[test]
fn plain_machine_ends_on_failure() {
    let mut m = PlainIterator::new();
    m.step(SourceEvent::Poll);
    m.step(SourceEvent::Account(Some(addr(1))));
    assert_eq!(m.step(SourceEvent::Failed), Step::Done);
    assert_eq!(m.step(SourceEvent::Poll), Step::Done);
    assert_eq!(m.state, PlainState::End);
}

#[test]
fn hash_bytes_is_keccak256() {
    assert_eq!(hash_bytes(&[]), keccak256([]).0);
    assert_eq!(hash_bytes(b"abc"), keccak256(b"abc").0);
    assert_eq!(
        hash_bytes(&[]),
        [
            0xc5, 0xd2, 0x46, 0x01, 0x86, 0xf7, 0x23, 0x3c, 0x92, 0x7e, 0x7d, 0xb2, 0xdc, 0xc7,
            0x03, 0xc0, 0xe5, 0x00, 0xb6, 0x53, 0xca, 0x82, 0x27, 0x3b, 0x7b, 0xfa, 0xd8, 0x04,
            0x5d, 0x85, 0xa4, 0x70
        ]
    );
}

#[test]
fn sort_by_hash_is_ascending_and_stable() {
    let low = [0u8; 32];
    let mut mid = [0u8; 32];
    mid[0] = 1;
    let high = [0xffu8; 32];
    let mut entries = vec![(1u8, high), (2, mid), (3, low), (4, mid), (5, low), (6, mid)];
    sort_by_hash(&mut entries);
    assert_eq!(
        entries,
        vec![(3u8, low), (5, low), (2, mid), (4, mid), (6, mid), (1, high)]
    );
}

#[test]
fn sort_by_hash_compares_from_the_first_byte() {
    let mut a = [0u8; 32];
    a[0] = 2;
    let mut b = [0xffu8; 32];
    b[0] = 1;
    let mut entries = vec![((), a), ((), b)];
    sort_by_hash(&mut entries);
    assert_eq!(entries, vec![((), b), ((), a)]);
}

#[test]
fn order_addresses_goes_by_hash() {
    let addresses: Vec<Address> = (0..50u8).map(addr).collect();
    let ordered = order_addresses(&addresses);
    let mut expected = addresses.clone();
    expected.sort_by_key(hash_of_address);
    assert_eq!(ordered, expected);
    assert_ne!(ordered, addresses);
    for pair in ordered.windows(2) {
        assert!(hash_of_address(&pair[0]) < hash_of_address(&pair[1]));
    }
}

#[test]
fn order_keys_goes_by_the_given_hashes() {
    let keys: Vec<StorageKey> = (0..30u8).map(key).collect();
    let entries: Vec<(StorageKey, [u8; 32])> =
        keys.iter().map(|k| (*k, hash_of_key(k))).collect();
    let ordered = order_keys(entries);
    let mut expected = keys.clone();
    expected.sort_by_key(hash_of_key);
    assert_eq!(ordered, expected);
}

#[test]
fn hash_sorted_traversal_goes_by_hash() {
    let accounts = [1u8, 2, 3, 4, 5, 6];
    let slots = [(1u8, 1u8), (1, 2), (1, 3), (1, 4), (3, 0), (3, 200), (6, 7), (6, 8), (6, 9)];
    let s = state(&accounts, &slots);
    let items = collect_items(&mut HashSortedTraversal::new(&s)).unwrap();
    assert_eq!(items, expected_hash_sorted(&accounts, &slots));
    assert_eq!(items.len(), accounts.len() + slots.len());
}

#[test]
fn hash_sorted_traversal_has_ascending_hashes() {
    let accounts: Vec<u8> = (0..40).collect();
    let slots: Vec<(u8, u8)> = (0..40u8).flat_map(|a| (0..(a % 5)).map(move |k| (a, k))).collect();
    let s = state(&accounts, &slots);
    let items = collect_items(&mut HashSortedTraversal::new(&s)).unwrap();
    let mut last_account: Option<[u8; 32]> = None;
    let mut last_slot: Option<[u8; 32]> = None;
    let mut owner: Option<Address> = None;
    for item in items {
        match item {
            AccountStorageItem::Account(a) => {
                let h = hash_of_address(&a);
                if let Some(prev) = last_account {
                    assert!(prev < h);
                }
                last_account = Some(h);
                last_slot = None;
                owner = Some(a);
            }
            AccountStorageItem::StorageSlot(a, k) => {
                assert_eq!(Some(a), owner);
                let h = hash_of_key(&k);
                if let Some(prev) = last_slot {
                    assert!(prev < h);
                }
                last_slot = Some(h);
            }
        }
    }
}

#[test]
fn hash_sorted_traversal_of_an_empty_state_is_empty() {
    let s = state(&[], &[]);
    let mut it = HashSortedTraversal::new(&s);
    assert_eq!(it.advance(), None);
    assert_eq!(it.advance(), None);
}

#[test]
fn hash_sorted_traversal_of_an_account_without_slots() {
    let s = state(&[9], &[(8, 1), (10, 1)]);
    let mut it = HashSortedTraversal::new(&s);
    assert_eq!(it.advance(), Some(Ok(AccountStorageItem::Account(addr(9)))));
    assert_eq!(it.advance(), None);
}

#[test]
fn hash_sorted_machine_gathers_and_orders() {
    let mut m = Eip7748Iterator::new(&[addr(1)]);
    assert_eq!(m.step(SourceEvent::Poll), Step::Emit(AccountStorageItem::Account(addr(1))));
    assert_eq!(m.step(SourceEvent::Poll), Step::SeekSlot(addr(1)));
    assert_eq!(m.step(SourceEvent::Slot(Some(slot(1, 1)))), Step::ReadSlot);
    assert_eq!(m.step(SourceEvent::Slot(Some(slot(1, 2)))), Step::ReadSlot);
    assert_eq!(m.step(SourceEvent::Slot(Some(slot(1, 3)))), Step::ReadSlot);
    let mut keys = vec![key(1), key(2), key(3)];
    keys.sort_by_key(hash_of_key);
    assert_eq!(
        m.step(SourceEvent::Slot(Some(slot(2, 0)))),
        Step::Emit(AccountStorageItem::StorageSlot(addr(1), keys[0]))
    );
    assert_eq!(
        m.step(SourceEvent::Poll),
        Step::Emit(AccountStorageItem::StorageSlot(addr(1), keys[1]))
    );
    assert_eq!(
        m.step(SourceEvent::Poll),
        Step::Emit(AccountStorageItem::StorageSlot(addr(1), keys[2]))
    );
    assert_eq!(m.step(SourceEvent::Poll), Step::Done);
    assert_eq!(m.step(SourceEvent::Poll), Step::Done);
}

#[test]
fn hash_sorted_machine_starts_the_gathering_again() {
    let mut m = Eip7748Iterator::new(&[addr(1)]);
    m.step(SourceEvent::Poll);
    assert_eq!(m.step(SourceEvent::Poll), Step::SeekSlot(addr(1)));
    assert_eq!(m.step(SourceEvent::Slot(Some(slot(1, 1)))), Step::ReadSlot);
    assert_eq!(m.step(SourceEvent::Poll), Step::SeekSlot(addr(1)));
    assert_eq!(m.step(SourceEvent::Slot(Some(slot(1, 1)))), Step::ReadSlot);
    assert_eq!(
        m.step(SourceEvent::Slot(None)),
        Step::Emit(AccountStorageItem::StorageSlot(addr(1), key(1)))
    );
    assert_eq!(m.step(SourceEvent::Poll), Step::Done);
}

#[test]
fn hash_sorted_machine_ends_on_failure() {
    let mut m = Eip7748Iterator::new(&[addr(1), addr(2)]);
    m.step(SourceEvent::Poll);
    m.step(SourceEvent::Poll);
    assert_eq!(m.step(SourceEvent::Failed), Step::Done);
    assert_eq!(m.step(SourceEvent::Poll), Step::Done);
}

#[test]
fn select_ordering_reads_the_switches() {
    assert_eq!(select_ordering(true, false), Some(OrderingPolicy::Plain));
    assert_eq!(select_ordering(true, true), Some(OrderingPolicy::Plain));
    assert_eq!(select_ordering(false, true), Some(OrderingPolicy::HashSorted));
    assert_eq!(select_ordering(false, false), None);
}

#[test]
fn traverse_under_both_orderings() {
    let accounts = [1u8, 2, 3];
    let slots = [(1u8, 5u8), (1, 6), (3, 0)];
    let s = state(&accounts, &slots);
    assert_eq!(
        traverse(&s, OrderingPolicy::Plain),
        collect_items(&mut PlainTraversal::new(&s)).unwrap()
    );
    assert_eq!(traverse(&s, OrderingPolicy::HashSorted), expected_hash_sorted(&accounts, &slots));
}

#[test]
fn round_trip_under_both_orderings() {
    let accounts: Vec<u8> = (0..20).collect();
    let slots: Vec<(u8, u8)> = (0..20u8).flat_map(|a| (0..(a % 4)).map(move |k| (a, k))).collect();
    let s = state(&accounts, &slots);
    let mut plain = Vec::new();
    generate(&mut PlainTraversal::new(&s), &mut plain).unwrap();
    assert_eq!(verify(&mut PlainTraversal::new(&s), &plain), Ok(()));
    let mut hashed = Vec::new();
    generate(&mut HashSortedTraversal::new(&s), &mut hashed).unwrap();
    assert_eq!(verify(&mut HashSortedTraversal::new(&s), &hashed), Ok(()));
    assert_eq!(hashed, encode(&traverse(&s, OrderingPolicy::HashSorted)));
    assert_eq!(plain.len(), hashed.len());
    assert_ne!(plain, hashed);
    assert!(verify(&mut HashSortedTraversal::new(&s), &plain).is_err());
}
