use preimages::codec::{
    check_record, encode, generate, record_len, verify, verify_items, write_record,
    RecordMismatch, RecordMissing, VerifyError,
};
use preimages::plain::PlainTraversal;
use preimages::source::{AccountRecord, SlotRecord, StateSnapshot};
use preimages::types::AccountStorageItem;

fn addr(b: u8) -> [u8; 20] {
    [b; 20]
}

fn key(b: u8) -> [u8; 32] {
    [b; 32]
}

fn sample_items() -> Vec<AccountStorageItem> {
    vec![
        AccountStorageItem::Account(addr(1)),
        AccountStorageItem::StorageSlot(addr(1), key(10)),
        AccountStorageItem::StorageSlot(addr(1), key(11)),
        AccountStorageItem::Account(addr(2)),
        AccountStorageItem::Account(addr(3)),
        AccountStorageItem::StorageSlot(addr(3), key(12)),
    ]
}

fn sample_state() -> StateSnapshot {
    StateSnapshot::new(
        vec![
            AccountRecord { address: addr(1), code_len: 0 },
            AccountRecord { address: addr(2), code_len: 5 },
            AccountRecord { address: addr(3), code_len: 0 },
        ],
        vec![
            SlotRecord { address: addr(1), key: key(10) },
            SlotRecord { address: addr(1), key: key(11) },
            SlotRecord { address: addr(3), key: key(12) },
        ],
    )
    .unwrap()
}

#[test]
fn record_lengths() {
    assert_eq!(record_len(&AccountStorageItem::Account(addr(0))), 20);
    assert_eq!(record_len(&AccountStorageItem::StorageSlot(addr(0), key(0))), 32);
}

#[test]
fn write_record_appends_raw_bytes() {
    let mut out = vec![0xaa];
    write_record(&AccountStorageItem::Account(addr(5)), &mut out);
    write_record(&AccountStorageItem::StorageSlot(addr(5), key(6)), &mut out);
    let mut expected = vec![0xaa];
    expected.extend_from_slice(&[5u8; 20]);
    expected.extend_from_slice(&[6u8; 32]);
    assert_eq!(out, expected);
}

#[test]
fn encode_is_a_flat_concatenation() {
    let bytes = encode(&sample_items());
    assert_eq!(bytes.len(), 3 * 20 + 3 * 32);
    assert_eq!(&bytes[0..20], &[1u8; 20]);
    assert_eq!(&bytes[20..52], &[10u8; 32]);
    assert_eq!(&bytes[52..84], &[11u8; 32]);
    assert_eq!(&bytes[84..104], &[2u8; 20]);
    assert_eq!(&bytes[104..124], &[3u8; 20]);
    assert_eq!(&bytes[124..156], &[12u8; 32]);
}

#[test]
fn encode_of_nothing_is_empty() {
    assert_eq!(encode(&[]), Vec::<u8>::new());
    assert_eq!(verify_items(&[], &[]), Ok(()));
    assert_eq!(verify_items(&[], &[1, 2, 3]), Ok(()));
}

#[test]
fn generate_writes_the_traversal() {
    let state = sample_state();
    let mut out = Vec::new();
    let mut it = PlainTraversal::new(&state);
    assert_eq!(generate(&mut it, &mut out), Ok(()));
    assert_eq!(out, encode(&sample_items()));
}

#[test]
fn generate_appends_to_what_is_there() {
    let state = sample_state();
    let mut out = vec![9u8, 9];
    let mut it = PlainTraversal::new(&state);
    generate(&mut it, &mut out).unwrap();
    assert_eq!(&out[..2], &[9u8, 9]);
    assert_eq!(&out[2..], &encode(&sample_items())[..]);
}

#[test]
fn round_trip_of_a_traversal() {
    let state = sample_state();
    let mut out = Vec::new();
    generate(&mut PlainTraversal::new(&state), &mut out).unwrap();
    assert_eq!(verify(&mut PlainTraversal::new(&state), &out), Ok(()));
}

#[test]
fn round_trip_of_items() {
    let items = sample_items();
    assert_eq!(verify_items(&items, &encode(&items)), Ok(()));
}

#[test]
fn trailing_bytes_are_not_looked_at() {
    let items = sample_items();
    let mut bytes = encode(&items);
    bytes.extend_from_slice(&[0xff; 7]);
    assert_eq!(verify_items(&items, &bytes), Ok(()));
}

#[test]
fn flipped_byte_in_third_record_is_a_format_mismatch() {
    let items = sample_items();
    let mut bytes = encode(&items);
    // the third record is the slot key at bytes 52..84
    bytes[60] ^= 0x01;
    let mut found = key(11);
    found[8] ^= 0x01;
    let expected = VerifyError::FormatMismatch(RecordMismatch {
        index: 2,
        offset: 52,
        expected: AccountStorageItem::StorageSlot(addr(1), key(11)),
        found: AccountStorageItem::StorageSlot(addr(1), found),
    });
    assert_eq!(verify_items(&items, &bytes), Err(expected.clone()));
    let state = sample_state();
    assert_eq!(verify(&mut PlainTraversal::new(&state), &bytes), Err(expected));
}

#[test]
fn flipped_byte_in_an_address_names_the_address_found() {
    let items = sample_items();
    let mut bytes = encode(&items);
    bytes[84] = 0x77;
    let mut found = addr(2);
    found[0] = 0x77;
    assert_eq!(
        verify_items(&items, &bytes),
        Err(VerifyError::FormatMismatch(RecordMismatch {
            index: 3,
            offset: 84,
            expected: AccountStorageItem::Account(addr(2)),
            found: AccountStorageItem::Account(found),
        }))
    );
}

#[test]
fn only_the_first_mismatch_is_reported() {
    let items = sample_items();
    let mut bytes = encode(&items);
    bytes[0] = 0;
    bytes[155] = 0;
    match verify_items(&items, &bytes) {
        Err(VerifyError::FormatMismatch(m)) => {
            assert_eq!(m.index, 0);
            assert_eq!(m.offset, 0);
        }
        other => panic!("unexpected outcome: {:?}", other),
    }
}

#[test]
fn short_stream_is_an_unexpected_end() {
    let items = sample_items();
    let bytes = encode(&items);
    assert_eq!(
        verify_items(&items, &bytes[..155]),
        Err(VerifyError::UnexpectedEnd(RecordMissing {
            index: 5,
            offset: 124,
            expected: AccountStorageItem::StorageSlot(addr(3), key(12)),
        }))
    );
    assert_eq!(
        verify_items(&items, &[]),
        Err(VerifyError::UnexpectedEnd(RecordMissing {
            index: 0,
            offset: 0,
            expected: AccountStorageItem::Account(addr(1)),
        }))
    );
}

#[test]
fn check_record_compares_byte_for_byte() {
    let item = AccountStorageItem::Account(addr(4));
    assert_eq!(check_record(&item, &[4u8; 20], 0, 0), Ok(()));
    let mut other = [4u8; 20];
    other[19] = 5;
    assert_eq!(
        check_record(&item, &other, 8, 300),
        Err(RecordMismatch {
            index: 8,
            offset: 300,
            expected: item,
            found: AccountStorageItem::Account(other),
        })
    );
}
