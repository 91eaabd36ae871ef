use preimages::codec::{generate, verify, VerifyError};
use preimages::frequency::{storage_slot_freq, FrequencyError};
use preimages::iterators::{collect_items, PreimageIterator, Replay, SourceError};
use preimages::types::AccountStorageItem;

fn failure() -> SourceError {
    SourceError { message: String::from("cursor failed") }
}

fn two_items() -> Vec<AccountStorageItem> {
    vec![
        AccountStorageItem::Account([1; 20]),
        AccountStorageItem::StorageSlot([1; 20], [2; 32]),
    ]
}

/// Two items, a failure, and an item that is never reached.
fn failing() -> Replay {
    let mut entries: Vec<Result<AccountStorageItem, SourceError>> =
        two_items().into_iter().map(Ok).collect();
    entries.push(Err(failure()));
    entries.push(Ok(AccountStorageItem::Account([3; 20])));
    Replay::new(entries)
}

#[test]
fn replay_hands_out_items_then_the_failure_then_nothing() {
    let mut it = failing();
    assert_eq!(it.advance(), Some(Ok(two_items()[0])));
    assert_eq!(it.advance(), Some(Ok(two_items()[1])));
    assert_eq!(it.advance(), Some(Err(failure())));
    assert_eq!(it.advance(), None);
    assert_eq!(it.advance(), None);
}

#[test]
fn replay_without_failure_hands_out_everything() {
    let mut it = Replay::new(two_items().into_iter().map(Ok).collect());
    assert_eq!(collect_items(&mut it), Ok(two_items()));
    assert_eq!(it.advance(), None);
    assert_eq!(collect_items(&mut Replay::new(vec![])), Ok(vec![]));
}

#[test]
fn generate_stops_at_a_failure_and_keeps_what_was_written() {
    let mut out = Vec::new();
    assert_eq!(generate(&mut failing(), &mut out), Err(failure()));
    let mut expected = vec![1u8; 20];
    expected.extend_from_slice(&[2u8; 32]);
    assert_eq!(out, expected);
}

#[test]
fn verify_passes_a_failure_on() {
    let mut bytes = vec![1u8; 20];
    bytes.extend_from_slice(&[2u8; 32]);
    assert_eq!(verify(&mut failing(), &bytes), Err(VerifyError::Source(failure())));
}

#[test]
fn verify_reports_a_mismatch_before_a_later_failure() {
    let bytes = vec![9u8; 52];
    match verify(&mut failing(), &bytes) {
        Err(VerifyError::FormatMismatch(m)) => assert_eq!(m.index, 0),
        other => panic!("wrong result: {:?}", other),
    }
}

#[test]
fn collect_passes_a_failure_on() {
    assert_eq!(collect_items(&mut failing()), Err(failure()));
}

#[test]
fn analysis_passes_a_failure_on() {
    assert_eq!(
        storage_slot_freq(&mut failing(), 29, 10, 10),
        Err(FrequencyError::Source(failure()))
    );
}
