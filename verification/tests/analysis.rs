use alloy_primitives::keccak256;
use preimages::partition::{account_stats, AccountStemStats};
use preimages::progress::{progress_position, progress_value, PROGRESS_SCALE};
use preimages::report::{stem_report, StemReport};
use preimages::source::{AccountRecord, SlotRecord, StateSnapshot};
use preimages::stats::{Stats, StatsError};
use preimages::types::{ConfigurationError, StorageKey};
use preimages::bytes::{bytes_eq, bytes_lt};

fn key(value: u64) -> StorageKey {
    let mut k = [0u8; 32];
    k[24..].copy_from_slice(&value.to_be_bytes());
    k
}

fn sample_state() -> StateSnapshot {
    StateSnapshot::new(
        vec![
            AccountRecord { address: [1; 20], code_len: 0 },
            AccountRecord { address: [2; 20], code_len: 31 },
            AccountRecord { address: [3; 20], code_len: 5000 },
        ],
        vec![
            SlotRecord { address: [2; 20], key: key(0) },
            SlotRecord { address: [3; 20], key: key(1) },
            SlotRecord { address: [3; 20], key: key(64) },
            SlotRecord { address: [3; 20], key: key(65) },
            SlotRecord { address: [3; 20], key: key(1000) },
        ],
    )
    .unwrap()
}

fn record(
    address: u8,
    bytecode_len: usize,
    account_stem: u16,
    ss_stems: Vec<u16>,
    code_stems: usize,
    num_storage_slots: usize,
) -> AccountStemStats {
    AccountStemStats {
        address: [address; 20],
        bytecode_len,
        account_stem,
        ss_stems,
        code_stems,
        num_storage_slots,
    }
}

#[test]
fn account_stats_of_a_state() {
    let stats = account_stats(&sample_state(), 256).unwrap();
    assert_eq!(
        stats,
        vec![
            record(1, 0, 2, vec![], 0, 0),
            record(2, 31, 4, vec![], 0, 1),
            // 5000 bytes: 162 chunks, 128 in the header, 34 outside
            record(3, 5000, 131, vec![2, 1], 1, 4),
        ]
    );
}

#[test]
fn account_stats_checks_the_group_size_first() {
    assert_eq!(
        account_stats(&sample_state(), 100),
        Err(ConfigurationError::GroupSizeNotPowerOfTwo)
    );
    assert_eq!(account_stats(&sample_state(), 64), Err(ConfigurationError::GroupSizeTooSmall));
}

#[test]
fn account_stats_of_an_empty_state() {
    let state = StateSnapshot::new(vec![], vec![]).unwrap();
    assert_eq!(account_stats(&state, 256), Ok(vec![]));
}

#[test]
fn report_of_a_state() {
    let stats = account_stats(&sample_state(), 256).unwrap();
    let report = stem_report(&stats);
    assert_eq!(
        report,
        StemReport {
            eoas: 1,
            contracts: 2,
            total_accounts: 3,
            code_length: Ok(Stats { sum: 5031, average: 2515, median: 5000, p99: 5000, max: 5000 }),
            contract_storage_slots: Ok(Stats { sum: 5, average: 2, median: 4, p99: 4, max: 4 }),
            header_stems: 3,
            storage_slot_stems: 2,
            code_chunk_stems: 1,
            total_stems: 6,
            header_values: Ok(Stats { sum: 137, average: 45, median: 4, p99: 131, max: 131 }),
            storage_values: Ok(Stats { sum: 3, average: 1, median: 2, p99: 2, max: 2 }),
            single_slot_stems: 1,
        }
    );
}

#[test]
fn report_of_no_accounts() {
    let report = stem_report(&vec![]);
    assert_eq!(report.total_accounts, 0);
    assert_eq!(report.eoas, 0);
    assert_eq!(report.contracts, 0);
    assert_eq!(report.total_stems, 0);
    assert_eq!(report.code_length, Err(StatsError::EmptySequence));
    assert_eq!(report.contract_storage_slots, Err(StatsError::EmptySequence));
    assert_eq!(report.header_values, Err(StatsError::EmptySequence));
    assert_eq!(report.storage_values, Err(StatsError::EmptySequence));
    assert_eq!(report.single_slot_stems, 0);
}

#[test]
fn report_without_contracts_fails_only_their_tables() {
    let report = stem_report(&vec![record(1, 0, 2, vec![], 0, 0), record(2, 0, 3, vec![1, 4, 1], 0, 7)]);
    assert_eq!(report.eoas, 2);
    assert_eq!(report.contracts, 0);
    assert_eq!(report.code_length, Err(StatsError::EmptySequence));
    assert_eq!(report.contract_storage_slots, Err(StatsError::EmptySequence));
    assert_eq!(
        report.header_values,
        Ok(Stats { sum: 5, average: 2, median: 3, p99: 3, max: 3 })
    );
    assert_eq!(
        report.storage_values,
        Ok(Stats { sum: 6, average: 2, median: 1, p99: 4, max: 4 })
    );
    assert_eq!(report.storage_slot_stems, 3);
    assert_eq!(report.single_slot_stems, 2);
    assert_eq!(report.total_stems, 5);
}

#[test]
fn progress_position_reads_two_bytes() {
    let mut address = [0u8; 20];
    address[0] = 0x12;
    address[1] = 0x34;
    assert_eq!(progress_position(&address, false), 0x1234);
    assert_eq!(progress_position(&[0xff; 20], false), 0xffff);
    assert_eq!(progress_position(&[0; 20], false), 0);
    assert_eq!(PROGRESS_SCALE, 65536);
}

#[test]
fn progress_position_by_hash() {
    let address = [0x11u8; 20];
    let hash = keccak256(address).0;
    assert_eq!(
        progress_position(&address, true),
        (hash[0] as u64) << 8 | hash[1] as u64
    );
    assert_eq!(progress_value(&address, true), hash.to_vec());
    assert_eq!(progress_value(&address, false), address.to_vec());
    assert_ne!(progress_value(&address, true), progress_value(&address, false));
}

#[test]
fn byte_orders() {
    assert!(bytes_eq(&[1, 2, 3], &[1, 2, 3]));
    assert!(!bytes_eq(&[1, 2, 3], &[1, 2, 4]));
    assert!(!bytes_eq(&[1, 2, 3], &[1, 2]));
    assert!(bytes_eq(&[], &[]));
    assert!(bytes_lt(&[0, 9], &[1, 0]));
    assert!(!bytes_lt(&[1, 0], &[0, 9]));
    assert!(!bytes_lt(&[5, 5], &[5, 5]));
    assert!(bytes_lt(&[5, 5], &[5, 6]));
    assert!(!bytes_lt(&[], &[]));
    assert!(bytes_lt(&[], &[0]));
    assert!(bytes_lt(&[5], &[5, 0]));
    assert!(!bytes_lt(&[5, 0], &[5]));
    assert!(bytes_lt(&[4, 9, 9], &[5]));
    assert!(!bytes_lt(&[6], &[5, 9]));
}
