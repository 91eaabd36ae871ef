use preimages::frequency::{
    storage_slot_freq, FrequencyError, FrequencyReport, FrequencyRow, FrequencyTable,
};
use preimages::plain::PlainTraversal;
use preimages::source::{AccountRecord, SlotRecord, StateSnapshot};
use preimages::types::{ConfigurationError, StorageKey};

fn key(prefix: u8, tail: u8) -> StorageKey {
    let mut k = [prefix; 32];
    k[31] = tail;
    k
}

fn row(prefix: Vec<u8>, count: u32, footprint: u64, cumulative: u128) -> FrequencyRow {
    FrequencyRow { prefix, count, footprint, cumulative_footprint: cumulative }
}

fn table(prefix_len: usize, ceiling: usize, keys: &[StorageKey]) -> FrequencyTable {
    let mut t = FrequencyTable::new(prefix_len, ceiling).unwrap();
    for k in keys {
        t.record(k).unwrap();
    }
    t
}

#[test]
fn new_table_is_empty() {
    let t = FrequencyTable::new(29, 10).unwrap();
    assert_eq!(t.len(), 0);
    assert_eq!(t.total(), 0);
    assert_eq!(t.top_k(5), vec![]);
}

#[test]
fn prefix_longer_than_a_key_is_refused() {
    assert_eq!(FrequencyTable::new(33, 10).err(), Some(ConfigurationError::PrefixTooLong));
    assert!(FrequencyTable::new(32, 10).is_ok());
    assert!(FrequencyTable::new(0, 10).is_ok());
}

#[test]
fn record_counts_by_prefix() {
    let t = table(31, 100, &[key(1, 0), key(1, 1), key(2, 0), key(1, 2)]);
    assert_eq!(t.len(), 2);
    assert_eq!(t.total(), 4);
    assert_eq!(
        t.top_k(10),
        vec![row(vec![1; 31], 3, 93, 93), row(vec![2; 31], 1, 31, 124)]
    );
}

#[test]
fn whole_keys_as_prefixes() {
    let t = table(32, 100, &[key(1, 0), key(1, 1), key(1, 0)]);
    assert_eq!(t.len(), 2);
    let rows = t.top_k(1);
    assert_eq!(rows, vec![row(key(1, 0).to_vec(), 2, 64, 64)]);
}

#[test]
fn empty_prefix_counts_every_slot() {
    let t = table(0, 100, &[key(1, 0), key(2, 1), key(3, 0)]);
    assert_eq!(t.len(), 1);
    assert_eq!(t.top_k(3), vec![row(vec![], 3, 0, 0)]);
}

#[test]
fn prefix_seen_five_times_is_the_top_one() {
    let mut keys = Vec::new();
    for tail in 0..5 {
        keys.push(key(7, tail));
    }
    for p in 10..20 {
        keys.push(key(p, 0));
        keys.push(key(p, 1));
    }
    let mut t = table(31, 1000, &keys);
    t.prune();
    assert_eq!(t.top_k(1), vec![row(vec![7; 31], 5, 155, 155)]);
}

#[test]
fn prune_drops_what_occurred_once() {
    let mut t = table(31, 100, &[key(1, 0), key(2, 0), key(1, 1), key(3, 0), key(3, 1), key(3, 2)]);
    assert_eq!(t.len(), 3);
    t.prune();
    assert_eq!(t.len(), 2);
    assert_eq!(t.total(), 6);
    assert_eq!(
        t.top_k(10),
        vec![row(vec![3; 31], 3, 93, 93), row(vec![1; 31], 2, 62, 155)]
    );
}

#[test]
fn table_is_pruned_above_its_ceiling() {
    let mut t = FrequencyTable::new(31, 2).unwrap();
    t.record(&key(1, 0)).unwrap();
    t.record(&key(1, 1)).unwrap();
    t.record(&key(2, 0)).unwrap();
    assert_eq!(t.len(), 2);
    // a third prefix exceeds the ceiling: the prefixes seen once leave
    t.record(&key(3, 0)).unwrap();
    assert_eq!(t.len(), 1);
    assert_eq!(t.total(), 4);
    assert_eq!(t.top_k(5), vec![row(vec![1; 31], 2, 62, 62)]);
}

#[test]
fn pruning_forgets_first_occurrences() {
    let mut t = FrequencyTable::new(31, 1).unwrap();
    t.record(&key(1, 0)).unwrap();
    t.record(&key(2, 0)).unwrap();
    assert_eq!(t.len(), 0);
    t.record(&key(2, 1)).unwrap();
    assert_eq!(t.top_k(5), vec![row(vec![2; 31], 1, 31, 31)]);
}

#[test]
fn ceiling_of_zero_keeps_only_repeats() {
    let mut t = FrequencyTable::new(31, 0).unwrap();
    t.record(&key(1, 0)).unwrap();
    assert_eq!(t.len(), 0);
    t.record(&key(1, 1)).unwrap();
    assert_eq!(t.len(), 0);
}

#[test]
fn top_k_is_bounded_and_descending() {
    let mut keys = Vec::new();
    for p in 1..=6u8 {
        for tail in 0..p {
            keys.push(key(p, tail));
        }
    }
    let t = table(31, 100, &keys);
    let rows = t.top_k(3);
    assert_eq!(
        rows,
        vec![
            row(vec![6; 31], 6, 186, 186),
            row(vec![5; 31], 5, 155, 341),
            row(vec![4; 31], 4, 124, 465),
        ]
    );
    assert_eq!(t.top_k(0), vec![]);
    assert_eq!(t.top_k(100).len(), 6);
    let all = t.top_k(6);
    for pair in all.windows(2) {
        assert!(pair[0].count >= pair[1].count);
    }
}

#[test]
fn top_k_with_ascending_input() {
    let mut keys = Vec::new();
    for p in (1..=6u8).rev() {
        for tail in 0..p {
            keys.push(key(p, tail));
        }
    }
    let t = table(31, 100, &keys);
    let counts: Vec<u32> = t.top_k(4).iter().map(|r| r.count).collect();
    assert_eq!(counts, vec![6, 5, 4, 3]);
}

#[test]
fn top_k_of_many_prefixes() {
    // prefix p occurs (p * 7) % 31 + 1 times: counts between 1 and 31
    let mut keys = Vec::new();
    let mut expected: Vec<u32> = Vec::new();
    for p in 0..200u8 {
        let times = (p as u32 * 7) % 31 + 1;
        expected.push(times);
        for tail in 0..times {
            keys.push(key(p, tail as u8));
        }
    }
    expected.sort();
    expected.reverse();
    let t = table(31, 1000, &keys);
    let rows = t.top_k(25);
    let counts: Vec<u32> = rows.iter().map(|r| r.count).collect();
    assert_eq!(counts, expected[..25].to_vec());
    let mut cumulative = 0u128;
    for r in &rows {
        assert_eq!(r.footprint, r.count as u64 * 31);
        cumulative += r.footprint as u128;
        assert_eq!(r.cumulative_footprint, cumulative);
        assert_eq!(r.prefix.len(), 31);
        assert_eq!((r.prefix[0] as u32 * 7) % 31 + 1, r.count);
    }
    let mut prefixes: Vec<&Vec<u8>> = rows.iter().map(|r| &r.prefix).collect();
    prefixes.sort();
    prefixes.dedup();
    assert_eq!(prefixes.len(), 25);
}

#[test]
fn many_prefixes_are_found_again() {
    let mut t = FrequencyTable::new(4, 1_000_000).unwrap();
    let mut k = [0u8; 32];
    for round in 0..3u32 {
        for i in 0..20_000u32 {
            k[..4].copy_from_slice(&i.to_be_bytes());
            k[31] = round as u8;
            t.record(&k).unwrap();
        }
        assert_eq!(t.len(), 20_000);
    }
    assert_eq!(t.total(), 60_000);
    let rows = t.top_k(20_000);
    assert_eq!(rows.len(), 20_000);
    assert!(rows.iter().all(|r| r.count == 3 && r.footprint == 12));
    t.prune();
    assert_eq!(t.len(), 20_000);
    k[..4].copy_from_slice(&7u32.to_be_bytes());
    t.record(&k).unwrap();
    assert_eq!(t.top_k(1), vec![row(7u32.to_be_bytes().to_vec(), 4, 16, 16)]);
}

#[test]
fn prefixes_are_found_again_after_pruning() {
    let mut t = FrequencyTable::new(31, 3).unwrap();
    for p in [1u8, 2, 2, 3] {
        t.record(&key(p, 0)).unwrap();
    }
    assert_eq!(t.len(), 3);
    // the fourth prefix exceeds the ceiling: only prefix 2 stays
    t.record(&key(4, 0)).unwrap();
    assert_eq!(t.len(), 1);
    t.record(&key(2, 9)).unwrap();
    t.record(&key(4, 1)).unwrap();
    assert_eq!(t.len(), 2);
    assert_eq!(
        t.top_k(5),
        vec![row(vec![2; 31], 3, 93, 93), row(vec![4; 31], 1, 31, 124)]
    );
}

#[test]
fn analysis_over_a_traversal() {
    let state = StateSnapshot::new(
        vec![
            AccountRecord { address: [1; 20], code_len: 0 },
            AccountRecord { address: [2; 20], code_len: 0 },
        ],
        vec![
            SlotRecord { address: [1; 20], key: key(5, 0) },
            SlotRecord { address: [1; 20], key: key(5, 1) },
            SlotRecord { address: [1; 20], key: key(6, 0) },
            SlotRecord { address: [2; 20], key: key(5, 0) },
            SlotRecord { address: [2; 20], key: key(9, 0) },
            SlotRecord { address: [2; 20], key: key(9, 1) },
        ],
    )
    .unwrap();
    let report = storage_slot_freq(&mut PlainTraversal::new(&state), 29, 1000, 10).unwrap();
    assert_eq!(
        report,
        FrequencyReport {
            total_slots: 6,
            rows: vec![row(vec![5; 29], 3, 87, 87), row(vec![9; 29], 2, 58, 145)],
        }
    );
}

#[test]
fn analysis_refuses_a_long_prefix() {
    let state = StateSnapshot::new(vec![], vec![]).unwrap();
    assert_eq!(
        storage_slot_freq(&mut PlainTraversal::new(&state), 40, 1000, 10),
        Err(FrequencyError::Configuration(ConfigurationError::PrefixTooLong))
    );
}

#[test]
fn analysis_of_an_empty_state() {
    let state = StateSnapshot::new(vec![], vec![]).unwrap();
    assert_eq!(
        storage_slot_freq(&mut PlainTraversal::new(&state), 29, 1000, 10),
        Ok(FrequencyReport { total_slots: 0, rows: vec![] })
    );
}
