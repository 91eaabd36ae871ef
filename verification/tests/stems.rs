use preimages::partition::{account_stem_stats, AccountStemStats, StemAccumulator, StemError};
use preimages::stems::StemConfig;
use preimages::types::{ConfigurationError, StorageKey};
use preimages::wide::to_b256;

fn key(value: u64) -> StorageKey {
    let mut k = [0u8; 32];
    k[24..].copy_from_slice(&value.to_be_bytes());
    k
}

fn config(group_size: u16) -> StemConfig {
    StemConfig::new(group_size).unwrap()
}

fn stats(group_size: u16, code_len: usize, keys: &[StorageKey]) -> AccountStemStats {
    account_stem_stats(&config(group_size), [7u8; 20], code_len, keys).unwrap()
}

fn total_stems(s: &AccountStemStats) -> usize {
    1 + s.ss_stems.len() + s.code_stems
}

#[test]
fn config_accepts_powers_of_two_from_128() {
    for bits in 7..16u32 {
        let g = 1u16 << bits;
        let c = StemConfig::new(g).unwrap();
        assert_eq!(c.group_size(), g);
        assert_eq!(c.group_size_bits(), bits);
        assert_eq!(c.code_offset(), g / 2);
        assert_eq!(c.header_slot_capacity(), g / 2 - 64);
    }
}

#[test]
fn config_derived_constants_for_256() {
    let c = config(256);
    assert_eq!(c.code_offset(), 128);
    assert_eq!(c.header_slot_capacity(), 64);
    assert_eq!(c.group_size_bits(), 8);
}

#[test]
fn config_rejects_what_is_not_a_power_of_two() {
    for g in [0u16, 3, 100, 255, 257, 300, 65535] {
        assert_eq!(
            StemConfig::new(g).unwrap_err(),
            ConfigurationError::GroupSizeNotPowerOfTwo
        );
    }
}

#[test]
fn config_rejects_small_powers_of_two() {
    for g in [1u16, 2, 4, 8, 16, 32, 64] {
        assert_eq!(
            StemConfig::new(g).unwrap_err(),
            ConfigurationError::GroupSizeTooSmall
        );
    }
}

#[test]
fn to_b256_is_big_endian() {
    let b = to_b256(0x1234);
    assert_eq!(&b[..30], &[0u8; 30]);
    assert_eq!(b[30], 0x12);
    assert_eq!(b[31], 0x34);
    assert_eq!(to_b256(0), [0u8; 32]);
}

#[test]
fn account_without_code_and_slots() {
    let s = stats(256, 0, &[]);
    assert_eq!(s.address, [7u8; 20]);
    assert_eq!(s.bytecode_len, 0);
    assert_eq!(s.account_stem, 2);
    assert_eq!(s.ss_stems, Vec::<u16>::new());
    assert_eq!(s.code_stems, 0);
    assert_eq!(s.num_storage_slots, 0);
    assert_eq!(total_stems(&s), 1);
}

#[test]
fn account_without_code_and_slots_under_every_group_size() {
    for bits in 7..16u32 {
        let s = stats(1u16 << bits, 0, &[]);
        assert_eq!(s.account_stem, 2);
        assert_eq!(total_stems(&s), 1);
    }
}

#[test]
fn header_boundary_is_exclusive() {
    // group size 256: the header holds the slots with keys below 64
    let inside = stats(256, 0, &[key(63)]);
    assert_eq!(inside.account_stem, 3);
    assert_eq!(inside.ss_stems, Vec::<u16>::new());
    let outside = stats(256, 0, &[key(64)]);
    assert_eq!(outside.account_stem, 2);
    assert_eq!(outside.ss_stems, vec![1]);
}

#[test]
fn header_boundary_for_group_size_1024() {
    // capacity 512 - 64 = 448
    let s = stats(1024, 0, &[key(447), key(448)]);
    assert_eq!(s.account_stem, 3);
    assert_eq!(s.ss_stems, vec![1]);
}

#[test]
fn group_size_128_has_no_header_slots() {
    let s = stats(128, 0, &[key(0), key(1)]);
    assert_eq!(s.account_stem, 2);
    assert_eq!(s.ss_stems, vec![2]);
    assert_eq!(s.num_storage_slots, 2);
}

#[test]
fn scenario_two_accounts() {
    let a = account_stem_stats(&config(256), [1u8; 20], 0, &[]).unwrap();
    assert_eq!(total_stems(&a), 1);
    assert_eq!(a.account_stem, 2);
    let b = account_stem_stats(&config(256), [2u8; 20], 31, &[key(0)]).unwrap();
    assert_eq!(b.account_stem, 4);
    assert_eq!(b.ss_stems, Vec::<u16>::new());
    assert_eq!(b.code_stems, 0);
    assert_eq!(b.num_storage_slots, 1);
    assert_eq!(total_stems(&b), 1);
}

#[test]
fn code_chunks_round_up() {
    assert_eq!(stats(256, 1, &[]).account_stem, 3);
    assert_eq!(stats(256, 31, &[]).account_stem, 3);
    assert_eq!(stats(256, 32, &[]).account_stem, 4);
    assert_eq!(stats(256, 62, &[]).account_stem, 4);
    assert_eq!(stats(256, 63, &[]).account_stem, 5);
}

#[test]
fn code_fills_the_header_and_then_groups() {
    // 128 chunks fit in the header of a group of 256
    let full = stats(256, 128 * 31, &[]);
    assert_eq!(full.account_stem, 130);
    assert_eq!(full.code_stems, 0);
    let one_more = stats(256, 128 * 31 + 1, &[]);
    assert_eq!(one_more.account_stem, 130);
    assert_eq!(one_more.code_stems, 1);
    // 128 in the header and 256 in one group
    let one_group = stats(256, (128 + 256) * 31, &[]);
    assert_eq!(one_group.code_stems, 1);
    let two_groups = stats(256, (128 + 256) * 31 + 1, &[]);
    assert_eq!(two_groups.code_stems, 2);
    assert_eq!(total_stems(&two_groups), 3);
}

#[test]
fn code_of_the_largest_contract_size() {
    // 24576 bytes: 793 chunks, 128 in the header, 665 outside: 3 groups
    let s = stats(256, 24576, &[]);
    assert_eq!(s.bytecode_len, 24576);
    assert_eq!(s.account_stem, 130);
    assert_eq!(s.code_stems, 3);
}

#[test]
fn code_length_beyond_sixteen_bits_of_chunks() {
    // 70000 chunks do not fit in 16 bits; 128 in the header, 69872 outside
    let s = stats(256, 70000 * 31, &[]);
    assert_eq!(s.account_stem, 130);
    assert_eq!(s.code_stems, 273);
}

#[test]
fn slots_of_one_group_share_a_count() {
    let s = stats(256, 0, &[key(64), key(100), key(255)]);
    assert_eq!(s.account_stem, 2);
    assert_eq!(s.ss_stems, vec![3]);
}

#[test]
fn slots_of_different_groups_open_new_counts() {
    let s = stats(256, 0, &[key(5), key(64), key(255), key(256), key(511), key(512), key(1 << 40)]);
    assert_eq!(s.account_stem, 3);
    assert_eq!(s.ss_stems, vec![2, 2, 1, 1]);
    assert_eq!(s.num_storage_slots, 7);
    assert_eq!(total_stems(&s), 5);
}

#[test]
fn group_of_keys_beyond_64_bits() {
    let mut a = [0u8; 32];
    a[0] = 0x80;
    let mut b = a;
    b[31] = 0xff;
    let mut c = a;
    c[30] = 0x01;
    let top = [0xffu8; 32];
    let s = stats(256, 0, &[a, b, c, top]);
    assert_eq!(s.ss_stems, vec![2, 1, 1]);
}

#[test]
fn full_group_counts_every_slot() {
    let keys: Vec<StorageKey> = (256..512u64).map(key).collect();
    let s = stats(256, 0, &keys);
    assert_eq!(s.ss_stems, vec![256]);
}

#[test]
fn full_header_counts_every_slot() {
    let keys: Vec<StorageKey> = (0..64u64).map(key).collect();
    let s = stats(256, 128 * 31, &keys);
    assert_eq!(s.account_stem, 2 + 128 + 64);
    assert_eq!(s.ss_stems, Vec::<u16>::new());
}

#[test]
fn largest_group_size_counts_a_full_group() {
    let keys: Vec<StorageKey> = (32768..65536u64).map(key).collect();
    let s = stats(32768, 0, &keys);
    assert_eq!(s.ss_stems, vec![32768]);
    assert_eq!(s.account_stem, 2);
}

#[test]
fn unordered_slots_are_refused() {
    let c = config(256);
    assert_eq!(
        account_stem_stats(&c, [0u8; 20], 0, &[key(2), key(1)]),
        Err(StemError::UnorderedSlot)
    );
    assert_eq!(
        account_stem_stats(&c, [0u8; 20], 0, &[key(300), key(300)]),
        Err(StemError::UnorderedSlot)
    );
}

#[test]
fn accumulator_refuses_and_keeps_its_record() {
    let mut acc = StemAccumulator::new(config(256), [9u8; 20], 40);
    assert_eq!(acc.push_slot(&key(10)), Ok(()));
    assert_eq!(acc.push_slot(&key(700)), Ok(()));
    assert_eq!(acc.push_slot(&key(700)), Err(StemError::UnorderedSlot));
    assert_eq!(acc.push_slot(&key(3)), Err(StemError::UnorderedSlot));
    assert_eq!(acc.push_slot(&key(701)), Ok(()));
    let s = acc.finish();
    assert_eq!(
        s,
        AccountStemStats {
            address: [9u8; 20],
            bytecode_len: 40,
            account_stem: 5,
            ss_stems: vec![2],
            code_stems: 0,
            num_storage_slots: 3,
        }
    );
}
