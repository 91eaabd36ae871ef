use preimages::stats::{calculate_stats, Stats, StatsError};

#[test]
fn stats_of_small_sequence() {
    let mut data = vec![5u64, 1, 9, 3];
    let stats = calculate_stats(&mut data).unwrap();
    assert_eq!(data, vec![1, 3, 5, 9]);
    assert_eq!(
        stats,
        Stats {
            sum: 18,
            average: 4,
            median: 5,
            p99: 9,
            max: 9
        }
    );
}

#[test]
fn stats_of_single_element() {
    let mut data = vec![7u64];
    let stats = calculate_stats(&mut data).unwrap();
    assert_eq!(
        stats,
        Stats {
            sum: 7,
            average: 7,
            median: 7,
            p99: 7,
            max: 7
        }
    );
}

#[test]
fn stats_upper_median_for_even_length() {
    let mut data = vec![4u64, 1, 3, 2];
    let stats = calculate_stats(&mut data).unwrap();
    assert_eq!(stats.median, 3);
}

#[test]
fn stats_p99_of_two_hundred() {
    let mut data: Vec<u64> = (0..200u64).rev().collect();
    let stats = calculate_stats(&mut data).unwrap();
    assert_eq!(stats.p99, 198);
    assert_eq!(stats.median, 100);
    assert_eq!(stats.max, 199);
    assert_eq!(stats.sum, 19900);
    assert_eq!(stats.average, 99);
}

#[test]
fn stats_of_empty_sequence_is_an_error() {
    let mut data: Vec<u64> = Vec::new();
    assert_eq!(calculate_stats(&mut data), Err(StatsError::EmptySequence));
}

#[test]
fn stats_sum_overflow_is_an_error() {
    let mut data = vec![u64::MAX, 1];
    assert_eq!(calculate_stats(&mut data), Err(StatsError::SumOverflow));
    assert_eq!(data, vec![1, u64::MAX]);
}

#[test]
fn stats_sum_at_the_limit() {
    let mut data = vec![u64::MAX - 1, 1];
    let stats = calculate_stats(&mut data).unwrap();
    assert_eq!(stats.sum, u64::MAX);
    assert_eq!(stats.average, u64::MAX / 2);
}
