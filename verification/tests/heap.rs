use preimages::heap::{Counted, MinHeap};

fn entry(count: u32) -> Counted {
    let mut key = [0u8; 32];
    key[28..].copy_from_slice(&count.to_be_bytes());
    Counted { key, count }
}

fn heap_of(counts: &[u32]) -> MinHeap {
    let mut h = MinHeap::new();
    for c in counts {
        h.push(entry(*c));
    }
    h
}

fn drain(h: &mut MinHeap) -> Vec<u32> {
    let mut out = Vec::new();
    while let Some(e) = h.pop_least() {
        assert_eq!(e.key, entry(e.count).key);
        out.push(e.count);
    }
    out
}

#[test]
fn empty_heap() {
    let mut h = MinHeap::new();
    assert_eq!(h.len(), 0);
    assert!(h.least().is_none());
    assert!(h.pop_least().is_none());
}

#[test]
fn push_keeps_the_least_at_hand() {
    let mut h = MinHeap::new();
    let mut least = u32::MAX;
    for c in [5u32, 3, 8, 1, 9, 2, 7] {
        h.push(entry(c));
        least = least.min(c);
        assert_eq!(h.least().unwrap().count, least);
    }
    assert_eq!(h.len(), 7);
}

#[test]
fn pop_least_gives_ascending_counts() {
    let mut h = heap_of(&[5, 3, 8, 1, 9, 2, 7, 3]);
    assert_eq!(drain(&mut h), vec![1, 2, 3, 3, 5, 7, 8, 9]);
    assert_eq!(h.len(), 0);
}

#[test]
fn replace_least_swaps_the_least_entry() {
    let mut h = heap_of(&[4, 6, 5]);
    h.replace_least(entry(10));
    assert_eq!(h.len(), 3);
    assert_eq!(h.least().unwrap().count, 5);
    h.replace_least(entry(1));
    assert_eq!(h.least().unwrap().count, 1);
    assert_eq!(drain(&mut h), vec![1, 6, 10]);
}

#[test]
fn heap_of_one_entry() {
    let mut h = heap_of(&[3]);
    h.replace_least(entry(2));
    assert_eq!(h.least().unwrap().count, 2);
    assert_eq!(drain(&mut h), vec![2]);
}

#[test]
fn heap_of_many_entries() {
    let counts: Vec<u32> = (0..1000u32).map(|i| (i * 7919) % 1009).collect();
    let mut h = heap_of(&counts);
    let mut expected = counts.clone();
    expected.sort();
    assert_eq!(drain(&mut h), expected);
}
