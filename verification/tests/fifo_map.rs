use hashmore::FIFOMap;

const A: u64 = 1;
const B: u64 = 2;
const C: u64 = 3;
const D: u64 = 4;
const E: u64 = 5;
const F: u64 = 6;

#[test]
fn test_fifo_map_reach_cap() {
    let mut map = FIFOMap::with_capacity(3);

    map.insert(A, 1);
    map.insert(B, 2);
    map.insert(C, 3);

    assert_eq!(map.get(A), Some(&1));
    assert_eq!(map.get(B), Some(&2));
    assert_eq!(map.get(C), Some(&3));

    map.insert(D, 4);

    assert_eq!(map.get(A), None);
    assert_eq!(map.get(B), Some(&2));
}

#[test]
fn test_fifo_map_replace_many() {
    let mut map = FIFOMap::with_capacity(3);

    map.insert(A, 1);
    map.insert(B, 2);
    map.insert(C, 3);

    assert_eq!(map.get(A), Some(&1));
    assert_eq!(map.get(B), Some(&2));
    assert_eq!(map.get(C), Some(&3));

    map.insert(D, 4);

    assert_eq!(map.get(A), None);
    assert_eq!(map.get(B), Some(&2));

    map.insert(E, 5);
    map.insert(F, 6);

    assert_eq!(map.get(B), None);
    assert_eq!(map.get(C), None);
    assert_eq!(map.get(D), Some(&4));
    assert_eq!(map.get(E), Some(&5));
    assert_eq!(map.get(F), Some(&6));
}

#[test]
fn test_fifo_map_remove() {
    let mut map = FIFOMap::with_capacity(3);

    map.insert(A, 1);
    map.insert(B, 2);
    map.insert(C, 3);

    assert_eq!(map.remove(A), Some(1));
    assert_eq!(map.remove(B), Some(2));
    assert_eq!(map.remove(C), Some(3));
    assert_eq!(map.remove(D), None);
    assert_eq!(map.get(A), None);
    assert_eq!(map.get(B), None);
    assert_eq!(map.get(C), None);
}

#[test]
fn test_fifo_map_fill_within_capacity() {
    let mut map = FIFOMap::with_capacity(5);

    map.insert(A, 10);
    map.insert(B, 20);
    map.insert(C, 30);

    assert_eq!(map.len(), 3);
    assert_eq!(map.get(A), Some(&10));
    assert_eq!(map.get(B), Some(&20));
    assert_eq!(map.get(C), Some(&30));
}

#[test]
fn test_fifo_map_eviction_keeps_relative_order() {
    let mut map = FIFOMap::with_capacity(3);

    map.insert(A, 1);
    map.insert(B, 2);
    map.insert(C, 3);
    map.insert(D, 4);

    // The first-inserted key is gone; the survivors keep their order.
    assert_eq!(map.keys(), vec![B, C, D]);
    assert_eq!(map.len(), 3);
}

#[test]
fn test_fifo_map_reinsert_keeps_position() {
    let mut map = FIFOMap::with_capacity(3);

    map.insert(A, 1);
    map.insert(B, 2);
    map.insert(C, 3);

    // Updating a present key at full capacity evicts nothing and does not
    // refresh the key to newest.
    map.insert(A, 9);

    assert_eq!(map.len(), 3);
    assert_eq!(map.get(A), Some(&9));
    assert_eq!(map.get(B), Some(&2));
    assert_eq!(map.get(C), Some(&3));
    assert_eq!(map.keys(), vec![A, B, C]);

    // The next new key still evicts the oldest key, which is still A.
    map.insert(D, 4);
    assert_eq!(map.get(A), None);
    assert_eq!(map.keys(), vec![B, C, D]);
}

#[test]
fn test_fifo_map_remove_absent_changes_nothing() {
    let mut map = FIFOMap::with_capacity(3);

    map.insert(A, 1);
    map.insert(B, 2);

    assert_eq!(map.remove(C), None);
    assert_eq!(map.len(), 2);
    assert_eq!(map.get(A), Some(&1));
    assert_eq!(map.get(B), Some(&2));
    assert_eq!(map.keys(), vec![A, B]);
}

#[test]
fn test_fifo_map_remove_then_insert_resets_position() {
    let mut map = FIFOMap::with_capacity(3);

    map.insert(A, 1);
    map.insert(B, 2);
    map.insert(C, 3);

    assert_eq!(map.remove(A), Some(1));
    map.insert(A, 7);

    // A was re-inserted, so it is now the newest entry...
    assert_eq!(map.keys(), vec![B, C, A]);

    // ...and the next eviction removes B, not A.
    map.insert(D, 4);
    assert_eq!(map.get(B), None);
    assert_eq!(map.get(A), Some(&7));
    assert_eq!(map.keys(), vec![C, A, D]);
}

#[test]
fn test_fifo_map_len_never_exceeds_capacity() {
    let mut map = FIFOMap::with_capacity(4);

    for k in 0..20u64 {
        map.insert(k, k * 2);
        assert!(map.len() <= map.capacity());
        if k % 3 == 0 {
            map.remove(k / 2);
            assert!(map.len() <= map.capacity());
        }
    }
    assert_eq!(map.capacity(), 4);
    assert_eq!(map.len(), 4);
}

#[test]
fn test_fifo_map_capacity_one() {
    let mut map = FIFOMap::with_capacity(1);

    assert!(map.is_empty());
    map.insert(A, 1);
    assert!(!map.is_empty());
    map.insert(B, 2);

    assert_eq!(map.len(), 1);
    assert_eq!(map.get(A), None);
    assert_eq!(map.get(B), Some(&2));
}

#[test]
fn test_fifo_map_values_and_iter() {
    let mut map = FIFOMap::with_capacity(3);

    map.insert(A, 10);
    map.insert(B, 20);
    map.insert(C, 30);

    assert_eq!(map.values(), vec![10, 20, 30]);
    assert_eq!(map.iter(), vec![(A, 10), (B, 20), (C, 30)]);

    map.remove(B);
    assert_eq!(map.values(), vec![10, 30]);
    assert_eq!(map.iter(), vec![(A, 10), (C, 30)]);
}

#[test]
fn test_fifo_map_contains_key() {
    let mut map = FIFOMap::with_capacity(2);

    map.insert(A, 1);

    assert!(map.contains_key(A));
    assert!(!map.contains_key(B));

    map.insert(B, 2);
    map.insert(C, 3);

    assert!(!map.contains_key(A));
    assert!(map.contains_key(B));
    assert!(map.contains_key(C));
}
