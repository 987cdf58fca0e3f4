use hashmore::FIFOSet;

#[test]
fn test_fifo_set() {
    let mut set = FIFOSet::with_capacity(3);

    set.insert(1);
    set.insert(2);
    set.insert(3);
    assert!(set.contains(1));
    assert!(set.contains(2));
    assert!(set.contains(3));

    set.insert(4);
    assert!(!set.contains(1));
    assert!(set.contains(2));
    assert!(set.contains(3));
    assert!(set.contains(4));

    set.insert(5);
    assert!(!set.contains(2));
    assert!(set.contains(3));
    assert!(set.contains(4));
    assert!(set.contains(5));

    assert!(!set.contains(1));
    assert!(!set.contains(2));
}

#[test]
fn test_fifo_set_remove() {
    let mut set = FIFOSet::with_capacity(3);

    set.insert(1);
    set.insert(2);
    set.insert(3);
    assert!(set.contains(1));
    assert!(set.contains(2));
    assert!(set.contains(3));

    set.remove(2);
    assert!(set.contains(1));
    assert!(!set.contains(2));
    assert!(set.contains(3));

    set.remove(1);
    assert!(!set.contains(1));
    assert!(!set.contains(2));
    assert!(set.contains(3));

    set.remove(3);
    assert!(!set.contains(1));
    assert!(!set.contains(2));
    assert!(!set.contains(3));
}

#[test]
fn test_fifo_set_remove_then_insert() {
    let mut set = FIFOSet::with_capacity(3);

    set.insert(1);
    set.insert(2);
    set.insert(3);

    set.remove(2);
    set.insert(4);

    assert!(set.contains(1));
    assert!(!set.contains(2));
    assert!(set.contains(3));
    assert!(set.contains(4));
    assert_eq!(set.len(), 3);
}

#[test]
fn test_fifo_set_duplicate_insert_is_noop() {
    let mut set = FIFOSet::with_capacity(3);

    set.insert(1);
    set.insert(2);
    set.insert(1);

    assert_eq!(set.len(), 2);
    assert_eq!(set.iter(), vec![1, 2]);

    // Re-inserting a present key at full capacity evicts nothing and does
    // not refresh the key to newest.
    set.insert(3);
    set.insert(1);
    assert_eq!(set.len(), 3);
    assert_eq!(set.iter(), vec![1, 2, 3]);

    // The next new key evicts 1, which kept its oldest position.
    set.insert(4);
    assert!(!set.contains(1));
    assert_eq!(set.iter(), vec![2, 3, 4]);
}

#[test]
fn test_fifo_set_remove_absent_changes_nothing() {
    let mut set = FIFOSet::with_capacity(3);

    set.insert(1);
    set.insert(2);

    assert!(!set.remove(9));
    assert_eq!(set.len(), 2);
    assert!(set.contains(1));
    assert!(set.contains(2));
    assert_eq!(set.iter(), vec![1, 2]);
}

#[test]
fn test_fifo_set_remove_reports_presence() {
    let mut set = FIFOSet::with_capacity(2);

    set.insert(7);

    assert!(set.remove(7));
    assert!(!set.remove(7));
    assert!(set.is_empty());
}

#[test]
fn test_fifo_set_len_never_exceeds_capacity() {
    let mut set = FIFOSet::with_capacity(4);

    for k in 0..20u64 {
        set.insert(k);
        assert!(set.len() <= set.capacity());
        if k % 3 == 0 {
            set.remove(k / 2);
            assert!(set.len() <= set.capacity());
        }
    }
    assert_eq!(set.capacity(), 4);
}

#[test]
fn test_fifo_set_capacity_one() {
    let mut set = FIFOSet::with_capacity(1);

    assert!(set.is_empty());
    set.insert(1);
    set.insert(2);

    assert_eq!(set.len(), 1);
    assert!(!set.contains(1));
    assert!(set.contains(2));
}

#[test]
fn test_fifo_set_iter_is_insertion_order() {
    let mut set = FIFOSet::with_capacity(3);

    set.insert(30);
    set.insert(10);
    set.insert(20);

    assert_eq!(set.iter(), vec![30, 10, 20]);

    set.insert(40);
    assert_eq!(set.iter(), vec![10, 20, 40]);
}
