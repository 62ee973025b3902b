use treeindex::ARRAY_SIZE;
use treeindex::Leaf;

#[test]
fn leaf_keeps_sorted_unique_keys() {
    let mut leaf: Leaf<usize> = Leaf::new();
    assert_eq!(leaf.len(), 0);
    assert_eq!(leaf.max_key(), None);
    for k in [50, 10, 30, 20, 40] {
        assert!(leaf.insert(k, k + 1).is_none());
    }
    assert_eq!(leaf.len(), 5);
    assert_eq!(leaf.max_key(), Some(50));
    for i in 0..5 {
        assert_eq!(leaf.key_at(i), (i + 1) * 10);
        assert_eq!(*leaf.value_at(i), (i + 1) * 10 + 1);
    }
    // re-inserting reports the duplicate and keeps the stored binding
    match leaf.insert(30, 99) {
        Some(((k, v), dup)) => {
            assert_eq!((k, v), (30, 99));
            assert!(dup);
        }
        None => assert!(false),
    }
    assert_eq!(*leaf.value_at(2), 31);
    // the bucket locator finds the first key at or above the probe
    assert_eq!(leaf.min_ge(25), Some(2));
    assert_eq!(leaf.min_ge(30), Some(2));
    assert_eq!(leaf.min_ge(51), None);
    assert!(leaf.contains(40));
    assert!(!leaf.contains(45));
}

#[test]
fn leaf_reports_full() {
    let mut leaf: Leaf<usize> = Leaf::new();
    for k in 0..ARRAY_SIZE {
        assert!(leaf.insert(k * 2, 0).is_none());
    }
    assert!(leaf.full());
    match leaf.insert(100, 0) {
        Some(((k, _), dup)) => {
            assert_eq!(k, 100);
            assert!(!dup);
        }
        None => assert!(false),
    }
    // a duplicate still outranks the full report
    match leaf.insert(4, 9) {
        Some((_, dup)) => assert!(dup),
        None => assert!(false),
    }
}

#[test]
fn distribute_conserves_and_separates() {
    let mut leaf: Leaf<usize> = Leaf::new();
    for k in 0..ARRAY_SIZE {
        assert!(leaf.insert(k * 10, k).is_none());
    }
    let mut low: Leaf<usize> = Leaf::new();
    let mut high: Leaf<usize> = Leaf::new();
    let (d0, d1) = leaf.distribute(&mut low, &mut high);
    assert_eq!(d0, ARRAY_SIZE / 2);
    assert_eq!(d1, ARRAY_SIZE - ARRAY_SIZE / 2);
    assert_eq!(low.len() + high.len(), leaf.len());
    // order-preserving: the low leaf holds the first half exactly
    for i in 0..d0 {
        assert_eq!(low.key_at(i), i * 10);
    }
    for i in 0..d1 {
        assert_eq!(high.key_at(i), (d0 + i) * 10);
    }
    // every low key lies below every high key
    assert!(low.max_key().unwrap() < high.key_at(0));
    // placing the overflow entry makes the two halves hold one entry more
    // than the original
    assert!(low.insert(5, 0).is_none());
    assert_eq!(low.len() + high.len(), leaf.len() + 1);
}

#[test]
fn duplicate_copies_entries() {
    let mut leaf: Leaf<usize> = Leaf::new();
    for k in [3, 1, 2] {
        assert!(leaf.insert(k, k * 7).is_none());
    }
    let copy = leaf.duplicate();
    assert_eq!(copy.len(), 3);
    for i in 0..3 {
        assert_eq!(copy.key_at(i), leaf.key_at(i));
        assert_eq!(*copy.value_at(i), *leaf.value_at(i));
    }
}
