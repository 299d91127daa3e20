use roaring::RoaringBitmap;

#[test]
fn new_bitmap_is_empty() {
    let rb = RoaringBitmap::new();
    assert!(rb.is_empty());
    assert_eq!(rb.cardinality(), 0);
    assert_eq!(rb.container_count(), 0);
    assert!(!rb.contains(0));
    assert!(rb.container(0).is_none());
}

#[test]
fn insert_reports_change() {
    let mut rb = RoaringBitmap::new();
    assert_eq!(rb.insert(3), true);
    assert_eq!(rb.insert(3), false);
    assert_eq!(rb.contains(3), true);
}

#[test]
fn remove_reports_change() {
    let mut rb = RoaringBitmap::new();
    rb.insert(3);
    assert_eq!(rb.remove(3), true);
    assert_eq!(rb.remove(3), false);
    assert_eq!(rb.contains(3), false);
}

#[test]
fn contains_only_what_was_inserted() {
    let mut rb = RoaringBitmap::new();
    rb.insert(1);
    assert_eq!(rb.contains(0), false);
    assert_eq!(rb.contains(1), true);
    assert_eq!(rb.contains(100), false);
    assert_eq!(rb.contains(65537), false);
}

#[test]
fn is_empty_follows_cardinality() {
    let mut rb = RoaringBitmap::new();
    assert_eq!(rb.is_empty(), true);
    rb.insert(3);
    assert_eq!(rb.is_empty(), false);
    rb.remove(3);
    assert_eq!(rb.is_empty(), true);
}

#[test]
fn cardinality_counts_distinct_values() {
    let mut rb = RoaringBitmap::new();
    assert_eq!(rb.cardinality(), 0);
    rb.insert(3);
    assert_eq!(rb.cardinality(), 1);
    rb.insert(3);
    rb.insert(4);
    assert_eq!(rb.cardinality(), 2);
}

#[test]
fn insert_is_idempotent() {
    for value in [0u32, 1, 65535, 65536, 70000, u32::MAX] {
        let mut rb = RoaringBitmap::new();
        rb.insert(12);
        assert!(rb.insert(value));
        let after_first = rb.cardinality();
        assert!(!rb.insert(value));
        assert_eq!(rb.cardinality(), after_first);
        assert_eq!(after_first, 2);
    }
}

#[test]
fn remove_undoes_insert() {
    for value in [0u32, 1, 65535, 65536, 70000, u32::MAX] {
        let mut rb = RoaringBitmap::new();
        rb.insert(12);
        rb.insert(65600);
        let before = rb.cardinality();
        assert!(!rb.contains(value));
        assert!(rb.insert(value));
        assert!(rb.remove(value));
        assert_eq!(rb.cardinality(), before);
        assert!(!rb.contains(value));
        assert!(rb.contains(12));
        assert!(rb.contains(65600));
    }
}

#[test]
fn primes_scenario() {
    let mut rb = RoaringBitmap::new();
    assert!(rb.insert(2));
    assert!(rb.insert(3));
    assert!(rb.insert(5));
    assert!(rb.insert(7));
    assert_eq!(rb.cardinality(), 4);
    assert_eq!(rb.contains(4), false);
    assert_eq!(rb.contains(5), true);
    assert_eq!(rb.remove(5), true);
    assert_eq!(rb.cardinality(), 3);
    assert_eq!(rb.contains(5), false);
    assert_eq!(rb.remove(5), false);
    assert_eq!(rb.cardinality(), 3);
}

#[test]
fn two_blocks_scenario() {
    let mut rb = RoaringBitmap::new();
    assert!(rb.insert(1));
    assert!(rb.insert(70000));
    assert_eq!(rb.container_count(), 2);
    assert_eq!(rb.container_keys(), vec![0, 1]);
    let low = rb.container(0).unwrap();
    assert_eq!(low.key(), 0);
    assert_eq!(low.cardinality(), 1);
    assert!(low.contains(1));
    let high = rb.container(1).unwrap();
    assert_eq!(high.key(), 1);
    assert_eq!(high.cardinality(), 1);
    assert!(high.contains(4464));
    assert!(rb.container(2).is_none());
    assert_eq!(rb.cardinality(), 2);
}

#[test]
fn containers_stay_ordered_by_key() {
    let mut rb = RoaringBitmap::new();
    for key in [9u32, 3, 65535, 0, 7, 3, 9, 1000, 4] {
        rb.insert(key * 65536 + 5);
        let keys = rb.container_keys();
        for pair in keys.windows(2) {
            assert!(pair[0] < pair[1]);
        }
    }
    assert_eq!(rb.container_keys(), vec![0, 3, 4, 7, 9, 1000, 65535]);
    assert_eq!(rb.container_count(), 7);
    assert_eq!(rb.cardinality(), 7);
}

#[test]
fn empty_containers_are_kept() {
    let mut rb = RoaringBitmap::new();
    rb.insert(5 * 65536);
    rb.insert(2 * 65536 + 1);
    assert_eq!(rb.container_keys(), vec![2, 5]);
    assert!(rb.remove(5 * 65536));
    assert_eq!(rb.container_keys(), vec![2, 5]);
    assert_eq!(rb.container(5).unwrap().cardinality(), 0);
    assert_eq!(rb.cardinality(), 1);
    assert!(rb.remove(2 * 65536 + 1));
    assert!(rb.is_empty());
    assert_eq!(rb.container_count(), 2);
}

#[test]
fn remove_creates_no_container() {
    let mut rb = RoaringBitmap::new();
    assert!(!rb.remove(70000));
    assert_eq!(rb.container_count(), 0);
    rb.insert(1);
    assert!(!rb.remove(70000));
    assert_eq!(rb.container_keys(), vec![0]);
}

#[test]
fn cardinality_matches_reference_set() {
    let mut rb = RoaringBitmap::new();
    let mut reference = std::collections::BTreeSet::new();
    let mut state: u64 = 0x2545_F491_4F6C_DD1D;
    for round in 0..20000u32 {
        state = state.wrapping_mul(6364136223846793005).wrapping_add(1442695040888963407);
        // Values from four blocks, dense enough to collide often.
        let value = ((state >> 33) % (4 * 65536)) as u32 / 8 * 8;
        if (state >> 7) % 3 == 0 {
            assert_eq!(rb.remove(value), reference.remove(&value));
        } else {
            assert_eq!(rb.insert(value), reference.insert(value));
        }
        if round % 97 == 0 {
            assert_eq!(rb.cardinality(), reference.len() as u64);
            assert_eq!(rb.is_empty(), reference.is_empty());
        }
    }
    assert_eq!(rb.cardinality(), reference.len() as u64);
    for value in 0..(4 * 65536u32) {
        assert_eq!(rb.contains(value), reference.contains(&value));
    }
    let keys = rb.container_keys();
    for pair in keys.windows(2) {
        assert!(pair[0] < pair[1]);
    }
}

#[test]
fn dense_block_inside_a_bitmap() {
    let mut rb = RoaringBitmap::new();
    for value in 65536..(65536 + 5000u32) {
        assert!(rb.insert(value));
    }
    rb.insert(3);
    assert_eq!(rb.cardinality(), 5001);
    assert!(rb.container(1).unwrap().is_dense());
    assert!(!rb.container(0).unwrap().is_dense());
    for value in 65536..(65536 + 1000u32) {
        assert!(rb.remove(value));
    }
    assert_eq!(rb.cardinality(), 4001);
    assert!(!rb.container(1).unwrap().is_dense());
    assert!(rb.contains(65536 + 1000));
    assert!(!rb.contains(65536 + 999));
    assert!(rb.contains(65536 + 4999));
    assert!(!rb.contains(65536 + 5000));
}

#[test]
fn extreme_values() {
    let mut rb = RoaringBitmap::new();
    assert!(rb.insert(u32::MAX));
    assert!(rb.insert(0));
    assert!(rb.contains(u32::MAX));
    assert!(rb.contains(0));
    assert!(!rb.contains(u32::MAX - 1));
    assert_eq!(rb.container_keys(), vec![0, 65535]);
    assert_eq!(rb.cardinality(), 2);
}
