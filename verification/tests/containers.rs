use roaring::container::THRESHOLD;
use roaring::Container;

#[test]
fn new_container_is_empty_and_sparse() {
    let c = Container::new(17);
    assert_eq!(c.key(), 17);
    assert_eq!(c.cardinality(), 0);
    assert!(!c.is_dense());
    assert!(!c.contains(0));
    assert!(!c.contains(65535));
}

#[test]
fn container_insert_remove_contains() {
    let mut c = Container::new(3);
    assert!(c.insert(10));
    assert!(c.insert(0));
    assert!(c.insert(65535));
    assert!(!c.insert(10));
    assert_eq!(c.cardinality(), 3);
    assert!(c.contains(0));
    assert!(c.contains(10));
    assert!(c.contains(65535));
    assert!(!c.contains(11));
    assert!(c.remove(10));
    assert!(!c.remove(10));
    assert!(!c.remove(11));
    assert_eq!(c.cardinality(), 2);
    assert!(!c.contains(10));
    assert_eq!(c.key(), 3);
}

#[test]
fn threshold_is_where_both_forms_cost_the_same() {
    assert_eq!(THRESHOLD, 4096);
    assert_eq!(2 * THRESHOLD, 8192);
}

#[test]
fn threshold_crossing() {
    let mut c = Container::new(0);
    for index in 0..4096u16 {
        assert!(c.insert(index));
    }
    assert_eq!(c.cardinality(), 4096);
    assert!(!c.is_dense());
    assert!(c.insert(4096));
    assert_eq!(c.cardinality(), 4097);
    assert!(c.is_dense());
    assert!(!c.insert(4096));
    assert!(c.is_dense());
    assert!(c.remove(4096));
    assert_eq!(c.cardinality(), 4096);
    assert!(!c.is_dense());
    assert!(c.remove(4095));
    assert_eq!(c.cardinality(), 4095);
    assert!(!c.is_dense());
    for index in 0..4095u16 {
        assert!(c.contains(index));
    }
    assert!(!c.contains(4095));
    assert!(!c.contains(4096));
}

#[test]
fn representation_is_not_observable() {
    let mut c = Container::new(9);
    let mut reference = std::collections::BTreeSet::new();
    // Every third index, up through the threshold and far beyond it.
    for step in 0..6000u32 {
        let index = (step * 3 % 65536) as u16;
        assert_eq!(c.insert(index), reference.insert(index));
        assert_eq!(c.cardinality() as usize, reference.len());
        assert_eq!(c.is_dense(), reference.len() > 4096);
        assert_eq!(c.key(), 9);
    }
    for index in 0..=65535u16 {
        assert_eq!(c.contains(index), reference.contains(&index));
    }
    // And down again, below the threshold.
    for step in 0..5000u32 {
        let index = (step * 3 % 65536) as u16;
        assert_eq!(c.remove(index), reference.remove(&index));
        assert_eq!(c.cardinality() as usize, reference.len());
        assert_eq!(c.is_dense(), reference.len() > 4096);
        assert_eq!(c.key(), 9);
    }
    assert_eq!(c.cardinality(), 1000);
    for index in 0..=65535u16 {
        assert_eq!(c.contains(index), reference.contains(&index));
    }
}

#[test]
fn full_container() {
    let mut c = Container::new(65535);
    for index in 0..=65535u16 {
        assert!(c.insert(index));
    }
    assert_eq!(c.cardinality(), 65536);
    assert!(c.is_dense());
    assert!(!c.insert(0));
    assert!(!c.insert(65535));
    assert_eq!(c.cardinality(), 65536);
}

#[test]
fn container_insert_then_remove_restores() {
    let mut c = Container::new(1);
    for index in 0..4096u16 {
        c.insert(index * 2);
    }
    assert!(!c.is_dense());
    assert!(c.insert(9999));
    assert!(c.is_dense());
    assert!(c.remove(9999));
    assert!(!c.is_dense());
    assert_eq!(c.cardinality(), 4096);
    assert!(!c.contains(9999));
    assert!(c.contains(8190));
}
