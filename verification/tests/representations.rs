use roaring::dense;
use roaring::sparse;

#[test]
fn sparse_search_finds_and_places() {
    let arr: Vec<u16> = vec![2, 5, 9, 40];
    assert_eq!(sparse::search(&arr, 2), Ok(0));
    assert_eq!(sparse::search(&arr, 9), Ok(2));
    assert_eq!(sparse::search(&arr, 40), Ok(3));
    assert_eq!(sparse::search(&arr, 0), Err(0));
    assert_eq!(sparse::search(&arr, 3), Err(1));
    assert_eq!(sparse::search(&arr, 10), Err(3));
    assert_eq!(sparse::search(&arr, 41), Err(4));
    let none: Vec<u16> = Vec::new();
    assert_eq!(sparse::search(&none, 7), Err(0));
}

#[test]
fn sparse_insert_keeps_order() {
    let mut arr: Vec<u16> = Vec::new();
    assert!(sparse::insert(&mut arr, 7));
    assert!(sparse::insert(&mut arr, 2));
    assert!(sparse::insert(&mut arr, 65535));
    assert!(sparse::insert(&mut arr, 0));
    assert!(sparse::insert(&mut arr, 5));
    assert!(!sparse::insert(&mut arr, 5));
    assert!(!sparse::insert(&mut arr, 0));
    assert_eq!(arr, vec![0, 2, 5, 7, 65535]);
}

#[test]
fn sparse_remove_keeps_order() {
    let mut arr: Vec<u16> = vec![0, 2, 5, 7, 65535];
    assert!(sparse::remove(&mut arr, 5));
    assert!(!sparse::remove(&mut arr, 5));
    assert!(!sparse::remove(&mut arr, 6));
    assert!(sparse::remove(&mut arr, 0));
    assert!(sparse::remove(&mut arr, 65535));
    assert_eq!(arr, vec![2, 7]);
}

#[test]
fn dense_empty_has_full_length_and_no_member() {
    let words = dense::empty();
    assert_eq!(words.len(), 1024);
    assert_eq!(words.len(), dense::WORDS);
    assert!(words.iter().all(|word| *word == 0));
    assert!(!dense::contains(&words, 0));
    assert!(!dense::contains(&words, 65535));
}

#[test]
fn dense_insert_sets_one_bit() {
    let mut words = dense::empty();
    assert!(dense::insert(&mut words, 0));
    assert!(dense::insert(&mut words, 63));
    assert!(dense::insert(&mut words, 64));
    assert!(dense::insert(&mut words, 65535));
    assert!(!dense::insert(&mut words, 64));
    assert_eq!(words[0], 1u64 | (1u64 << 63));
    assert_eq!(words[1], 1u64);
    assert_eq!(words[1023], 1u64 << 63);
    assert!(dense::contains(&words, 0));
    assert!(dense::contains(&words, 63));
    assert!(dense::contains(&words, 64));
    assert!(dense::contains(&words, 65535));
    assert!(!dense::contains(&words, 1));
    assert!(!dense::contains(&words, 65));
    assert!(!dense::contains(&words, 65534));
}

#[test]
fn dense_remove_clears_one_bit() {
    let mut words = dense::empty();
    dense::insert(&mut words, 128);
    dense::insert(&mut words, 129);
    assert!(dense::remove(&mut words, 128));
    assert!(!dense::remove(&mut words, 128));
    assert!(!dense::remove(&mut words, 130));
    assert_eq!(words[2], 2u64);
    assert!(dense::contains(&words, 129));
    assert!(!dense::contains(&words, 128));
}

#[test]
fn conversions_keep_the_members() {
    let arr: Vec<u16> = vec![0, 1, 63, 64, 1000, 4096, 65535];
    let words = dense::from_sparse(&arr);
    assert_eq!(words.len(), 1024);
    for index in arr.iter() {
        assert!(dense::contains(&words, *index));
    }
    assert!(!dense::contains(&words, 2));
    assert!(!dense::contains(&words, 65534));
    assert_eq!(dense::to_sparse(&words), arr);
}

#[test]
fn conversion_of_nothing_and_of_everything() {
    let none: Vec<u16> = Vec::new();
    let words = dense::from_sparse(&none);
    assert!(dense::to_sparse(&words).is_empty());

    let all: Vec<u16> = (0..=65535u16).collect();
    let words = dense::from_sparse(&all);
    assert!(words.iter().all(|word| *word == u64::MAX));
    assert_eq!(dense::to_sparse(&words), all);
}
