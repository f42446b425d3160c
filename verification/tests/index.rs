use buddy_alloc::index::Index;
use buddy_alloc::AllocError;

#[test]
fn insert_and_exact_search() {
    let mut idx = Index::new();
    assert_eq!(idx.insert(4096, 100), Ok(()));
    assert_eq!(idx.insert(4096, 50), Ok(()));
    assert_eq!(idx.insert(8192, 10), Ok(()));
    assert!(idx.contains(4096, 100));
    assert!(idx.contains(4096, 50));
    assert!(!idx.contains(4096, 10));
    assert!(!idx.contains(2048, 50));
}

#[test]
fn duplicate_key_is_refused() {
    let mut idx = Index::new();
    assert_eq!(idx.insert(4096, 100), Ok(()));
    assert_eq!(idx.insert(4096, 100), Err(AllocError::DuplicateBlock));
    // same size at another address is a different key
    assert_eq!(idx.insert(4096, 200), Ok(()));
}

#[test]
fn remove_absent_key_is_not_found() {
    let mut idx = Index::new();
    assert_eq!(idx.remove(4096, 100), Err(AllocError::NotFound));
    assert_eq!(idx.insert(4096, 100), Ok(()));
    assert_eq!(idx.remove(4096, 100), Ok(()));
    assert_eq!(idx.remove(4096, 100), Err(AllocError::NotFound));
}

#[test]
fn find_at_least_is_best_fit_with_lowest_address() {
    let mut idx = Index::new();
    assert_eq!(idx.insert(4096, 100), Ok(()));
    assert_eq!(idx.insert(4096, 50), Ok(()));
    assert_eq!(idx.insert(8192, 10), Ok(()));
    // smallest adequate size wins; the tie goes to the lowest address
    assert_eq!(idx.find_at_least(4096), Some((4096, 50)));
    assert_eq!(idx.find_at_least(5000), Some((8192, 10)));
    assert_eq!(idx.find_at_least(8192), Some((8192, 10)));
    assert_eq!(idx.find_at_least(9000), None);
    assert_eq!(idx.find_at_least(1), Some((4096, 50)));
}

#[test]
fn max_key_reports_the_largest_size() {
    let mut idx = Index::new();
    assert_eq!(idx.max_key(), None);
    assert_eq!(idx.insert(4096, 300), Ok(()));
    assert_eq!(idx.insert(16384, 5), Ok(()));
    assert_eq!(idx.insert(8192, 7), Ok(()));
    assert_eq!(idx.max_key(), Some((16384, 5)));
}

#[test]
fn many_inserts_and_removes_keep_searches_exact() {
    let mut idx = Index::new();
    let mut i: usize = 0;
    while i < 200 {
        assert_eq!(idx.insert(4096 + (i % 7) * 4096, i * 64), Ok(()));
        i += 1;
    }
    let mut i: usize = 0;
    while i < 200 {
        assert!(idx.contains(4096 + (i % 7) * 4096, i * 64));
        i += 1;
    }
    // remove every other entry and re-check
    let mut i: usize = 0;
    while i < 200 {
        assert_eq!(idx.remove(4096 + (i % 7) * 4096, i * 64), Ok(()));
        i += 2;
    }
    let mut i: usize = 0;
    while i < 200 {
        assert_eq!(idx.contains(4096 + (i % 7) * 4096, i * 64), i % 2 == 1);
        i += 1;
    }
}
