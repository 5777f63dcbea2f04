use clapboard::eviction::{evictable, newest_first};
use clapboard::repository::{Listing, Repository, Representation, StoreError};

fn rep(format: &str, bytes: &[u8]) -> Representation {
    Representation { format: format.to_string(), bytes: bytes.to_vec() }
}

#[test]
fn new_repository_is_empty() {
    let repo = Repository::new();
    assert_eq!(repo.len(), 0);
    assert_eq!(repo.ids(), Vec::<u64>::new());
    assert!(repo.list().is_empty());
    assert!(!repo.contains(1));
}

#[test]
fn read_all_returns_what_was_put() {
    let mut repo = Repository::new();
    repo.put(10, "text/plain", b"hello".to_vec());
    repo.put(10, "text/html", b"<b>hello</b>".to_vec());
    repo.put(10, "image/png", vec![0x89, 0x50, 0x4e, 0x47, 0, 255]);
    assert_eq!(repo.len(), 1);
    assert_eq!(
        repo.read_all(10),
        Ok(vec![
            rep("text/plain", b"hello"),
            rep("text/html", b"<b>hello</b>"),
            rep("image/png", &[0x89, 0x50, 0x4e, 0x47, 0, 255]),
        ])
    );
}

#[test]
fn read_returns_one_representation() {
    let mut repo = Repository::new();
    repo.put(10, "text/plain", b"hello".to_vec());
    repo.put(11, "text/plain", b"world".to_vec());
    assert_eq!(repo.read(10, "text/plain"), Ok(b"hello".to_vec()));
    assert_eq!(repo.read(11, "text/plain"), Ok(b"world".to_vec()));
    assert_eq!(repo.read(10, "text/html"), Err(StoreError::NotFound));
    assert_eq!(repo.read(12, "text/plain"), Err(StoreError::NotFound));
    assert_eq!(repo.read_all(12), Err(StoreError::NotFound));
}

#[test]
fn putting_a_format_again_replaces_its_bytes() {
    let mut repo = Repository::new();
    repo.put(1, "text/plain", b"old".to_vec());
    repo.put(1, "text/html", b"h".to_vec());
    repo.put(1, "text/plain", b"new".to_vec());
    assert_eq!(repo.read_all(1), Ok(vec![rep("text/plain", b"new"), rep("text/html", b"h")]));
}

#[test]
fn tags_with_one_storage_key_share_a_blob() {
    let mut repo = Repository::new();
    repo.put(1, "text/plain", b"a".to_vec());
    repo.put(1, "text.plain", b"b".to_vec());
    assert_eq!(repo.read(1, "text/plain"), Ok(b"b".to_vec()));
    assert_eq!(repo.read_all(1), Ok(vec![rep("text/plain", b"b")]));
}

#[test]
fn listing_is_newest_first_whatever_the_order_of_puts() {
    let mut repo = Repository::new();
    repo.put(5, "TEXT", b"5".to_vec());
    repo.put(9, "text/plain", b"9".to_vec());
    repo.put(1, "STRING", b"1".to_vec());
    repo.put(7, "text/html", b"7".to_vec());
    repo.put(9, "image/png", b"p".to_vec());
    assert_eq!(repo.ids(), vec![9, 7, 5, 1]);
    assert_eq!(
        repo.list(),
        vec![
            Listing { id: 9, formats: vec!["text/plain".to_string(), "image/png".to_string()] },
            Listing { id: 7, formats: vec!["text/html".to_string()] },
            Listing { id: 5, formats: vec!["TEXT".to_string()] },
            Listing { id: 1, formats: vec!["STRING".to_string()] },
        ]
    );
    assert!(repo.contains(7));
    assert!(!repo.contains(6));
}

#[test]
fn delete_removes_the_entry_and_tolerates_its_absence() {
    let mut repo = Repository::new();
    repo.put(1, "TEXT", b"1".to_vec());
    repo.put(2, "TEXT", b"2".to_vec());
    assert!(repo.delete(1));
    assert!(!repo.delete(1));
    assert!(!repo.delete(42));
    assert_eq!(repo.ids(), vec![2]);
    assert_eq!(repo.read(1, "TEXT"), Err(StoreError::NotFound));
    assert_eq!(repo.read(2, "TEXT"), Ok(b"2".to_vec()));
}

#[test]
fn trim_keeps_the_newest() {
    let mut repo = Repository::new();
    for id in [3u64, 1, 4, 2, 5] {
        repo.put(id, "TEXT", vec![id as u8]);
    }
    assert_eq!(repo.trim(2), vec![3, 2, 1]);
    assert_eq!(repo.ids(), vec![5, 4]);
    assert_eq!(repo.read(4, "TEXT"), Ok(vec![4]));
    assert_eq!(repo.read(3, "TEXT"), Err(StoreError::NotFound));
    assert_eq!(repo.trim(2), Vec::<u64>::new());
    assert_eq!(repo.trim(5), Vec::<u64>::new());
    assert_eq!(repo.ids(), vec![5, 4]);
    assert_eq!(repo.trim(0), vec![5, 4]);
    assert_eq!(repo.len(), 0);
}

#[test]
fn identifiers_are_ordered_newest_first_and_once() {
    assert_eq!(newest_first(&vec![3, 9, 1, 9, 7, 3]), vec![9, 7, 3, 1]);
    assert_eq!(newest_first(&vec![]), Vec::<u64>::new());
    assert_eq!(newest_first(&vec![1, 2, 3]), vec![3, 2, 1]);
}

#[test]
fn the_oldest_names_are_evictable() {
    let names: Vec<String> = ["100", ".cache", "300", "200", "junk", "400"].iter().map(|s| s.to_string()).collect();
    assert_eq!(evictable(&names, 2), vec![200, 100]);
    assert_eq!(evictable(&names, 4), Vec::<u64>::new());
    assert_eq!(evictable(&names, 9), Vec::<u64>::new());
    assert_eq!(evictable(&names, 0), vec![400, 300, 200, 100]);
}

#[test]
fn numeric_order_not_text_order_decides() {
    let names: Vec<String> = ["9", "10", "100"].iter().map(|s| s.to_string()).collect();
    assert_eq!(evictable(&names, 1), vec![10, 9]);
}
