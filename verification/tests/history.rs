use clip_history::HistoryStore;
use clip_history::StoreError;

#[test]
fn starts_empty() {
    let store = HistoryStore::new();
    assert_eq!(store.len(), 0);
    assert!(store.snapshot().is_empty());
}

#[test]
fn bounded_after_many_observes() {
    let mut store = HistoryStore::new();
    for i in 0..100 {
        store.observe(format!("entry {}", i));
        assert!(store.len() <= 10);
        assert!(store.snapshot().len() <= 10);
    }
}

#[test]
fn front_dedup_idempotent() {
    let mut store = HistoryStore::new();
    assert!(store.observe("x".to_string()));
    let before = store.snapshot();
    assert!(!store.observe("x".to_string()));
    assert_eq!(store.snapshot(), before);
}

#[test]
fn fifo_eviction_eleven_distinct() {
    let mut store = HistoryStore::new();
    for i in 0..11 {
        assert!(store.observe(format!("v{}", i)));
    }
    let expected: Vec<String> = (1..11).rev().map(|i| format!("v{}", i)).collect();
    assert_eq!(store.snapshot(), expected);
}

#[test]
fn non_adjacent_duplicates_preserved() {
    let mut store = HistoryStore::new();
    store.observe("a".to_string());
    store.observe("b".to_string());
    store.observe("a".to_string());
    assert_eq!(
        store.snapshot(),
        vec!["a".to_string(), "b".to_string(), "a".to_string()]
    );
}

#[test]
fn restore_front_returns_latest() {
    let mut store = HistoryStore::new();
    store.observe("older".to_string());
    store.observe("newest".to_string());
    assert_eq!(store.restore_request(0), Ok("newest".to_string()));
    assert_eq!(store.restore_request(1), Ok("older".to_string()));
}

#[test]
fn restore_out_of_range() {
    let mut store = HistoryStore::new();
    assert_eq!(store.restore_request(0), Err(StoreError::OutOfRange));
    store.observe("x".to_string());
    assert_eq!(store.restore_request(1), Err(StoreError::OutOfRange));
    assert_eq!(store.restore_request(1000), Err(StoreError::OutOfRange));
}

#[test]
fn from_entries_keeps_at_most_ten() {
    let entries: Vec<String> = (0..12).map(|i| format!("e{}", i)).collect();
    let store = HistoryStore::from_entries(entries.clone());
    assert_eq!(store.len(), 10);
    assert_eq!(store.snapshot(), entries[..10].to_vec());
}

#[test]
fn interleaved_observe_snapshot_stays_bounded() {
    let mut store = HistoryStore::new();
    for i in 0..5000 {
        store.observe(format!("tick {}", i % 13));
        let snap = store.snapshot();
        assert!(snap.len() <= 10);
        if i > 20 {
            assert_eq!(snap.len(), 10);
        }
    }
}
