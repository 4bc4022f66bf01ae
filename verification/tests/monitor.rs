use clip_history::monitor::poll_step;
use clip_history::HistoryStore;

#[test]
fn failed_read_changes_nothing() {
    let mut store = HistoryStore::new();
    store.observe("kept".to_string());
    let before = store.snapshot();
    let persist = poll_step(&mut store, None);
    assert_eq!(persist, None);
    assert_eq!(store.snapshot(), before);
}

#[test]
fn new_text_is_stored_and_persisted() {
    let mut store = HistoryStore::new();
    let persist = poll_step(&mut store, Some("fresh".to_string()));
    assert_eq!(store.snapshot(), vec!["fresh".to_string()]);
    assert_eq!(persist, Some("[\"fresh\"]".to_string()));
}

#[test]
fn repeated_text_is_not_persisted_again() {
    let mut store = HistoryStore::new();
    let first = poll_step(&mut store, Some("same".to_string()));
    assert!(first.is_some());
    let second = poll_step(&mut store, Some("same".to_string()));
    assert_eq!(second, None);
    assert_eq!(store.snapshot(), vec!["same".to_string()]);
}

#[test]
fn persisted_text_reflects_whole_history() {
    let mut store = HistoryStore::new();
    poll_step(&mut store, Some("one".to_string()));
    let persist = poll_step(&mut store, Some("two".to_string()));
    assert_eq!(persist, Some("[\"two\",\"one\"]".to_string()));
}
