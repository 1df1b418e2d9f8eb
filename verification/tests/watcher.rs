use cix::watcher::{ChangeKind, PendingChanges};

#[test]
fn content_events_become_pending() {
    let mut pending = PendingChanges::new();
    assert_eq!(pending.len(), 0);
    assert!(pending.record(ChangeKind::Modify, vec!["a.rs".to_string()]));
    assert!(pending.record(ChangeKind::Create, vec!["b.rs".to_string(), "c.rs".to_string()]));
    assert!(pending.record(ChangeKind::Remove, vec![]));
    assert!(!pending.record(ChangeKind::Other, vec!["d.rs".to_string()]));
    assert_eq!(pending.len(), 3);
}

#[test]
fn timeout_hands_over_pending_changes() {
    let mut pending = PendingChanges::new();
    assert_eq!(pending.take_due(), None);
    pending.record(ChangeKind::Modify, vec!["a.rs".to_string(), "a.rs".to_string()]);
    assert_eq!(pending.take_due(), Some(2));
    assert_eq!(pending.len(), 0);
    assert_eq!(pending.take_due(), None);
}

#[test]
fn rebuild_due_only_after_a_change_with_a_path() {
    let mut pending = PendingChanges::new();
    // Other events, and change events without paths, never make a rebuild due.
    assert!(!pending.record(ChangeKind::Other, vec!["a".to_string()]));
    assert!(pending.record(ChangeKind::Modify, vec![]));
    assert_eq!(pending.take_due(), None);
    // A run of events: only the change events' paths are pending, in order.
    pending.record(ChangeKind::Create, vec!["x".to_string()]);
    pending.record(ChangeKind::Other, vec!["y".to_string()]);
    pending.record(ChangeKind::Remove, vec!["z".to_string(), "w".to_string()]);
    assert_eq!(pending.len(), 3);
    assert_eq!(pending.take_due(), Some(3));
    // After the rebuild nothing is pending until the next change.
    assert_eq!(pending.take_due(), None);
}
