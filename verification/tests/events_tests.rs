use systems_lab::events::{snapshot_due, EventStore, SnapshotStore, SNAPSHOT_INTERVAL};

#[test]
fn snapshot_policy_every_third_event() {
    assert_eq!(SNAPSHOT_INTERVAL, 3);
    assert!(!snapshot_due(0));
    assert!(!snapshot_due(1));
    assert!(!snapshot_due(2));
    assert!(snapshot_due(3));
    assert!(!snapshot_due(4));
    assert!(snapshot_due(6));
    assert!(snapshot_due(9));
}

#[test]
fn store_appends_in_order_per_stream() {
    let mut store: EventStore<u32> = EventStore::new();
    assert_eq!(store.version("a"), 0);
    assert!(store.load("a").is_empty());
    store.append("a", vec![1, 2]);
    store.append("b", vec![10]);
    store.append("a", vec![3]);
    assert_eq!(store.load("a"), &[1, 2, 3]);
    assert_eq!(store.load("b"), &[10]);
    assert_eq!(store.version("a"), 3);
    assert_eq!(store.version("b"), 1);
    assert_eq!(store.version("c"), 0);
}

#[test]
fn store_loads_from_version() {
    let mut store: EventStore<String> = EventStore::new();
    store.append("acc", vec!["open".to_string(), "deposit".to_string(), "withdraw".to_string()]);
    assert_eq!(store.load_from_version("acc", 0).len(), 3);
    assert_eq!(store.load_from_version("acc", 2), &["withdraw".to_string()]);
    assert!(store.load_from_version("acc", 3).is_empty());
    assert!(store.load_from_version("missing", 7).is_empty());
}

#[test]
fn empty_append_opens_stream_without_events() {
    let mut store: EventStore<u8> = EventStore::new();
    store.append("x", Vec::new());
    assert_eq!(store.version("x"), 0);
    assert!(store.load("x").is_empty());
}

#[test]
fn snapshot_replay_matches_full_replay() {
    // Balances as integer deltas: a snapshot at version 3 plus the later
    // events gives the same sum as all events.
    let mut store: EventStore<i64> = EventStore::new();
    let mut snapshots: SnapshotStore<i64> = SnapshotStore::new();
    for delta in [100, 50, -80, -200, 30] {
        store.append("acc", vec![delta]);
        let v = store.version("acc");
        if snapshot_due(v) {
            snapshots.save("acc", store.load("acc").iter().sum(), v);
        }
    }
    let snap = snapshots.load("acc").expect("snapshot at version 3");
    assert_eq!(snap.version, 3);
    assert_eq!(snap.state, 70);
    let replayed: i64 = snap.state + store.load_from_version("acc", snap.version).iter().sum::<i64>();
    let full: i64 = store.load("acc").iter().sum();
    assert_eq!(replayed, full);
    assert_eq!(full, -100);
}

#[test]
fn snapshot_save_replaces_earlier() {
    let mut snapshots: SnapshotStore<&str> = SnapshotStore::new();
    assert!(snapshots.load("a").is_none());
    snapshots.save("a", "first", 3);
    snapshots.save("b", "other", 3);
    snapshots.save("a", "second", 6);
    let a = snapshots.load("a").expect("saved");
    assert_eq!((a.state, a.version), ("second", 6));
    assert_eq!(snapshots.load("b").expect("saved").state, "other");
}
