use ruft::storage::{
    sentinel_log_entry, HardState, MemoryStorage, Storage, StorageError, StorageState,
};
use ruft::utilis::types::{LogEntry, Snapshot, SnapshotMetadata};

fn entry(term: u64, command: &[u8]) -> LogEntry {
    LogEntry {
        term,
        command: command.to_vec(),
    }
}

#[test]
fn new_loads_default_hard_state_and_sentinel_log() {
    let storage = MemoryStorage::new();

    let state = storage.load().expect("load memory storage");

    assert_eq!(state.hard_state, HardState::default());
    assert_eq!(state.log, vec![sentinel_log_entry()]);
}

#[test]
fn save_hard_state_updates_loaded_state() {
    let mut storage = MemoryStorage::new();
    let hard_state = HardState {
        current_term: 3,
        voted_for: Some(2),
    };

    storage
        .save_hard_state(hard_state.clone())
        .expect("save hard state");

    assert_eq!(storage.load().expect("load").hard_state, hard_state);
}

#[test]
fn append_entries_keeps_order() {
    let mut storage = MemoryStorage::new();
    let entries = vec![entry(1, b"one"), entry(2, b"two")];

    storage.append_entries(&entries).expect("append entries");

    let state = storage.load().expect("load");
    assert_eq!(
        state.log,
        vec![sentinel_log_entry(), entry(1, b"one"), entry(2, b"two")]
    );
}

#[test]
fn append_empty_entries_is_noop() {
    let mut storage = MemoryStorage::new();

    storage.append_entries(&[]).expect("append empty entries");

    assert_eq!(
        storage.load().expect("load").log,
        vec![sentinel_log_entry()]
    );
}

#[test]
fn truncate_suffix_keeps_sentinel() {
    let mut storage = MemoryStorage::new();
    storage
        .append_entries(&[entry(1, b"one"), entry(1, b"two")])
        .expect("append entries");

    storage.truncate_suffix(1).expect("truncate suffix");

    assert_eq!(
        storage.load().expect("load").log,
        vec![sentinel_log_entry()]
    );
}

#[test]
fn truncate_suffix_zero_is_invalid() {
    let mut storage = MemoryStorage::new();

    let err = storage
        .truncate_suffix(0)
        .expect_err("truncate should fail");

    assert!(matches!(err, StorageError::InvalidOperation(_)));
}

#[test]
fn truncate_suffix_at_log_len_is_noop() {
    let mut storage = MemoryStorage::new();
    storage.append_entries(&[entry(1, b"one")]).expect("append");

    storage.truncate_suffix(2).expect("truncate at len");

    assert_eq!(
        storage.load().expect("load").log,
        vec![sentinel_log_entry(), entry(1, b"one")]
    );
}

#[test]
fn truncate_suffix_past_log_len_is_invalid() {
    let mut storage = MemoryStorage::new();

    let err = storage
        .truncate_suffix(2)
        .expect_err("truncate should fail");

    assert!(matches!(err, StorageError::InvalidOperation(_)));
}

#[test]
fn replace_suffix_replaces_existing_tail() {
    let mut storage = MemoryStorage::new();
    storage
        .append_entries(&[entry(1, b"one"), entry(1, b"old")])
        .expect("append entries");

    storage
        .replace_suffix(2, &[entry(2, b"new")])
        .expect("replace suffix");

    assert_eq!(
        storage.load().expect("load").log,
        vec![sentinel_log_entry(), entry(1, b"one"), entry(2, b"new")]
    );
}

#[test]
fn replace_suffix_at_log_len_appends() {
    let mut storage = MemoryStorage::new();
    storage.append_entries(&[entry(1, b"one")]).expect("append");

    storage
        .replace_suffix(2, &[entry(2, b"two")])
        .expect("replace at len");

    assert_eq!(
        storage.load().expect("load").log,
        vec![sentinel_log_entry(), entry(1, b"one"), entry(2, b"two")]
    );
}

#[test]
fn replace_suffix_zero_is_invalid() {
    let mut storage = MemoryStorage::new();

    let err = storage
        .replace_suffix(0, &[entry(1, b"one")])
        .expect_err("replace should fail");

    assert!(matches!(err, StorageError::InvalidOperation(_)));
}

#[test]
fn replace_suffix_past_log_len_is_invalid() {
    let mut storage = MemoryStorage::new();

    let err = storage
        .replace_suffix(2, &[entry(1, b"one")])
        .expect_err("replace should fail");

    assert!(matches!(err, StorageError::InvalidOperation(_)));
}

#[test]
fn sync_is_noop() {
    let mut storage = MemoryStorage::new();

    storage.sync().expect("sync");

    assert_eq!(
        storage.load().expect("load").log,
        vec![sentinel_log_entry()]
    );
}

#[test]
fn snapshot_and_compaction_update_loaded_state() {
    let mut storage = MemoryStorage::new();
    storage
        .append_entries(&[entry(1, b"one"), entry(2, b"two"), entry(3, b"three")])
        .expect("append");
    let snapshot = Snapshot {
        metadata: SnapshotMetadata {
            last_included_index: 2,
            last_included_term: 2,
        },
        data: b"state".to_vec(),
    };

    storage
        .save_snapshot(snapshot.clone())
        .expect("save snapshot");
    storage.compact_log(2, 2).expect("compact");

    let state = storage.load().expect("load");
    assert_eq!(state.snapshot, Some(snapshot));
    assert_eq!(state.log, vec![entry(2, b""), entry(3, b"three")]);
}

#[test]
fn with_state_rejects_missing_sentinel() {
    let state = StorageState {
        hard_state: HardState::default(),
        log: vec![entry(1, b"not sentinel")],
        snapshot: None,
    };

    let err = MemoryStorage::with_state(state).expect_err("state should fail validation");

    assert!(matches!(err, StorageError::InvalidOperation(_)));
}

#[test]
fn clone_keeps_state_and_base() {
    let mut storage = MemoryStorage::new();
    storage
        .append_entries(&[entry(1, b"one"), entry(1, b"two")])
        .expect("append");
    storage.compact_log(1, 1).expect("compact");

    let copy = storage.clone();

    assert_eq!(copy.load().expect("load"), storage.load().expect("load"));
    assert_eq!(copy.compact_base_index(), 1);
}
