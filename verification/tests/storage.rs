use raftmetrics::raft::entry::{Entry, EntryType, HardState};
use raftmetrics::raft::log::RaftLog;
use raftmetrics::raft::storage::{MemStorage, StorageError};

fn entry(index: u64, term: u64, data: &[u8]) -> Entry {
    Entry { entry_type: EntryType::EntryNormal, term, index, data: data.to_vec() }
}

fn store_with(terms: &[u64]) -> MemStorage {
    let mut store = MemStorage::new();
    let batch: Vec<Entry> =
        terms.iter().enumerate().map(|(i, term)| entry(i as u64 + 1, *term, b"x")).collect();
    assert_eq!(store.append(&batch), Ok(()));
    store
}

fn indices(entries: &[Entry]) -> Vec<u64> {
    entries.iter().map(|e| e.index).collect()
}

fn terms(entries: &[Entry]) -> Vec<u64> {
    entries.iter().map(|e| e.term).collect()
}

#[test]
fn empty_store_bounds() {
    let store = MemStorage::new();
    assert_eq!(store.first_index(), 1);
    assert_eq!(store.last_index(), 0);
    assert_eq!(store.term(0), Ok(0));
    assert_eq!(store.term(1), Err(StorageError::Unavailable));
    let state = store.initial_state();
    assert_eq!(state.hard_state, HardState { term: 0, vote: None, commit: 0 });
    assert!(state.conf_state.is_empty());
}

#[test]
fn entries_of_an_empty_store() {
    let store = MemStorage::new();
    assert_eq!(store.entries(1, 1, None).map(|e| e.len()), Ok(0));
    assert_eq!(store.entries(1, 2, None).err(), Some(StorageError::Unavailable));
    assert_eq!(store.entries(0, 1, None).err(), Some(StorageError::Compacted));
}

#[test]
fn entries_returns_the_range_in_order() {
    let store = store_with(&[1, 1, 2, 3, 3]);
    assert_eq!(store.first_index(), 1);
    assert_eq!(store.last_index(), 5);
    let found = store.entries(2, 5, None).unwrap();
    assert_eq!(indices(&found), vec![2, 3, 4]);
    assert_eq!(terms(&found), vec![1, 2, 3]);
    assert_eq!(indices(&store.entries(1, 6, None).unwrap()), vec![1, 2, 3, 4, 5]);
    assert_eq!(store.entries(3, 3, None).unwrap().len(), 0);
    assert_eq!(store.entries(4, 2, None).unwrap().len(), 0);
}

#[test]
fn entries_fails_outside_the_log() {
    let store = store_with(&[1, 1, 2]);
    assert_eq!(store.entries(0, 2, None).err(), Some(StorageError::Compacted));
    assert_eq!(store.entries(1, 5, None).err(), Some(StorageError::Unavailable));
    assert_eq!(store.entries(0, 9, None).err(), Some(StorageError::Compacted));
    assert!(store.entries(1, 4, None).is_ok());
}

#[test]
fn entries_stops_at_the_size_limit() {
    let store = store_with(&[1, 1, 2, 3, 3]);
    // Each entry: term 2 bytes, index 2 bytes, payload 1 + 1 + 1 bytes.
    assert_eq!(entry(1, 1, b"x").encoded_len(), 7);
    assert_eq!(indices(&store.entries(1, 6, Some(21)).unwrap()), vec![1, 2, 3]);
    assert_eq!(indices(&store.entries(1, 6, Some(20)).unwrap()), vec![1, 2]);
    assert_eq!(indices(&store.entries(1, 6, Some(7)).unwrap()), vec![1]);
    assert_eq!(store.entries(1, 6, Some(6)).unwrap().len(), 0);
    assert_eq!(store.entries(1, 6, Some(0)).unwrap().len(), 0);
    assert_eq!(indices(&store.entries(1, 6, Some(u64::MAX)).unwrap()), vec![1, 2, 3, 4, 5]);
    assert_eq!(store.entries(0, 6, Some(1)).err(), Some(StorageError::Compacted));
}

#[test]
fn encoded_len_counts_protobuf_bytes() {
    let empty = Entry { entry_type: EntryType::EntryNormal, term: 0, index: 0, data: vec![] };
    assert_eq!(empty.encoded_len(), 0);
    assert_eq!(entry(1, 0, b"").encoded_len(), 2);
    assert_eq!(entry(127, 0, b"").encoded_len(), 2);
    assert_eq!(entry(128, 0, b"").encoded_len(), 3);
    assert_eq!(entry(16_383, 0, b"").encoded_len(), 3);
    assert_eq!(entry(16_384, 0, b"").encoded_len(), 4);
    assert_eq!(entry(u64::MAX, 0, b"").encoded_len(), 11);
    assert_eq!(entry(0, 300, b"").encoded_len(), 3);
    assert_eq!(entry(0, 0, &[7u8; 127]).encoded_len(), 1 + 1 + 127);
    assert_eq!(entry(0, 0, &[7u8; 128]).encoded_len(), 1 + 2 + 128);
    let change = Entry { entry_type: EntryType::EntryConfChange, term: 5, index: 9, data: vec![1] };
    assert_eq!(change.encoded_len(), 2 + 2 + 2 + 3);
}

#[test]
fn term_of_each_index() {
    let store = store_with(&[1, 1, 2]);
    assert_eq!(store.term(0), Ok(0));
    assert_eq!(store.term(1), Ok(1));
    assert_eq!(store.term(3), Ok(2));
    assert_eq!(store.term(4), Err(StorageError::Unavailable));
}

#[test]
fn entry_lookup() {
    let store = store_with(&[4, 5]);
    assert_eq!(store.entry(2).map(|e| e.term), Some(5));
    assert!(store.entry(0).is_none());
    assert!(store.entry(3).is_none());
}

#[test]
fn append_extends_the_tail() {
    let mut store = store_with(&[1, 1]);
    assert_eq!(store.append(&vec![entry(3, 2, b"a"), entry(4, 2, b"b")]), Ok(()));
    assert_eq!(terms(&store.entries(1, 5, None).unwrap()), vec![1, 1, 2, 2]);
    assert_eq!(store.append(&vec![]), Ok(()));
    assert_eq!(store.last_index(), 4);
}

#[test]
fn append_drops_what_conflicts() {
    let mut store = store_with(&[1, 1, 1, 1]);
    assert_eq!(store.append(&vec![entry(2, 3, b"n")]), Ok(()));
    let all = store.entries(1, store.last_index() + 1, None).unwrap();
    assert_eq!(indices(&all), vec![1, 2]);
    assert_eq!(terms(&all), vec![1, 3]);
    assert_eq!(all[1].data, b"n".to_vec());
}

#[test]
fn append_refuses_gaps_and_compacted_indices() {
    let mut store = store_with(&[1, 1]);
    assert_eq!(store.append(&vec![entry(4, 1, b"")]), Err(StorageError::Unavailable));
    assert_eq!(store.append(&vec![entry(0, 1, b"")]), Err(StorageError::Compacted));
    assert_eq!(
        store.append(&vec![entry(3, 1, b""), entry(5, 1, b"")]),
        Err(StorageError::StorageFailure)
    );
    assert_eq!(store.append(&vec![entry(u64::MAX, 1, b"")]), Err(StorageError::StorageFailure));
    assert_eq!(store.last_index(), 2);
    assert_eq!(terms(&store.entries(1, 3, None).unwrap()), vec![1, 1]);
}

#[test]
fn hard_state_and_conf_state_are_recorded() {
    let mut store = MemStorage::new();
    let hs = HardState { term: 7, vote: Some(2), commit: 0 };
    store.set_hard_state(hs);
    store.set_conf_state(vec![1, 2, 3]);
    let state = store.initial_state();
    assert_eq!(state.hard_state, hs);
    assert_eq!(store.hard_state(), hs);
    assert_eq!(state.conf_state, vec![1, 2, 3]);
}

#[test]
fn snapshot_covers_only_up_to_its_index() {
    let store = store_with(&[1, 1]);
    let snapshot = store.snapshot(0, 2).unwrap();
    assert_eq!(snapshot.metadata.index, 0);
    assert_eq!(snapshot.metadata.term, 0);
    assert_eq!(
        store.snapshot(1, 2).err(),
        Some(StorageError::SnapshotTemporarilyUnavailable)
    );
}

#[test]
fn log_merges_a_leaders_batch() {
    let mut log = RaftLog::new(store_with(&[1, 1, 2])).unwrap();
    assert_eq!(log.last_index(), 3);
    assert_eq!(log.last_term(), 2);
    assert_eq!(log.term(2), Some(1));
    assert_eq!(log.term(4), None);

    // The batch does not fit: the entry before it has another term.
    assert_eq!(log.maybe_append(3, 1, 3, &vec![entry(4, 2, b"")]), None);
    assert_eq!(log.last_index(), 3);

    // The batch is held already: nothing changes but the commit position.
    assert_eq!(log.maybe_append(1, 1, 2, &vec![entry(2, 1, b""), entry(3, 2, b"")]), Some(3));
    assert_eq!(log.last_index(), 3);
    assert_eq!(log.committed(), 2);
    assert!(!log.has_unstable());

    // The batch conflicts at index 3: the log is cut there.
    assert_eq!(log.maybe_append(2, 1, 2, &vec![entry(3, 3, b"n"), entry(4, 3, b"m")]), Some(4));
    assert_eq!(log.last_index(), 4);
    assert_eq!(log.term(3), Some(3));
    assert_eq!(indices(&log.unstable_entries()), vec![3, 4]);
    assert_eq!(indices(&log.entries_from(2)), vec![2, 3, 4]);

    // A batch that would replace a committed entry is refused.
    assert_eq!(log.maybe_append(1, 1, 2, &vec![entry(2, 9, b"")]), None);
    assert_eq!(log.term(2), Some(1));

    // A batch with a gap in its indices is refused.
    assert_eq!(log.maybe_append(4, 3, 2, &vec![entry(6, 3, b"")]), None);

    log.persist(HardState { term: 3, vote: None, commit: 2 });
    assert!(!log.has_unstable());
    assert_eq!(terms(&log.store().entries(1, 5, None).unwrap()), vec![1, 1, 3, 3]);
    assert_eq!(log.store().hard_state().term, 3);
}

#[test]
fn log_commit_and_apply_positions() {
    let mut log = RaftLog::new(store_with(&[1, 1, 1])).unwrap();
    assert_eq!(log.committed(), 0);
    log.commit_to(2);
    assert_eq!(log.committed(), 2);
    log.commit_to(1);
    assert_eq!(log.committed(), 2);
    log.commit_to(9);
    assert_eq!(log.committed(), 3);
    assert_eq!(indices(&log.next_committed_entries()), vec![1, 2, 3]);
    log.applied_to(2);
    assert_eq!(log.applied(), 2);
    assert_eq!(indices(&log.next_committed_entries()), vec![3]);
    log.applied_to(7);
    assert_eq!(log.applied(), 3);
    log.applied_to(1);
    assert_eq!(log.applied(), 3);
    assert!(log.is_up_to_date(3, 1));
    assert!(log.is_up_to_date(1, 2));
    assert!(!log.is_up_to_date(2, 1));
    assert!(!log.is_up_to_date(9, 0));
}

#[test]
fn compaction_moves_the_first_index() {
    let mut store = store_with(&[1, 1, 2, 3, 3]);
    assert_eq!(store.compact(0, vec![]), Err(StorageError::SnapshotOutOfDate));
    assert_eq!(store.compact(6, vec![]), Err(StorageError::Unavailable));
    assert_eq!(store.compact(3, b"state".to_vec()), Ok(()));
    assert_eq!(store.first_index(), 4);
    assert_eq!(store.last_index(), 5);
    assert_eq!(store.term(2), Err(StorageError::Compacted));
    assert_eq!(store.term(3), Ok(2));
    assert_eq!(store.term(4), Ok(3));
    assert_eq!(store.term(6), Err(StorageError::Unavailable));
    assert_eq!(store.entries(3, 5, None).err(), Some(StorageError::Compacted));
    assert_eq!(indices(&store.entries(4, 6, None).unwrap()), vec![4, 5]);
    assert!(store.entry(3).is_none());
    let snapshot = store.snapshot(3, 1).unwrap();
    assert_eq!((snapshot.metadata.index, snapshot.metadata.term), (3, 2));
    assert_eq!(snapshot.data, b"state".to_vec());
    assert_eq!(store.snapshot(4, 1).err(), Some(StorageError::SnapshotTemporarilyUnavailable));
    assert_eq!(store.compact(3, vec![]), Err(StorageError::SnapshotOutOfDate));
    assert_eq!(store.append(&vec![entry(3, 9, b"")]), Err(StorageError::Compacted));
    assert_eq!(store.compact(5, vec![]), Ok(()));
    assert_eq!(store.first_index(), 6);
    assert_eq!(store.last_index(), 5);
    assert_eq!(store.entries(6, 6, None).map(|e| e.len()), Ok(0));
}

#[test]
fn installed_snapshot_replaces_the_log() {
    let mut store = store_with(&[1, 1, 2]);
    let mut snapshot = store.snapshot(0, 1).unwrap();
    assert_eq!(store.apply_snapshot(snapshot.clone()), Err(StorageError::SnapshotOutOfDate));
    snapshot.metadata.index = u64::MAX;
    assert_eq!(store.apply_snapshot(snapshot.clone()), Err(StorageError::StorageFailure));
    snapshot.metadata.index = 10;
    snapshot.metadata.term = 4;
    snapshot.metadata.conf_state = vec![1, 2];
    assert_eq!(store.apply_snapshot(snapshot), Ok(()));
    assert_eq!(store.first_index(), 11);
    assert_eq!(store.last_index(), 10);
    assert_eq!(store.term(10), Ok(4));
    assert_eq!(store.initial_state().conf_state, vec![1, 2]);
    assert_eq!(store.append(&vec![entry(11, 4, b"")]), Ok(()));
    assert_eq!(store.last_index(), 11);
}
