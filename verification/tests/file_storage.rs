use ruft::events::Event;
use ruft::rpc::append_entries::AppendEntriesArgs;
use ruft::ruft::election::VoteTally;
use ruft::ruft::{Role, Ruft};
use ruft::storage::file::{storage_files, WalRewrite};
use ruft::storage::format::{
    decode_record, encode_hard_state, encode_record, encode_snapshot, load_hard_state,
    load_snapshot, WalRecord,
};
use ruft::storage::utils::{default_storage_dir, node_id_hash, StoragePath};
use ruft::storage::wal::{apply_record, frame_record, load_wal, wal_header_bytes, WalRepair};
use ruft::storage::{
    checksum, node_storage_dir, sentinel_log_entry, FileStorage, HardState, SavedState, Storage,
    StorageError, StorageResult, StorageState,
};
use ruft::utilis::types::{LogEntry, NodeId, Snapshot, SnapshotMetadata};
use std::cell::RefCell;
use std::collections::HashMap;
use std::rc::Rc;

/// Files by their path.
type Files = Rc<RefCell<HashMap<String, Vec<u8>>>>;

/// File storage whose files are kept in memory.
struct DiskStorage {
    files: Files,
    wal: String,
    hard_state: String,
    snapshot: String,
    mirror: FileStorage,
}

fn path(path: &StoragePath) -> String {
    path.components.join("/")
}

fn rewrite(files: &Files, wal: &str, rewrite: WalRewrite) -> StorageResult<()> {
    files.borrow_mut().insert(wal.to_string(), rewrite.contents);
    rewrite.outcome
}

impl DiskStorage {
    fn open(files: &Files, root: &StoragePath, node_id: NodeId) -> StorageResult<Self> {
        let paths = storage_files(root, node_id);
        let (wal, hard_state, snapshot) = (
            path(&paths.wal),
            path(&paths.hard_state),
            path(&paths.snapshot),
        );
        let stored_hard_state = load_hard_state(files.borrow().get(&hard_state).cloned())?;
        let stored_snapshot = load_snapshot(files.borrow().get(&snapshot).cloned())?;
        let bytes = files.borrow().get(&wal).cloned().unwrap_or_default();
        let replay = load_wal(&bytes)?;
        match replay.repair {
            WalRepair::Keep => {}
            WalRepair::Reset => {
                files.borrow_mut().insert(wal.clone(), wal_header_bytes());
            }
            WalRepair::Truncate { len } => {
                let kept = bytes[..len as usize].to_vec();
                files.borrow_mut().insert(wal.clone(), kept);
            }
        }
        let (mirror, contents) = FileStorage::open(stored_hard_state, stored_snapshot, replay)?;
        if let Some(contents) = contents {
            rewrite(files, &wal, contents)?;
        }
        Ok(DiskStorage {
            files: files.clone(),
            wal,
            hard_state,
            snapshot,
            mirror,
        })
    }

    fn write(&self, path: &str, bytes: Vec<u8>) {
        self.files.borrow_mut().insert(path.to_string(), bytes);
    }

    fn add_to_wal(&self, frame: Vec<u8>) {
        self.files
            .borrow_mut()
            .get_mut(&self.wal)
            .expect("wal")
            .extend(frame);
    }
}

impl Storage for DiskStorage {
    // The five that follow exist in proofs only.
    fn state(&self) -> SavedState {
        unreachable!()
    }

    fn base(&self) -> u64 {
        unreachable!()
    }

    fn valid(&self) -> bool {
        unreachable!()
    }

    fn reliable(&self) -> bool {
        unreachable!()
    }

    fn flushed(&self) -> bool {
        unreachable!()
    }

    fn load(&self) -> StorageResult<StorageState> {
        self.mirror.load()
    }

    fn save_hard_state(&mut self, hard_state: HardState) -> StorageResult<()> {
        let bytes = self.mirror.save_hard_state(&hard_state)?;
        self.write(&self.hard_state, bytes);
        self.mirror.hard_state_saved(hard_state);
        Ok(())
    }

    fn append_entries(&mut self, entries: &[LogEntry]) -> StorageResult<()> {
        if let Some(frame) = self.mirror.append_entries(entries)? {
            self.add_to_wal(frame);
            self.mirror.entries_appended(entries);
        }
        Ok(())
    }

    fn truncate_suffix(&mut self, first_index_to_remove: u64) -> StorageResult<()> {
        let frame = self.mirror.truncate_suffix(first_index_to_remove)?;
        self.add_to_wal(frame);
        self.mirror.suffix_replaced(first_index_to_remove, &[]);
        Ok(())
    }

    fn replace_suffix(
        &mut self,
        first_index_to_remove: u64,
        entries: &[LogEntry],
    ) -> StorageResult<()> {
        let frame = self.mirror.replace_suffix(first_index_to_remove, entries)?;
        self.add_to_wal(frame);
        self.mirror.suffix_replaced(first_index_to_remove, entries);
        Ok(())
    }

    fn sync(&mut self) -> StorageResult<()> {
        Ok(())
    }

    fn save_snapshot(&mut self, snapshot: Snapshot) -> StorageResult<()> {
        let bytes = self.mirror.save_snapshot(&snapshot)?;
        self.write(&self.snapshot, bytes);
        self.mirror.snapshot_saved(snapshot);
        Ok(())
    }

    fn compact_log(&mut self, index: u64, term: u64) -> StorageResult<()> {
        let contents = self.mirror.compact_log(index, term)?;
        rewrite(&self.files, &self.wal, contents)
    }
}

fn entry(term: u64, command: &[u8]) -> LogEntry {
    LogEntry {
        term,
        command: command.to_vec(),
    }
}

const TEST_NODE_ID: NodeId = 42;

fn root() -> StoragePath {
    StoragePath::new("data")
}

fn temp_files() -> Files {
    Rc::new(RefCell::new(HashMap::new()))
}

fn open_storage(files: &Files) -> StorageResult<DiskStorage> {
    DiskStorage::open(files, &root(), TEST_NODE_ID)
}

fn wal_path() -> String {
    path(&storage_files(&root(), TEST_NODE_ID).wal)
}

fn hard_state_path() -> String {
    path(&storage_files(&root(), TEST_NODE_ID).hard_state)
}

fn snapshot_path() -> String {
    path(&storage_files(&root(), TEST_NODE_ID).snapshot)
}

fn snapshot(index: u64, term: u64, data: &[u8]) -> Snapshot {
    Snapshot {
        metadata: SnapshotMetadata {
            last_included_index: index,
            last_included_term: term,
        },
        data: data.to_vec(),
    }
}

fn corruption(result: StorageResult<DiskStorage>) -> String {
    match result {
        Err(StorageError::Corruption(message)) => message,
        Err(err) => panic!("unexpected error {err:?}"),
        Ok(_) => panic!("corruption should fail"),
    }
}

#[test]
fn open_empty_directory_loads_default_state() {
    let files = temp_files();
    let storage = open_storage(&files).expect("open file storage");

    let state = storage.load().expect("load");
    assert_eq!(state.hard_state, HardState::default());
    assert_eq!(state.log, vec![sentinel_log_entry()]);
}

#[test]
fn open_uses_hashed_node_id_directory() {
    let files = temp_files();
    let node_id = 7;
    DiskStorage::open(&files, &root(), node_id).expect("open file storage");

    let paths = storage_files(&root(), node_id);
    assert_eq!(
        paths.root_dir.components,
        node_storage_dir(&root(), node_id).components
    );
    assert!(path(&paths.root_dir).ends_with(&format!("node-{:08x}", node_id_hash(node_id))));
    assert_eq!(path(&paths.wal_dir), format!("{}/wal", path(&paths.root_dir)));
    assert_eq!(path(&paths.wal), format!("{}/node.wal", path(&paths.wal_dir)));
    assert!(files.borrow().contains_key(&path(&paths.wal)));
    assert!(!files.borrow().contains_key("data/wal"));
}

#[test]
fn hard_state_survives_reopen() {
    let files = temp_files();
    let hard_state = HardState {
        current_term: 7,
        voted_for: Some(3),
    };

    {
        let mut storage = open_storage(&files).expect("open file storage");
        storage
            .save_hard_state(hard_state.clone())
            .expect("save hard state");
    }

    assert!(files.borrow().contains_key(&hard_state_path()));

    let storage = open_storage(&files).expect("reopen file storage");
    assert_eq!(storage.load().expect("load").hard_state, hard_state);
}

#[test]
fn appended_entries_survive_reopen() {
    let files = temp_files();
    let entries = vec![entry(1, b"one"), entry(2, b"two")];

    {
        let mut storage = open_storage(&files).expect("open file storage");
        storage.append_entries(&entries).expect("append");
        storage.sync().expect("sync");
    }

    let storage = open_storage(&files).expect("reopen file storage");
    assert_eq!(
        storage.load().expect("load").log,
        vec![sentinel_log_entry(), entry(1, b"one"), entry(2, b"two")]
    );
}

#[test]
fn snapshot_and_compacted_log_survive_reopen_without_old_wal_prefix() {
    let files = temp_files();
    let snap = snapshot(2, 2, b"state");

    {
        let mut storage = open_storage(&files).expect("open file storage");
        storage
            .append_entries(&[entry(1, b"one"), entry(2, b"two"), entry(3, b"three")])
            .expect("append");
        storage.save_snapshot(snap.clone()).expect("save snapshot");
        storage.compact_log(2, 2).expect("compact");
        storage.sync().expect("sync");
    }

    let storage = open_storage(&files).expect("reopen file storage");
    let state = storage.load().expect("load");
    assert_eq!(state.snapshot, Some(snap));
    assert_eq!(state.log, vec![entry(2, b""), entry(3, b"three")]);
}

#[test]
fn reopen_recovers_snapshot_saved_before_wal_compaction() {
    let files = temp_files();
    let snap = snapshot(2, 2, b"state");

    {
        let mut storage = open_storage(&files).expect("open file storage");
        storage
            .append_entries(&[entry(1, b"one"), entry(2, b"two"), entry(3, b"three")])
            .expect("append");
        storage.sync().expect("sync WAL before simulated crash");
        storage.save_snapshot(snap.clone()).expect("save snapshot");
    }

    let storage = open_storage(&files).expect("reopen after simulated crash");
    let state = storage.load().expect("load");
    assert_eq!(state.snapshot, Some(snap));
    assert_eq!(state.log, vec![entry(2, b""), entry(3, b"three")]);
    drop(storage);

    let storage = open_storage(&files).expect("reopen repaired WAL");
    assert_eq!(
        storage.load().expect("load").log,
        vec![entry(2, b""), entry(3, b"three")]
    );
}

#[test]
fn reopen_recovers_later_snapshot_saved_before_wal_compaction() {
    let files = temp_files();

    {
        let mut storage = open_storage(&files).expect("open file storage");
        storage
            .append_entries(&[
                entry(1, b"one"),
                entry(2, b"two"),
                entry(3, b"three"),
                entry(4, b"four"),
            ])
            .expect("append");
        storage
            .save_snapshot(snapshot(2, 2, b"state at two"))
            .expect("save first snapshot");
        storage.compact_log(2, 2).expect("compact first snapshot");
        storage.sync().expect("sync first compaction");
        storage
            .save_snapshot(snapshot(3, 3, b"state at three"))
            .expect("save second snapshot");
    }

    let storage = open_storage(&files).expect("reopen after second simulated crash");
    let state = storage.load().expect("load");
    assert_eq!(state.snapshot, Some(snapshot(3, 3, b"state at three")));
    assert_eq!(state.log, vec![entry(3, b""), entry(4, b"four")]);
}

#[test]
fn replace_suffix_survives_reopen() {
    let files = temp_files();

    {
        let mut storage = open_storage(&files).expect("open file storage");
        storage
            .append_entries(&[entry(1, b"keep"), entry(1, b"stale")])
            .expect("append");
        storage
            .replace_suffix(2, &[entry(2, b"new")])
            .expect("replace");
        storage.sync().expect("sync");
    }

    let storage = open_storage(&files).expect("reopen file storage");
    assert_eq!(
        storage.load().expect("load").log,
        vec![sentinel_log_entry(), entry(1, b"keep"), entry(2, b"new")]
    );
}

#[test]
fn truncate_suffix_survives_reopen_and_validates_bounds() {
    let files = temp_files();
    let mut storage = open_storage(&files).expect("open file storage");
    storage
        .append_entries(&[entry(1, b"one"), entry(1, b"two")])
        .expect("append");

    assert!(matches!(
        storage.truncate_suffix(0),
        Err(StorageError::InvalidOperation(_))
    ));
    assert!(matches!(
        storage.truncate_suffix(4),
        Err(StorageError::InvalidOperation(_))
    ));

    storage.truncate_suffix(1).expect("truncate");
    storage.sync().expect("sync");
    drop(storage);

    let storage = open_storage(&files).expect("reopen file storage");
    assert_eq!(
        storage.load().expect("load").log,
        vec![sentinel_log_entry()]
    );
}

#[test]
fn partial_tail_record_is_truncated_on_reopen() {
    let files = temp_files();

    {
        let mut storage = open_storage(&files).expect("open file storage");
        storage.append_entries(&[entry(1, b"one")]).expect("append");
        storage.sync().expect("sync");
    }

    let whole = files.borrow()[&wal_path()].clone();
    {
        let mut borrowed = files.borrow_mut();
        let wal = borrowed.get_mut(&wal_path()).expect("open wal");
        wal.extend(42_u32.to_le_bytes());
        wal.extend(7_u16.to_le_bytes());
    }

    let storage = open_storage(&files).expect("reopen truncates tail");
    assert_eq!(
        storage.load().expect("load").log,
        vec![sentinel_log_entry(), entry(1, b"one")]
    );

    let len_after = files.borrow()[&wal_path()].len();
    assert!(len_after >= wal_header_bytes().len());
    assert_eq!(files.borrow()[&wal_path()], whole);
}

#[test]
fn complete_crc_mismatch_is_corruption() {
    let files = temp_files();

    {
        let mut storage = open_storage(&files).expect("open file storage");
        storage.append_entries(&[entry(1, b"one")]).expect("append");
        storage.sync().expect("sync");
    }

    let payload_offset = wal_header_bytes().len() + 8;
    files.borrow_mut().get_mut(&wal_path()).expect("read wal")[payload_offset] ^= 0x01;

    let message = corruption(open_storage(&files));
    assert_eq!(message, "WAL record CRC mismatch at offset 7");
}

#[test]
fn new_with_persistent_flag_restores_from_default_storage_dir() {
    let node_id = 10_001;
    let files = temp_files();
    let storage_dir = default_storage_dir(node_id);
    assert_eq!(storage_dir.components, vec!["ruft-data", "node-10001"]);

    {
        let mut storage =
            DiskStorage::open(&files, &storage_dir, node_id).expect("open default file storage");
        storage
            .save_hard_state(HardState {
                current_term: 6,
                voted_for: Some(2),
            })
            .expect("save hard state");
        storage
            .append_entries(&[entry(3, b"default")])
            .expect("append entries");
        storage.sync().expect("sync");
    }

    let storage =
        DiskStorage::open(&files, &default_storage_dir(node_id), node_id).expect("open default");
    let node = Ruft::new_with_storage(node_id, vec![node_id, 2], storage)
        .expect("load persistent node from default dir");

    assert_eq!(node.current_term, 6);
    assert_eq!(node.voted_for, Some(2));
    assert_eq!(node.log, vec![entry(0, b""), entry(3, b"default")]);
    assert_eq!(node.next_index[&2], 2);
}

#[test]
fn new_restores_persistent_state_from_file_storage() {
    let files = temp_files();
    {
        let mut storage = open_storage(&files).expect("open file storage");
        storage
            .save_hard_state(HardState {
                current_term: 4,
                voted_for: Some(3),
            })
            .expect("save hard state");
        storage
            .append_entries(&[entry(2, b"old"), entry(4, b"new")])
            .expect("append entries");
        storage.sync().expect("sync");
    }

    let storage = open_storage(&files).expect("reopen file storage");
    let node = Ruft::new_with_storage(1, vec![1, 2, 3], storage).expect("load file storage");

    assert_eq!(node.current_term, 4);
    assert_eq!(node.voted_for, Some(3));
    assert_eq!(node.log.len(), 3);
    assert_eq!(node.next_index[&2], 3);
    assert_eq!(node.next_index[&3], 3);
}

#[test]
fn leader_append_log_persists_entry_to_file_storage() {
    let files = temp_files();
    let storage = open_storage(&files).expect("open file storage");
    let mut node = Ruft::new_with_storage(1, vec![1, 2, 3], storage).expect("load file storage");
    node.current_term = 1;
    node.role = Role::Leader;

    assert!(node.on_append_log(b"entry".to_vec()));
    drop(node);

    let storage = open_storage(&files).expect("reopen file storage");
    assert_eq!(
        storage.load().expect("load storage").log,
        vec![entry(0, b""), entry(1, b"entry")]
    );
}

#[test]
fn append_entries_conflict_replacement_persists_to_file_storage() {
    let files = temp_files();
    {
        let mut storage = open_storage(&files).expect("open file storage");
        storage
            .save_hard_state(HardState {
                current_term: 1,
                voted_for: None,
            })
            .expect("save hard state");
        storage
            .append_entries(&[entry(1, b"keep"), entry(1, b"stale")])
            .expect("append entries");
        storage.sync().expect("sync");
    }

    let storage = open_storage(&files).expect("reopen file storage");
    let mut node = Ruft::new_with_storage(1, vec![1, 2, 3], storage).expect("load file storage");
    let reply = node.handle_append_entries(AppendEntriesArgs {
        term: 2,
        leader_id: 2,
        prev_log_index: 1,
        prev_log_term: 1,
        entries: vec![entry(2, b"replace")],
        leader_commit: 0,
    });

    assert!(reply.success);
    drop(node);

    let storage = open_storage(&files).expect("reopen file storage");
    assert_eq!(
        storage.load().expect("load storage").log,
        vec![entry(0, b""), entry(1, b"keep"), entry(2, b"replace")]
    );
}

#[test]
fn persistent_node_restores_state_after_restart() {
    let node_ids = vec![20_001, 20_002, 20_003];
    let files = temp_files();
    let start = |id: NodeId| {
        let storage = DiskStorage::open(&files, &default_storage_dir(id), id).expect("open");
        Ruft::new_with_storage(id, node_ids.clone(), storage).expect("start persistent node")
    };
    let mut nodes: Vec<Ruft<DiskStorage>> = node_ids.iter().map(|id| start(*id)).collect();

    nodes[0].handle_event(Event::ElectionTimeout);
    let election = nodes[0].take_outbox().elections.remove(0);
    let mut tally = VoteTally::new(&election);
    let reply = nodes[1].handle_request_vote(election.args);
    let mut events = tally.on_reply(Some(reply));
    while !events.is_empty() {
        let event = events.remove(0);
        assert!(nodes[0].admits(&event));
        nodes[0].handle_event(event);
        events.extend(nodes[0].outbox.events.drain(..));
    }
    assert_eq!(nodes[0].snapshot().role, Role::Leader);
    nodes[0].take_outbox();

    assert!(
        nodes[0].on_append_log(b"durable entry".to_vec()),
        "leader should accept durable log"
    );
    for _ in 0..2 {
        nodes[0].handle_event(Event::Heartbeat);
        for (id, args) in nodes[0].take_outbox().append_requests {
            let at = node_ids.iter().position(|other| *other == id).expect("peer");
            let reply = nodes[at].handle_append_entries(args);
            assert!(reply.success);
            nodes[0].on_append_entries_reply(reply);
        }
    }
    for node in &nodes {
        assert_eq!(node.snapshot().commit_index, 1);
    }

    let leader_snapshot = nodes[0].snapshot();
    drop(nodes);
    let restored_snapshot = start(20_001).snapshot();

    assert_eq!(restored_snapshot.current_term, leader_snapshot.current_term);
    assert_eq!(restored_snapshot.log_len, 2);
}

#[test]
fn records_have_known_bytes() {
    let append = WalRecord::Append(vec![entry(2, b"ab")]);
    assert_eq!(
        encode_record(&append).expect("append"),
        [
            &[0, 0, 0, 0][..],
            &[1, 0, 0, 0, 0, 0, 0, 0],
            &[2, 0, 0, 0, 0, 0, 0, 0],
            &[2, 0, 0, 0, 0, 0, 0, 0],
            b"ab",
        ]
        .concat()
    );
    let replace = WalRecord::ReplaceSuffix {
        first_index_to_remove: 258,
        entries: vec![],
    };
    assert_eq!(
        encode_record(&replace).expect("replace"),
        [&[1, 0, 0, 0][..], &[2, 1, 0, 0, 0, 0, 0, 0], &[0; 8]].concat()
    );
    let base = WalRecord::SetBase { index: 3, term: 5 };
    let payload = encode_record(&base).expect("base");
    assert_eq!(
        payload,
        [
            &[2, 0, 0, 0][..],
            &[3, 0, 0, 0, 0, 0, 0, 0],
            &[5, 0, 0, 0, 0, 0, 0, 0]
        ]
        .concat()
    );
    let frame = frame_record(&base).expect("frame");
    assert_eq!(frame[..4], 20_u32.to_le_bytes());
    assert_eq!(frame[4..8], checksum(&payload).to_le_bytes());
    assert_eq!(frame[8..], payload);
}

#[test]
fn hard_state_and_snapshot_have_known_bytes() {
    let voted = HardState {
        current_term: 7,
        voted_for: Some(3),
    };
    let bytes = encode_hard_state(&voted).expect("hard state");
    assert_eq!(
        bytes,
        [7, 0, 0, 0, 0, 0, 0, 0, 1, 3, 0, 0, 0, 0, 0, 0, 0]
    );
    assert_eq!(load_hard_state(Some(bytes)).expect("load"), voted);
    assert_eq!(
        encode_hard_state(&HardState::default()).expect("hard state"),
        [0, 0, 0, 0, 0, 0, 0, 0, 0]
    );

    let snap = snapshot(2, 1, b"xyz");
    let bytes = encode_snapshot(&snap).expect("snapshot");
    assert_eq!(
        bytes,
        [
            &[2, 0, 0, 0, 0, 0, 0, 0][..],
            &[1, 0, 0, 0, 0, 0, 0, 0],
            &[3, 0, 0, 0, 0, 0, 0, 0],
            b"xyz"
        ]
        .concat()
    );
    assert_eq!(load_snapshot(Some(bytes)).expect("load"), Some(snap));
    assert_eq!(load_snapshot(None).expect("load"), None);
}

#[test]
fn records_are_read_back() {
    let records = vec![
        WalRecord::Append(vec![entry(1, b"one"), entry(9, b"")]),
        WalRecord::ReplaceSuffix {
            first_index_to_remove: 4,
            entries: vec![entry(2, b"two")],
        },
        WalRecord::SetBase { index: 8, term: 6 },
    ];
    for record in &records {
        let mut payload = encode_record(record).expect("encode");
        let read = decode_record(&payload).expect("decode");
        assert_eq!(format!("{read:?}"), format!("{record:?}"));
        payload.push(0xff);
        let read = decode_record(&payload).expect("decode with trailing bytes");
        assert_eq!(format!("{read:?}"), format!("{record:?}"));
        payload.truncate(payload.len() - 2);
        assert!(decode_record(&payload).is_err());
    }
}

#[test]
fn unknown_variant_is_named() {
    assert_eq!(
        decode_record(&[7, 0, 0, 0]).expect_err("no such variant"),
        "invalid value: integer `7`, expected variant index 0 <= i < 3"
    );
    assert!(decode_record(&[0, 0]).is_err());
}

#[test]
fn damaged_files_are_refused() {
    let files = temp_files();
    files.borrow_mut().insert(hard_state_path(), vec![1, 2, 3]);
    assert!(corruption(open_storage(&files)).starts_with("invalid hard_state file: "));

    let files = temp_files();
    files.borrow_mut().insert(
        hard_state_path(),
        vec![1, 0, 0, 0, 0, 0, 0, 0, 2, 0, 0, 0, 0, 0, 0, 0, 0],
    );
    assert!(corruption(open_storage(&files)).starts_with("invalid hard_state file: "));

    let files = temp_files();
    files.borrow_mut().insert(snapshot_path(), vec![0; 20]);
    assert!(corruption(open_storage(&files)).starts_with("invalid snapshot file: "));

    let files = temp_files();
    files.borrow_mut().insert(wal_path(), b"RUFTWAX".to_vec());
    assert_eq!(
        corruption(open_storage(&files)),
        "invalid WAL header magic/version"
    );
}

#[test]
fn short_header_starts_the_log_over() {
    let files = temp_files();
    files.borrow_mut().insert(wal_path(), b"RUFT".to_vec());
    let storage = open_storage(&files).expect("open");
    assert_eq!(storage.load().expect("load").log, vec![sentinel_log_entry()]);
    let replay = load_wal(b"RUFT").expect("short header");
    assert_eq!(replay.repair, WalRepair::Reset);
    assert_eq!(replay.base_index, None);
}

fn wal_of(payloads: &[Vec<u8>]) -> Vec<u8> {
    let mut wal = wal_header_bytes();
    for payload in payloads {
        wal.extend((payload.len() as u32).to_le_bytes());
        wal.extend(checksum(payload).to_le_bytes());
        wal.extend(payload);
    }
    wal
}

#[test]
fn records_that_do_not_fit_are_corruption() {
    let append = encode_record(&WalRecord::Append(vec![entry(1, b"x")])).expect("append");
    let base = encode_record(&WalRecord::SetBase { index: 1, term: 1 }).expect("base");
    let replace = encode_record(&WalRecord::ReplaceSuffix {
        first_index_to_remove: 3,
        entries: vec![],
    })
    .expect("replace");
    let message = |payloads: &[Vec<u8>]| match load_wal(&wal_of(payloads)) {
        Err(StorageError::Corruption(message)) => message,
        other => panic!("unexpected {other:?}"),
    };

    assert_eq!(
        message(&[append.clone(), base.clone()]),
        "WAL base record is not the first record at offset 44"
    );
    assert_eq!(
        message(&[base.clone(), base.clone()]),
        "WAL base record is not the first record at offset 35"
    );
    assert_eq!(
        message(&[append.clone(), replace]),
        "invalid ReplaceSuffix index 3 for log length 2 at offset 44"
    );
    assert_eq!(
        message(&[vec![9, 0, 0, 0]]),
        "invalid WAL record payload at offset 7: invalid value: integer `9`, expected variant index 0 <= i < 3"
    );
    assert!(message(&[vec![0, 0, 0, 0]]).starts_with("invalid WAL record payload at offset 7: "));
}

#[test]
fn refused_record_changes_nothing() {
    let mut log = vec![entry(0, b""), entry(1, b"x")];
    let mut base = None;
    let record = WalRecord::ReplaceSuffix {
        first_index_to_remove: 0,
        entries: vec![],
    };
    assert!(apply_record(&mut log, &mut base, record, 9).is_err());
    assert_eq!(log.len(), 2);
    let record = WalRecord::ReplaceSuffix {
        first_index_to_remove: 1,
        entries: vec![entry(2, b"y")],
    };
    apply_record(&mut log, &mut base, record, 9).expect("apply");
    assert_eq!(log, vec![entry(0, b""), entry(2, b"y")]);
}

#[test]
fn torn_record_of_every_length_is_dropped() {
    let base = encode_record(&WalRecord::SetBase { index: 0, term: 0 }).expect("base");
    let one = encode_record(&WalRecord::Append(vec![entry(1, b"one")])).expect("append");
    let two = encode_record(&WalRecord::Append(vec![entry(2, b"two")])).expect("append");
    let kept = wal_of(&[base.clone(), one.clone()]);
    let whole = wal_of(&[base, one, two]);
    for len in kept.len() + 1..whole.len() {
        let replay = load_wal(&whole[..len]).expect("torn tail");
        assert_eq!(replay.log, vec![entry(0, b""), entry(1, b"one")]);
        assert_eq!(
            replay.repair,
            WalRepair::Truncate {
                len: kept.len() as u64
            }
        );
    }
    let replay = load_wal(&whole).expect("whole");
    assert_eq!(replay.repair, WalRepair::Keep);
    assert_eq!(replay.log.len(), 3);
    assert_eq!(replay.base_index, Some(0));
}

#[test]
fn every_changed_payload_byte_is_corruption() {
    let payload = encode_record(&WalRecord::Append(vec![entry(1, b"one")])).expect("append");
    let wal = wal_of(&[payload.clone()]);
    for at in 15..wal.len() {
        let mut changed = wal.clone();
        changed[at] ^= 0x40;
        assert!(matches!(
            load_wal(&changed),
            Err(StorageError::Corruption(_))
        ));
    }
}

#[test]
fn log_and_snapshot_that_do_not_fit_are_refused() {
    let files = temp_files();
    {
        let mut storage = open_storage(&files).expect("open");
        storage
            .append_entries(&[entry(1, b"one"), entry(1, b"two")])
            .expect("append");
        storage.compact_log(2, 1).expect("compact without snapshot");
        assert_eq!(
            match storage.compact_log(1, 1) {
                Err(StorageError::InvalidOperation(message)) => message,
                other => panic!("unexpected {other:?}"),
            },
            "compact index 1 is before base index 2"
        );
    }
    assert_eq!(
        corruption(open_storage(&files)),
        "WAL base index 2 requires a snapshot"
    );
    let bytes = encode_snapshot(&snapshot(1, 1, b"")).expect("snapshot");
    files.borrow_mut().insert(snapshot_path(), bytes);
    assert_eq!(
        corruption(open_storage(&files)),
        "WAL base index 2 is after snapshot index 1"
    );
}

#[test]
fn snapshot_past_the_log_leaves_its_sentinel() {
    let files = temp_files();
    {
        let mut storage = open_storage(&files).expect("open");
        storage.append_entries(&[entry(1, b"one")]).expect("append");
        storage.save_snapshot(snapshot(9, 4, b"far")).expect("save");
    }
    let storage = open_storage(&files).expect("reopen");
    assert_eq!(storage.load().expect("load").log, vec![entry(4, b"")]);
}

#[test]
fn snapshot_without_a_log_gives_the_sentinel_its_term() {
    let files = temp_files();
    let bytes = encode_snapshot(&snapshot(5, 3, b"s")).expect("snapshot");
    files.borrow_mut().insert(snapshot_path(), bytes);
    let storage = open_storage(&files).expect("open");
    assert_eq!(storage.load().expect("load").log, vec![entry(3, b"")]);
    let replay = load_wal(&files.borrow()[&wal_path()]).expect("rewritten");
    assert_eq!(replay.base_index, Some(5));
}

#[test]
fn bounds_of_suffix_operations_name_the_replacement() {
    let files = temp_files();
    let storage = open_storage(&files).expect("open");
    let message = |result: StorageResult<Vec<u8>>| match result {
        Err(StorageError::InvalidOperation(message)) => message,
        other => panic!("unexpected {other:?}"),
    };
    assert_eq!(
        message(storage.mirror.truncate_suffix(0)),
        "cannot replace the sentinel log entry"
    );
    assert_eq!(
        message(storage.mirror.replace_suffix(2, &[])),
        "replace index 2 is past log length 1"
    );
    assert!(storage.mirror.append_entries(&[]).expect("nothing").is_none());
}

#[test]
fn errors_as_text() {
    let corrupt = StorageError::Corruption("bad".to_string());
    assert_eq!(corrupt.message(), "storage corruption: bad");
    assert!(corrupt.source().is_none());
    let invalid = StorageError::InvalidOperation("no".to_string());
    assert_eq!(invalid.message(), "invalid storage operation: no");
    let io = StorageError::from(std::io::Error::new(std::io::ErrorKind::Other, "gone"));
    assert_eq!(io.message(), "storage IO error: gone");
    assert!(io.source().is_some());
}
