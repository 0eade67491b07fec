//! Durable storage: the state of a node as files hold it.
//!
//! The term and the vote are a file that is replaced as a whole, so is the snapshot, and the log is a
//! write-ahead log. The storage here is the mirror of those files. It says what is to be written, and
//! takes a change over once it was written.
use crate::storage::format::{
    encode_hard_state, encode_snapshot, encoded_hard_state, encoded_record, encoded_snapshot,
    RecordView, WalRecord,
};
use crate::storage::memory::{
    before_base_message, compact_log_state, past_end_message, sentinel_message,
    validate_compact_index, validate_suffix_index,
};
use crate::storage::utils::{node_dir_name, node_storage_dir, StoragePath};
use crate::storage::wal::{frame_record, framed, wal_header, wal_header_bytes, WalReplay, WalView};
use crate::storage::{
    compacted, corrupt_with, invalid_with, replaced_suffix, snapshot_of, suffix_index_in_bounds,
    validate_sentinel_log, HardState, SavedState, StorageError, StorageResult, StorageState,
};
use crate::text::{decimal, decimal_text};
use crate::utilis::types::{
    clone_suffix, entries_of, sentinel, splice_suffix, Entry, LogEntry, NodeId, Snapshot,
    SnapshotView,
};
use vstd::prelude::*;

verus! {

/// Where the files of a node lie.
pub struct StorageFiles {
    /// The directory of the node.
    pub root_dir: StoragePath,
    /// The directory of the write-ahead log.
    pub wal_dir: StoragePath,
    /// The write-ahead log.
    pub wal: StoragePath,
    /// The term and the vote.
    pub hard_state: StoragePath,
    /// The term and the vote while they are written.
    pub hard_state_tmp: StoragePath,
    /// The snapshot.
    pub snapshot: StoragePath,
    /// The snapshot while it is written.
    pub snapshot_tmp: StoragePath,
}

/// The files of a node below `root`: all of them in the directory of the node.
pub fn storage_files(root: &StoragePath, node_id: NodeId) -> (files: StorageFiles)
    ensures
        ({
            let dir = root@.push(node_dir_name(node_id));
            &&& files.root_dir@ == dir
            &&& files.wal_dir@ == dir.push("wal"@)
            &&& files.wal@ == dir.push("wal"@).push("node.wal"@)
            &&& files.hard_state@ == dir.push("hard_state"@)
            &&& files.hard_state_tmp@ == dir.push("hard_state.tmp"@)
            &&& files.snapshot@ == dir.push("snapshot"@)
            &&& files.snapshot_tmp@ == dir.push("snapshot.tmp"@)
        }),
{
    let root_dir = node_storage_dir(root, node_id);
    let wal_dir = root_dir.join("wal");
    let wal = wal_dir.join("node.wal");
    let hard_state = root_dir.join("hard_state");
    let hard_state_tmp = root_dir.join("hard_state.tmp");
    let snapshot = root_dir.join("snapshot");
    let snapshot_tmp = root_dir.join("snapshot.tmp");
    StorageFiles { root_dir, wal_dir, wal, hard_state, hard_state_tmp, snapshot, snapshot_tmp }
}

/// A write-ahead log that is to be written from its beginning.
#[derive(Debug)]
pub struct WalRewrite {
    /// What the file is to hold.
    pub contents: Vec<u8>,
    /// Whether that is all: a tail that is too long to be framed is left out, and says so here.
    pub outcome: StorageResult<()>,
}

/// The first record of a rewritten log.
pub open spec fn base_record(base: u64, log: Seq<Entry>) -> RecordView {
    RecordView::SetBase { index: base, term: log[0].term }
}

/// The record of everything behind the sentinel.
pub open spec fn tail_record(log: Seq<Entry>) -> RecordView {
    RecordView::Append(log.skip(1))
}

/// The log can be written down: what is behind the sentinel fits one record.
pub open spec fn fits_wal(log: Seq<Entry>) -> bool {
    log.len() <= 1 || encoded_record(tail_record(log)).len() <= u32::MAX
}

/// The file of a log that starts behind `base`.
pub open spec fn rewritten(base: u64, log: Seq<Entry>) -> Seq<u8> {
    let opening = wal_header() + framed(encoded_record(base_record(base, log)));
    if log.len() <= 1 || !fits_wal(log) {
        opening
    } else {
        opening + framed(encoded_record(tail_record(log)))
    }
}

impl WalRewrite {
    /// This is what writing down `log` behind `base` comes to.
    pub open spec fn writes(&self, base: u64, log: Seq<Entry>) -> bool {
        &&& self.contents@ == rewritten(base, log)
        &&& fits_wal(log) ==> self.outcome is Ok
        &&& !fits_wal(log) ==> invalid_with(
            self.outcome,
            "WAL record payload is larger than u32::MAX"@,
        )
    }
}

/// Why files do not fit together.
pub enum OpenFault {
    /// The log starts behind an index that no snapshot covers.
    BaseAfterSnapshot { base: u64, snapshot: u64 },
    /// The log does not start at the beginning, and there is no snapshot.
    NoSnapshot { base: u64 },
    /// The log does not start with a sentinel.
    NoSentinel,
}

/// `result` is the error that a fault comes to.
pub open spec fn open_refused<T>(result: StorageResult<T>, fault: OpenFault) -> bool {
    match fault {
        OpenFault::BaseAfterSnapshot { base, snapshot } => corrupt_with(
            result,
            "WAL base index "@ + decimal(base as nat) + " is after snapshot index "@ + decimal(
                snapshot as nat,
            ),
        ),
        OpenFault::NoSnapshot { base } => corrupt_with(
            result,
            "WAL base index "@ + decimal(base as nat) + " requires a snapshot"@,
        ),
        OpenFault::NoSentinel => invalid_with(
            result,
            "log must start with an empty sentinel entry"@,
        ),
    }
}

/// What is on the files, taken together.
#[verifier::ext_equal]
pub struct Opened {
    /// The persistent state.
    pub state: SavedState,
    /// The absolute index of the sentinel.
    pub base: u64,
    /// The write-ahead log is behind the state and is to be rewritten.
    pub rewrite: bool,
}

/// How the log and the snapshot go together. A snapshot that is ahead of the log was saved before
/// the log could be compacted, so the compaction is made up for.
pub open spec fn opened(
    hard_state: HardState,
    snapshot: Option<SnapshotView>,
    wal: WalView,
) -> Result<Opened, OpenFault> {
    let combined = match (snapshot, wal.base_index) {
        (Some(s), Some(base)) => {
            if base > s.last_included_index {
                Err(OpenFault::BaseAfterSnapshot { base, snapshot: s.last_included_index })
            } else {
                Ok(
                    (
                        compacted(wal.log, s.last_included_index - base, s.last_included_term),
                        s.last_included_index,
                        base != s.last_included_index,
                    ),
                )
            }
        },
        (Some(s), None) => Ok(
            (
                wal.log.update(
                    0,
                    Entry { term: s.last_included_term, command: wal.log[0].command },
                ),
                s.last_included_index,
                true,
            ),
        ),
        (None, Some(base)) => {
            if base != 0 {
                Err(OpenFault::NoSnapshot { base })
            } else {
                Ok((wal.log, 0u64, false))
            }
        },
        (None, None) => Ok((wal.log, 0u64, true)),
    };
    match combined {
        Err(fault) => Err(fault),
        Ok((log, base, rewrite)) => {
            let state = SavedState { hard_state, log, snapshot };
            if state.has_sentinel() {
                Ok(Opened { state, base, rewrite })
            } else {
                Err(OpenFault::NoSentinel)
            }
        },
    }
}

/// Storage that mirrors files.
#[derive(Debug)]
pub struct FileStorage {
    /// The state as the files hold it.
    state: StorageState,
    /// The absolute index of the sentinel.
    compact_base_index: u64,
}

impl FileStorage {
    /// What is stored.
    pub closed spec fn state(&self) -> SavedState {
        self.state@
    }

    /// The absolute index of the sentinel.
    pub closed spec fn base(&self) -> u64 {
        self.compact_base_index
    }

    /// The log starts with a sentinel.
    pub open spec fn valid(&self) -> bool {
        self.state().has_sentinel()
    }

    /// Puts together what the files hold. Where the write-ahead log is behind, it comes with what is
    /// to be written in its place.
    pub fn open(hard_state: HardState, snapshot: Option<Snapshot>, wal: WalReplay) -> (result:
        StorageResult<(FileStorage, Option<WalRewrite>)>)
        requires
            wal@.log.len() >= 1,
        ensures
            match opened(hard_state, snapshot_of(snapshot), wal@) {
                Ok(whole) => result matches Ok((storage, rewrite)) && {
                    &&& storage.valid()
                    &&& storage.state() == whole.state
                    &&& storage.base() == whole.base
                    &&& rewrite is Some <==> whole.rewrite
                    &&& rewrite matches Some(w) ==> w.writes(whole.base, whole.state.log)
                },
                Err(fault) => open_refused(result, fault),
            },
    {
        let mut log = wal.log;
        let mut compact_base_index: u64 = 0;
        let mut rewrite: bool = true;
        match (&snapshot, wal.base_index) {
            (Some(snapshot), Some(wal_base_index)) => {
                let snapshot_index: u64 = snapshot.metadata.last_included_index;
                let term: u64 = snapshot.metadata.last_included_term;
                if wal_base_index > snapshot_index {
                    let base = decimal_text(wal_base_index);
                    let index = decimal_text(snapshot_index);
                    let message = String::from_str("WAL base index ").concat(base.as_str()).concat(
                        " is after snapshot index ",
                    ).concat(index.as_str());
                    return Err(StorageError::Corruption(message));
                }
                let covered_entries: u64 = snapshot_index - wal_base_index;
                if covered_entries >= log.len() as u64 {
                    let mut covered: Vec<LogEntry> = Vec::new();
                    covered.push(LogEntry { term, command: Vec::new() });
                    assert(entries_of(covered@) =~= compacted(
                        wal@.log,
                        covered_entries as int,
                        term,
                    ));
                    log = covered;
                } else {
                    assert(covered_entries < log.len());
                    let mut rest = clone_suffix(log.as_slice(), covered_entries as usize);
                    let ghost kept = rest@;
                    assert(entries_of(kept).len() == kept.len());
                    rest.set(0, LogEntry { term, command: Vec::new() });
                    assert forall|i: int| 1 <= i < kept.len() implies entries_of(rest@)[i]
                        == wal@.log[covered_entries + i] by {
                        assert(entries_of(rest@)[i] == entries_of(kept)[i]);
                    }
                    assert(entries_of(rest@) =~= compacted(
                        wal@.log,
                        covered_entries as int,
                        term,
                    ));
                    log = rest;
                }
                compact_base_index = snapshot_index;
                rewrite = wal_base_index != snapshot_index;
            },
            (Some(snapshot), None) => {
                let mut first = log[0].clone();
                first.term = snapshot.metadata.last_included_term;
                log.set(0, first);
                assert(entries_of(log@) =~= wal@.log.update(0, first@));
                compact_base_index = snapshot.metadata.last_included_index;
            },
            (None, Some(wal_base_index)) => {
                if wal_base_index != 0 {
                    let base = decimal_text(wal_base_index);
                    let message = String::from_str("WAL base index ").concat(base.as_str()).concat(
                        " requires a snapshot",
                    );
                    return Err(StorageError::Corruption(message));
                }
                rewrite = false;
            },
            (None, None) => {},
        }
        let state = StorageState { hard_state, log, snapshot };
        assert(state@.log.len() == state.log@.len());
        match validate_sentinel_log(state.log.as_slice()) {
            Ok(()) => {},
            Err(e) => {
                return Err(e);
            },
        }
        let storage = FileStorage { state, compact_base_index };
        if rewrite {
            let contents = storage.rewrite_wal();
            Ok((storage, Some(contents)))
        } else {
            Ok((storage, None))
        }
    }

    /// The write-ahead log of the present state, from its beginning: the header, where the log
    /// starts, and everything behind the sentinel as one record.
    pub fn rewrite_wal(&self) -> (rewrite: WalRewrite)
        requires
            self.valid(),
        ensures
            rewrite.writes(self.base(), self.state().log),
    {
        let ghost log = self.state().log;
        assert(log.len() == self.state.log@.len());
        let mut contents = wal_header_bytes();
        let base = WalRecord::SetBase {
            index: self.compact_base_index,
            term: self.state.log[0].term,
        };
        assert(base@ == base_record(self.base(), log));
        proof {
            vstd::bytes::lemma_auto_spec_u32_to_from_le_bytes();
            vstd::bytes::lemma_auto_spec_u64_to_from_le_bytes();
        }
        match frame_record(&base) {
            Ok(frame) => {
                let mut frame = frame;
                contents.append(&mut frame);
            },
            Err(e) => {
                return WalRewrite { contents, outcome: Err(e) };
            },
        }
        if self.state.log.len() > 1 {
            let tail = WalRecord::Append(clone_suffix(self.state.log.as_slice(), 1));
            assert(tail@ == tail_record(log));
            match frame_record(&tail) {
                Ok(frame) => {
                    let mut frame = frame;
                    contents.append(&mut frame);
                },
                Err(e) => {
                    return WalRewrite { contents, outcome: Err(e) };
                },
            }
        }
        WalRewrite { contents, outcome: Ok(()) }
    }

    /// The absolute index of the sentinel.
    pub fn compact_base_index(&self) -> (base: u64)
        ensures
            base == self.base(),
    {
        self.compact_base_index
    }

    /// A copy of the state, as it was restored and kept up to date since.
    pub fn load(&self) -> (result: StorageResult<StorageState>)
        ensures
            result matches Ok(state) && state@ == self.state(),
    {
        Ok(self.state.clone())
    }

    /// What the file of the term and the vote is to hold.
    pub fn save_hard_state(&self, hard_state: &HardState) -> (result: StorageResult<Vec<u8>>)
        ensures
            result matches Ok(bytes) && bytes@ == encoded_hard_state(*hard_state),
    {
        encode_hard_state(hard_state)
    }

    /// Takes over the term and the vote once they are written.
    pub fn hard_state_saved(&mut self, hard_state: HardState)
        ensures
            final(self).base() == old(self).base(),
            final(self).state() == (SavedState { hard_state, ..old(self).state() }),
    {
        self.state.hard_state = hard_state;
    }

    /// What is to be added to the write-ahead log for new entries; nothing where there are none.
    pub fn append_entries(&self, entries: &[LogEntry]) -> (result: StorageResult<Option<Vec<u8>>>)
        ensures
            ({
                let record = RecordView::Append(entries_of(entries@));
                if entries@.len() == 0 {
                    result matches Ok(frame) && frame is None
                } else if encoded_record(record).len() <= u32::MAX {
                    result matches Ok(Some(frame)) && frame@ == framed(encoded_record(record))
                } else {
                    invalid_with(result, "WAL record payload is larger than u32::MAX"@)
                }
            }),
    {
        if entries.len() == 0 {
            return Ok(None);
        }
        let copy = clone_suffix(entries, 0);
        assert(entries_of(entries@).skip(0) =~= entries_of(entries@));
        match frame_record(&WalRecord::Append(copy)) {
            Ok(frame) => Ok(Some(frame)),
            Err(e) => Err(e),
        }
    }

    /// Takes over new entries once they are written.
    pub fn entries_appended(&mut self, entries: &[LogEntry])
        ensures
            final(self).base() == old(self).base(),
            final(self).state() == (SavedState {
                log: old(self).state().log + entries_of(entries@),
                ..old(self).state()
            }),
    {
        let len: usize = self.state.log.len();
        let ghost before = entries_of(self.state.log@);
        splice_suffix(&mut self.state.log, len, entries);
        assert(before.take(len as int) =~= before);
    }

    /// What is to be added to the write-ahead log where a suffix is cut off.
    pub fn truncate_suffix(&self, first_index_to_remove: u64) -> (result: StorageResult<Vec<u8>>)
        ensures
            self.suffix_framed(first_index_to_remove, Seq::empty(), result),
    {
        let none: Vec<LogEntry> = Vec::new();
        assert(entries_of(none@) =~= Seq::empty());
        self.replace_suffix(first_index_to_remove, none.as_slice())
    }

    /// What a replacement of the suffix is written as: one record, so that reading the log back never
    /// sees half of it.
    pub open spec fn suffix_framed(
        &self,
        first: u64,
        entries: Seq<Entry>,
        result: StorageResult<Vec<u8>>,
    ) -> bool {
        let len = self.state().log.len();
        let record = RecordView::ReplaceSuffix { first_index_to_remove: first, entries };
        if first == 0 {
            invalid_with(result, sentinel_message("replace"@))
        } else if first > len {
            invalid_with(result, past_end_message("replace"@, first, len))
        } else if encoded_record(record).len() <= u32::MAX {
            result matches Ok(frame) && frame@ == framed(encoded_record(record))
        } else {
            invalid_with(result, "WAL record payload is larger than u32::MAX"@)
        }
    }

    /// What is to be added to the write-ahead log where a suffix is replaced.
    pub fn replace_suffix(&self, first_index_to_remove: u64, entries: &[LogEntry]) -> (result:
        StorageResult<Vec<u8>>)
        ensures
            self.suffix_framed(first_index_to_remove, entries_of(entries@), result),
    {
        match validate_suffix_index("replace", first_index_to_remove, self.state.log.len()) {
            Ok(()) => {},
            Err(e) => {
                return Err(e);
            },
        }
        let copy = clone_suffix(entries, 0);
        assert(entries_of(entries@).skip(0) =~= entries_of(entries@));
        frame_record(&WalRecord::ReplaceSuffix { first_index_to_remove, entries: copy })
    }

    /// Takes over the replacement of a suffix once it is written.
    pub fn suffix_replaced(&mut self, first_index_to_remove: u64, entries: &[LogEntry])
        requires
            suffix_index_in_bounds(first_index_to_remove, old(self).state().log.len()),
        ensures
            final(self).base() == old(self).base(),
            final(self).state() == (SavedState {
                log: replaced_suffix(
                    old(self).state().log,
                    first_index_to_remove as int,
                    entries_of(entries@),
                ),
                ..old(self).state()
            }),
    {
        assert(first_index_to_remove <= self.state.log.len());
        splice_suffix(&mut self.state.log, first_index_to_remove as usize, entries);
    }

    /// What the file of the snapshot is to hold.
    pub fn save_snapshot(&self, snapshot: &Snapshot) -> (result: StorageResult<Vec<u8>>)
        ensures
            result matches Ok(bytes) && bytes@ == encoded_snapshot(snapshot@),
    {
        encode_snapshot(snapshot)
    }

    /// Takes over a snapshot once it is written.
    pub fn snapshot_saved(&mut self, snapshot: Snapshot)
        ensures
            final(self).base() == old(self).base(),
            final(self).state() == (SavedState {
                snapshot: Some(snapshot@),
                ..old(self).state()
            }),
    {
        self.state.snapshot = Some(snapshot);
    }

    /// Folds the entries up to an absolute index into the sentinel, and says what the write-ahead
    /// log is to hold from now on. The mirror is shorter whether or not that can be written.
    pub fn compact_log(&mut self, last_included_index: u64, last_included_term: u64) -> (result:
        StorageResult<WalRewrite>)
        requires
            old(self).valid(),
            last_included_index - old(self).base() < u64::MAX,
        ensures
            final(self).valid(),
            last_included_index < old(self).base() ==> {
                &&& invalid_with(
                    result,
                    before_base_message(last_included_index, old(self).base()),
                )
                &&& *final(self) == *old(self)
            },
            last_included_index >= old(self).base() ==> {
                &&& final(self).base() == last_included_index
                &&& final(self).state() == (SavedState {
                    log: compacted(
                        old(self).state().log,
                        last_included_index - old(self).base(),
                        last_included_term,
                    ),
                    ..old(self).state()
                })
                &&& (result matches Ok(rewrite) && rewrite.writes(
                    final(self).base(),
                    final(self).state().log,
                ))
            },
    {
        match validate_compact_index(last_included_index, self.compact_base_index) {
            Ok(()) => {},
            Err(e) => {
                return Err(e);
            },
        }
        let local_index: u64 = last_included_index - self.compact_base_index;
        match compact_log_state(&mut self.state.log, local_index, last_included_term) {
            Ok(()) => {},
            Err(e) => {
                return Err(e);
            },
        }
        self.compact_base_index = last_included_index;
        Ok(self.rewrite_wal())
    }
}

} // verus!
