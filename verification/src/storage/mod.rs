//! What a node has to keep across restarts, and what it asks of the backend that keeps it.
pub mod file;
pub mod format;
pub mod laws;
pub mod memory;
pub mod utils;
pub mod wal;

pub use crate::storage::file::FileStorage;
pub use crate::storage::memory::MemoryStorage;
pub use crate::storage::utils::{checksum, node_storage_dir};

use crate::utilis::types::{
    clone_suffix, entries_of, sentinel, Entry, LogEntry, NodeId, Snapshot, SnapshotView,
};
use vstd::prelude::*;

verus! {

/// Declares `std::io::Error`, which is carried through and never looked into.
#[verifier::external_type_specification]
#[verifier::external_body]
pub struct ExIoError(std::io::Error);

/// The result of a storage operation.
pub type StorageResult<T> = Result<T, StorageError>;

/// Why a storage operation failed.
#[derive(Debug)]
pub enum StorageError {
    /// Underlying read or write failure.
    Io(std::io::Error),
    /// The caller violated a log bound or an invariant.
    InvalidOperation(String),
    /// Persistent data is corrupt.
    Corruption(String),
}

impl StorageError {
    /// An invalid operation with the given message.
    pub open spec fn is_invalid_operation(self, message: Seq<char>) -> bool {
        self matches StorageError::InvalidOperation(m) && m@ == message
    }

    /// A corruption with the given message.
    pub open spec fn is_corruption(self, message: Seq<char>) -> bool {
        self matches StorageError::Corruption(m) && m@ == message
    }

    /// The error as text.
    pub fn message(&self) -> (text: String)
        ensures
            match self {
                StorageError::Io(err) => exists|s: String|
                    #[trigger] vstd::string::to_string_from_display_ensures(err, s) && text@
                        == "storage IO error: "@ + s@,
                StorageError::InvalidOperation(m) => text@ == "invalid storage operation: "@ + m@,
                StorageError::Corruption(m) => text@ == "storage corruption: "@ + m@,
            },
    {
        match self {
            StorageError::Io(err) => {
                let s = err.to_string();
                String::from_str("storage IO error: ").concat(s.as_str())
            },
            StorageError::InvalidOperation(m) => String::from_str(
                "invalid storage operation: ",
            ).concat(m.as_str()),
            StorageError::Corruption(m) => String::from_str("storage corruption: ").concat(
                m.as_str(),
            ),
        }
    }

    /// The I/O error behind this one, where there is one.
    pub fn source(&self) -> (source: Option<&std::io::Error>)
        ensures
            source == (match self {
                StorageError::Io(err) => Some(err),
                _ => None,
            }),
    {
        match self {
            StorageError::Io(err) => Some(err),
            StorageError::InvalidOperation(_) => None,
            StorageError::Corruption(_) => None,
        }
    }
}

impl From<std::io::Error> for StorageError {
    fn from(value: std::io::Error) -> (error: Self) {
        StorageError::Io(value)
    }
}

impl vstd::std_specs::convert::FromSpecImpl<std::io::Error> for StorageError {
    open spec fn obeys_from_spec() -> bool {
        true
    }

    open spec fn from_spec(value: std::io::Error) -> Self {
        StorageError::Io(value)
    }
}

/// `result` is an invalid operation with the given message.
pub open spec fn invalid_with<T>(result: StorageResult<T>, message: Seq<char>) -> bool {
    result matches Err(e) && e.is_invalid_operation(message)
}

/// `result` is a corruption with the given message.
pub open spec fn corrupt_with<T>(result: StorageResult<T>, message: Seq<char>) -> bool {
    result matches Err(e) && e.is_corruption(message)
}

/// The term and the vote, which must survive process restarts.
#[derive(Debug, PartialEq, Eq)]
pub struct HardState {
    /// Current term.
    pub current_term: u64,
    /// Node voted for in the current term.
    pub voted_for: Option<NodeId>,
}

impl Clone for HardState {
    fn clone(&self) -> (copy: Self)
        ensures
            copy == *self,
    {
        HardState { current_term: self.current_term, voted_for: self.voted_for }
    }
}

impl Default for HardState {
    fn default() -> (hard_state: Self)
        ensures
            hard_state == (HardState { current_term: 0, voted_for: None }),
    {
        HardState { current_term: 0, voted_for: None }
    }
}

/// Everything that storage keeps, as a mathematical value.
#[verifier::ext_equal]
pub struct SavedState {
    pub hard_state: HardState,
    pub log: Seq<Entry>,
    pub snapshot: Option<SnapshotView>,
}

impl SavedState {
    /// The first log entry is a sentinel, so that real entries start at index 1.
    pub open spec fn has_sentinel(self) -> bool {
        self.log.len() >= 1 && self.log[0].command.len() == 0
    }
}

/// The complete persistent state as it is loaded from storage.
#[derive(Debug, PartialEq, Eq)]
pub struct StorageState {
    /// Persisted term and vote.
    pub hard_state: HardState,
    /// Persisted log; `log[0]` is a sentinel without a command.
    pub log: Vec<LogEntry>,
    /// The last snapshot that was saved.
    pub snapshot: Option<Snapshot>,
}

/// The value of an optional snapshot.
pub open spec fn snapshot_of(snapshot: Option<Snapshot>) -> Option<SnapshotView> {
    match snapshot {
        Some(s) => Some(s@),
        None => None,
    }
}

impl View for StorageState {
    type V = SavedState;

    open spec fn view(&self) -> SavedState {
        SavedState {
            hard_state: self.hard_state,
            log: entries_of(self.log@),
            snapshot: snapshot_of(self.snapshot),
        }
    }
}

impl Clone for StorageState {
    fn clone(&self) -> (copy: Self)
        ensures
            copy@ == self@,
    {
        let log = clone_suffix(self.log.as_slice(), 0);
        assert(entries_of(self.log@).skip(0) =~= entries_of(self.log@));
        let snapshot = match &self.snapshot {
            Some(s) => Some(s.clone()),
            None => None,
        };
        StorageState { hard_state: self.hard_state.clone(), log, snapshot }
    }
}

/// `log` cut at index `first`, with `entries` behind the cut.
pub open spec fn replaced_suffix(log: Seq<Entry>, first: int, entries: Seq<Entry>) -> Seq<Entry> {
    log.take(first) + entries
}

/// `log` with everything up to position `local` folded into a new sentinel of term `term`.
pub open spec fn compacted(log: Seq<Entry>, local: int, term: u64) -> Seq<Entry> {
    seq![sentinel(term)] + (if local + 1 < log.len() {
        log.skip(local + 1)
    } else {
        Seq::empty()
    })
}

/// A position at which a suffix of a log of length `len` may begin: never the sentinel, at most one
/// past the end.
pub open spec fn suffix_index_in_bounds(first: u64, len: nat) -> bool {
    1 <= first <= len
}

/// Raft storage: a node depends on these operations, not on where they keep the state.
pub trait Storage {
    /// What is stored.
    spec fn state(&self) -> SavedState;

    /// The absolute index of the sentinel, zero until the log is compacted.
    spec fn base(&self) -> u64;

    /// The backend is in a usable state.
    spec fn valid(&self) -> bool;

    /// The backend never fails an operation that the log bounds allow.
    spec fn reliable(&self) -> bool;

    /// Everything that was written is durable: it is there after a crash.
    spec fn flushed(&self) -> bool;

    /// Loads the persisted state, primarily for startup recovery.
    fn load(&self) -> (result: StorageResult<StorageState>)
        requires
            self.valid(),
        ensures
            self.state().has_sentinel(),
            result matches Ok(state) ==> state@ == self.state(),
            self.reliable() ==> result is Ok,
    ;

    /// Saves the term and the vote; must happen before replying to RPCs or starting elections.
    fn save_hard_state(&mut self, hard_state: HardState) -> (result: StorageResult<()>)
        requires
            old(self).valid(),
        ensures
            final(self).valid(),
            final(self).reliable() == old(self).reliable(),
            final(self).base() == old(self).base(),
            final(self).state() == (if result is Ok {
                SavedState { hard_state, ..old(self).state() }
            } else {
                old(self).state()
            }),
            old(self).reliable() ==> result is Ok,
    ;

    /// Appends log entries in order.
    fn append_entries(&mut self, entries: &[LogEntry]) -> (result: StorageResult<()>)
        requires
            old(self).valid(),
        ensures
            final(self).valid(),
            final(self).reliable() == old(self).reliable(),
            final(self).base() == old(self).base(),
            final(self).state() == (if result is Ok {
                SavedState {
                    log: old(self).state().log + entries_of(entries@),
                    ..old(self).state()
                }
            } else {
                old(self).state()
            }),
            old(self).reliable() ==> result is Ok,
    ;

    /// Removes the log suffix that starts at the given index.
    fn truncate_suffix(&mut self, first_index_to_remove: u64) -> (result: StorageResult<()>)
        requires
            old(self).valid(),
        ensures
            final(self).valid(),
            final(self).reliable() == old(self).reliable(),
            final(self).base() == old(self).base(),
            final(self).state() == (if result is Ok {
                SavedState {
                    log: old(self).state().log.take(first_index_to_remove as int),
                    ..old(self).state()
                }
            } else {
                old(self).state()
            }),
            !suffix_index_in_bounds(first_index_to_remove, old(self).state().log.len())
                ==> result matches Err(StorageError::InvalidOperation(_)),
            suffix_index_in_bounds(first_index_to_remove, old(self).state().log.len()) && old(
                self,
            ).reliable() ==> result is Ok,
    ;

    /// Replaces the log suffix that starts at the given index, as one step.
    fn replace_suffix(&mut self, first_index_to_remove: u64, entries: &[LogEntry]) -> (result:
        StorageResult<()>)
        requires
            old(self).valid(),
        ensures
            final(self).valid(),
            final(self).reliable() == old(self).reliable(),
            final(self).base() == old(self).base(),
            final(self).state() == (if result is Ok {
                SavedState {
                    log: replaced_suffix(
                        old(self).state().log,
                        first_index_to_remove as int,
                        entries_of(entries@),
                    ),
                    ..old(self).state()
                }
            } else {
                old(self).state()
            }),
            !suffix_index_in_bounds(first_index_to_remove, old(self).state().log.len())
                ==> result matches Err(StorageError::InvalidOperation(_)),
            suffix_index_in_bounds(first_index_to_remove, old(self).state().log.len()) && old(
                self,
            ).reliable() ==> result is Ok,
    ;

    /// Makes everything that was written durable.
    fn sync(&mut self) -> (result: StorageResult<()>)
        requires
            old(self).valid(),
        ensures
            result is Ok ==> final(self).flushed(),
            final(self).valid(),
            final(self).reliable() == old(self).reliable(),
            final(self).base() == old(self).base(),
            final(self).state() == old(self).state(),
            old(self).reliable() ==> result is Ok,
    ;

    /// Keeps a snapshot in place of the one before it.
    fn save_snapshot(&mut self, snapshot: Snapshot) -> (result: StorageResult<()>)
        requires
            old(self).valid(),
        ensures
            final(self).valid(),
            final(self).reliable() == old(self).reliable(),
            final(self).base() == old(self).base(),
            final(self).state() == (if result is Ok {
                SavedState { snapshot: Some(snapshot@), ..old(self).state() }
            } else {
                old(self).state()
            }),
            old(self).reliable() ==> result is Ok,
    ;

    /// Folds the entries up to an absolute index into the sentinel. A backend that fails to write
    /// the shorter log down may have shortened it in memory already.
    fn compact_log(&mut self, last_included_index: u64, last_included_term: u64) -> (result:
        StorageResult<()>)
        requires
            old(self).valid(),
            last_included_index - old(self).base() < u64::MAX,
        ensures
            final(self).valid(),
            final(self).reliable() == old(self).reliable(),
            last_included_index < old(self).base() ==> {
                &&& result matches Err(StorageError::InvalidOperation(_))
                &&& final(self).state() == old(self).state()
                &&& final(self).base() == old(self).base()
            },
            last_included_index >= old(self).base() ==> {
                ||| result is Err && final(self).state() == old(self).state()
                    && final(self).base() == old(self).base()
                ||| {
                    &&& final(self).base() == last_included_index
                    &&& final(self).state() == SavedState {
                        log: compacted(
                            old(self).state().log,
                            last_included_index - old(self).base(),
                            last_included_term,
                        ),
                        ..old(self).state()
                    }
                }
            },
            last_included_index >= old(self).base() && old(self).reliable() ==> result is Ok,
    ;
}

/// Builds the empty sentinel entry, so that real log indexes start at 1.
pub fn sentinel_log_entry() -> (entry: LogEntry)
    ensures
        entry@ == sentinel(0),
{
    let entry = LogEntry { term: 0, command: Vec::new() };
    assert(entry@ =~= sentinel(0));
    entry
}

/// Checks that a log starts with an entry without a command.
pub fn validate_sentinel_log(log: &[LogEntry]) -> (result: StorageResult<()>)
    ensures
        log@.len() >= 1 && log@[0].command@.len() == 0 ==> result is Ok,
        !(log@.len() >= 1 && log@[0].command@.len() == 0) ==> invalid_with(
            result,
            "log must start with an empty sentinel entry"@,
        ),
{
    if log.len() > 0 && log[0].command.len() == 0 {
        return Ok(());
    }
    Err(
        StorageError::InvalidOperation(
            String::from_str("log must start with an empty sentinel entry"),
        ),
    )
}

} // verus!
