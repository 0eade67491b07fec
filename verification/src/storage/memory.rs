//! Storage in memory, for tests and for nodes that need not survive a restart.
use crate::storage::{
    compacted, invalid_with, sentinel_log_entry, suffix_index_in_bounds, validate_sentinel_log,
    HardState, SavedState, Storage, StorageError, StorageResult, StorageState,
};
use crate::text::{decimal, decimal_text};
use crate::utilis::types::{
    clone_suffix, entries_of, sentinel, splice_suffix, LogEntry, Snapshot,
};
use vstd::prelude::*;

verus! {

/// Storage that keeps its state in memory.
#[derive(Debug)]
pub struct MemoryStorage {
    /// The state, as a durable backend would hold it.
    state: StorageState,
    /// The absolute index of the sentinel.
    compact_base_index: u64,
}

impl MemoryStorage {
    /// Creates empty storage: no term, no vote, and a log of the sentinel alone.
    pub fn new() -> (storage: Self)
        ensures
            storage.valid(),
            storage.base() == 0,
            storage.state() == (SavedState {
                hard_state: HardState { current_term: 0, voted_for: None },
                log: seq![sentinel(0)],
                snapshot: None,
            }),
    {
        let mut log: Vec<LogEntry> = Vec::new();
        log.push(sentinel_log_entry());
        let storage = MemoryStorage {
            state: StorageState { hard_state: HardState::default(), log, snapshot: None },
            compact_base_index: 0,
        };
        assert(storage.state().log =~= seq![sentinel(0)]);
        storage
    }

    /// Creates storage from a given state; where it has a snapshot, the log is taken to follow it.
    pub fn with_state(state: StorageState) -> (result: StorageResult<Self>)
        ensures
            state@.has_sentinel() <==> result is Ok,
            result matches Ok(storage) ==> {
                &&& storage.valid()
                &&& storage.state() == state@
                &&& storage.base() == (match state.snapshot {
                    Some(snapshot) => snapshot.metadata.last_included_index,
                    None => 0,
                })
            },
            result matches Err(e) ==> e.is_invalid_operation(
                "log must start with an empty sentinel entry"@,
            ),
    {
        match validate_sentinel_log(state.log.as_slice()) {
            Ok(()) => {},
            Err(e) => {
                return Err(e);
            },
        }
        let compact_base_index: u64 = match &state.snapshot {
            Some(snapshot) => snapshot.metadata.last_included_index,
            None => 0,
        };
        Ok(MemoryStorage { state, compact_base_index })
    }

    /// The absolute index of the sentinel.
    pub fn compact_base_index(&self) -> (base: u64)
        ensures
            base == self.base(),
    {
        self.compact_base_index
    }
}

impl Clone for MemoryStorage {
    fn clone(&self) -> (copy: Self)
        ensures
            copy.state() == self.state(),
            copy.base() == self.base(),
            copy.valid() == self.valid(),
    {
        MemoryStorage { state: self.state.clone(), compact_base_index: self.compact_base_index }
    }
}

impl Default for MemoryStorage {
    fn default() -> (storage: Self)
        ensures
            storage.valid(),
            storage.base() == 0,
            storage.state() == (SavedState {
                hard_state: HardState { current_term: 0, voted_for: None },
                log: seq![sentinel(0)],
                snapshot: None,
            }),
    {
        MemoryStorage::new()
    }
}

/// The message for a suffix operation that would remove the sentinel.
pub open spec fn sentinel_message(operation: Seq<char>) -> Seq<char> {
    "cannot "@ + operation + " the sentinel log entry"@
}

/// The message for a suffix operation that starts past the end of the log.
pub open spec fn past_end_message(operation: Seq<char>, first: u64, len: nat) -> Seq<char> {
    operation + " index "@ + decimal(first as nat) + " is past log length "@ + decimal(len)
}

/// The message for a compaction to an index that is compacted already.
pub open spec fn before_base_message(index: u64, base: u64) -> Seq<char> {
    "compact index "@ + decimal(index as nat) + " is before base index "@ + decimal(base as nat)
}

/// What the bounds of a suffix operation say: which error it is answered with, if any.
pub open spec fn suffix_bounds_checked(
    operation: Seq<char>,
    first: u64,
    len: nat,
    result: StorageResult<()>,
) -> bool {
    &&& suffix_index_in_bounds(first, len) <==> result is Ok
    &&& first == 0 ==> invalid_with(result, sentinel_message(operation))
    &&& first > len && first != 0 ==> invalid_with(result, past_end_message(operation, first, len))
}

/// Checks where a suffix starts, which is never at the sentinel and at most one past the end.
pub fn validate_suffix_index(operation: &str, first_index_to_remove: u64, len: usize) -> (result:
    StorageResult<()>)
    ensures
        suffix_bounds_checked(operation@, first_index_to_remove, len as nat, result),
{
    let len: u64 = len as u64;
    if first_index_to_remove == 0 {
        let message = String::from_str("cannot ").concat(operation).concat(
            " the sentinel log entry",
        );
        return Err(StorageError::InvalidOperation(message));
    }
    if first_index_to_remove > len {
        let first = decimal_text(first_index_to_remove);
        let end = decimal_text(len);
        let message = String::from_str(operation).concat(" index ").concat(first.as_str()).concat(
            " is past log length ",
        ).concat(end.as_str());
        return Err(StorageError::InvalidOperation(message));
    }
    Ok(())
}

/// Checks that a compaction does not go back behind the one before it.
pub fn validate_compact_index(last_included_index: u64, base: u64) -> (result: StorageResult<()>)
    ensures
        last_included_index >= base ==> result is Ok,
        last_included_index < base ==> invalid_with(
            result,
            before_base_message(last_included_index, base),
        ),
{
    if last_included_index < base {
        let index = decimal_text(last_included_index);
        let start = decimal_text(base);
        let message = String::from_str("compact index ").concat(index.as_str()).concat(
            " is before base index ",
        ).concat(start.as_str());
        return Err(StorageError::InvalidOperation(message));
    }
    Ok(())
}

impl Storage for MemoryStorage {
    closed spec fn state(&self) -> SavedState {
        self.state@
    }

    closed spec fn base(&self) -> u64 {
        self.compact_base_index
    }

    closed spec fn valid(&self) -> bool {
        self.state@.has_sentinel()
    }

    open spec fn reliable(&self) -> bool {
        true
    }

    open spec fn flushed(&self) -> bool {
        true
    }

    fn load(&self) -> (result: StorageResult<StorageState>) {
        assert(self.state().has_sentinel());
        Ok(self.state.clone())
    }

    fn save_hard_state(&mut self, hard_state: HardState) -> (result: StorageResult<()>) {
        self.state.hard_state = hard_state;
        Ok(())
    }

    fn append_entries(&mut self, entries: &[LogEntry]) -> (result: StorageResult<()>) {
        let len: usize = self.state.log.len();
        let ghost before = entries_of(self.state.log@);
        splice_suffix(&mut self.state.log, len, entries);
        assert(before.take(len as int) =~= before);
        Ok(())
    }

    fn truncate_suffix(&mut self, first_index_to_remove: u64) -> (result: StorageResult<()>)
        ensures
            suffix_bounds_checked(
                "truncate"@,
                first_index_to_remove,
                old(self).state().log.len(),
                result,
            ),
    {
        match validate_suffix_index("truncate", first_index_to_remove, self.state.log.len()) {
            Ok(()) => {},
            Err(e) => {
                return Err(e);
            },
        }
        let ghost before = self.state.log@;
        self.state.log.truncate(first_index_to_remove as usize);
        assert(entries_of(self.state.log@) =~= entries_of(before).take(
            first_index_to_remove as int,
        ));
        Ok(())
    }

    fn replace_suffix(&mut self, first_index_to_remove: u64, entries: &[LogEntry]) -> (result:
        StorageResult<()>)
        ensures
            suffix_bounds_checked(
                "replace"@,
                first_index_to_remove,
                old(self).state().log.len(),
                result,
            ),
    {
        match validate_suffix_index("replace", first_index_to_remove, self.state.log.len()) {
            Ok(()) => {},
            Err(e) => {
                return Err(e);
            },
        }
        splice_suffix(&mut self.state.log, first_index_to_remove as usize, entries);
        Ok(())
    }

    fn sync(&mut self) -> (result: StorageResult<()>) {
        Ok(())
    }

    fn save_snapshot(&mut self, snapshot: Snapshot) -> (result: StorageResult<()>) {
        self.state.snapshot = Some(snapshot);
        Ok(())
    }

    fn compact_log(&mut self, last_included_index: u64, last_included_term: u64) -> (result:
        StorageResult<()>)
        ensures
            last_included_index < old(self).base() ==> invalid_with(
                result,
                before_base_message(last_included_index, old(self).base()),
            ),
    {
        match validate_compact_index(last_included_index, self.compact_base_index) {
            Ok(()) => {},
            Err(e) => {
                return Err(e);
            },
        }
        let local_index: u64 = last_included_index - self.compact_base_index;
        match compact_log_state(&mut self.state.log, local_index, last_included_term) {
            Ok(()) => {},
            Err(e) => {
                return Err(e);
            },
        }
        self.compact_base_index = last_included_index;
        Ok(())
    }
}

/// Turns the entry at `local_included_index` into the new sentinel and keeps what follows it.
pub fn compact_log_state(
    log: &mut Vec<LogEntry>,
    local_included_index: u64,
    last_included_term: u64,
) -> (result: StorageResult<()>)
    requires
        local_included_index < u64::MAX,
    ensures
        result is Ok,
        entries_of(final(log)@) == compacted(
            entries_of(old(log)@),
            local_included_index as int,
            last_included_term,
        ),
{
    let len: u64 = log.len() as u64;
    let mut shorter: Vec<LogEntry> = Vec::new();
    shorter.push(LogEntry { term: last_included_term, command: Vec::new() });
    assert(entries_of(shorter@) =~= seq![sentinel(last_included_term)]);
    if local_included_index + 1 < len {
        let mut tail = clone_suffix(log.as_slice(), (local_included_index + 1) as usize);
        let ghost head = shorter@;
        let ghost kept = tail@;
        shorter.append(&mut tail);
        assert(entries_of(head + kept) =~= entries_of(head) + entries_of(kept));
    }
    assert(entries_of(shorter@) =~= compacted(
        entries_of(log@),
        local_included_index as int,
        last_included_term,
    ));
    *log = shorter;
    Ok(())
}

/// Memory never fails an operation that the log bounds allow, has nothing to flush, and is usable as
/// long as its log starts with a sentinel.
pub proof fn lemma_memory_never_fails(storage: MemoryStorage)
    ensures
        storage.reliable(),
        storage.flushed(),
        storage.valid() <==> storage.state().has_sentinel(),
{
}

/// A suffix operation is answered by its bounds alone: it goes on from the first real entry to the end
/// of the log, and is an invalid operation anywhere else.
pub proof fn lemma_suffix_bounds_checked(
    operation: Seq<char>,
    first: u64,
    len: nat,
    result: StorageResult<()>,
)
    requires
        suffix_bounds_checked(operation, first, len, result),
    ensures
        result is Ok <==> first >= 1 && first <= len,
        first == 0 ==> (result matches Err(e) && e.is_invalid_operation(
            "cannot "@ + operation + " the sentinel log entry"@,
        )),
        first >= 1 && first > len ==> (result matches Err(e) && e.is_invalid_operation(
            operation + " index "@ + decimal(first as nat) + " is past log length "@ + decimal(len),
        )),
{
}

} // verus!
