//! What holds of storage whatever is written to it: suffix operations, compaction, and what a restart
//! finds on the files.
use crate::storage::file::{
    base_record, fits_wal, open_refused, opened, rewritten, tail_record, FileStorage, OpenFault,
    Opened, WalRewrite,
};
use crate::storage::format::{
    decoded_hard_state, decoded_record, decoded_snapshot, encoded_hard_state, encoded_record,
    encoded_snapshot, lemma_decoded_hard_state, lemma_decoded_snapshot, not_a_record, RecordView,
};
use crate::storage::memory::{before_base_message, past_end_message, sentinel_message};
use crate::storage::utils::crc32;
use crate::storage::wal::{
    applied, framed, fresh_wal, lemma_record_extends_log, lemma_record_is_read_back,
    lemma_repaired_log_reads_back, lemma_replay_goes_on, lemma_replay_keeps_sentinel,
    lemma_torn_record_is_dropped, loaded, payload_of, payload_refused, refused, replayed,
    wal_header, WalFault, WalRepair, WalReplay, WalView, WAL_HEADER_LEN,
};
use crate::storage::{
    compacted, replaced_suffix, suffix_index_in_bounds, HardState, SavedState, StorageError,
    StorageResult, StorageState,
};
use crate::text::decimal;
use crate::utilis::types::{sentinel, Entry, SnapshotView};
use vstd::bytes::spec_u32_to_le_bytes;
use vstd::prelude::*;

verus! {

/// Replacing a suffix by nothing truncates.
pub proof fn lemma_replace_with_nothing_truncates(log: Seq<Entry>, first: int)
    requires
        0 <= first <= log.len(),
    ensures
        replaced_suffix(log, first, Seq::empty()) == log.take(first),
{
    assert(replaced_suffix(log, first, Seq::empty()) =~= log.take(first));
}

/// Replacing the suffix at the end of a log appends.
pub proof fn lemma_replace_at_end_appends(log: Seq<Entry>, entries: Seq<Entry>)
    ensures
        replaced_suffix(log, log.len() as int, entries) == log + entries,
{
    assert(log.take(log.len() as int) =~= log);
}

/// Truncating at the end of a log changes nothing.
pub proof fn lemma_truncate_at_end_keeps_log(log: Seq<Entry>)
    ensures
        log.take(log.len() as int) == log,
{
    assert(log.take(log.len() as int) =~= log);
}

/// Truncating at the end that a log had undoes what was appended since.
pub proof fn lemma_truncate_undoes_append(log: Seq<Entry>, entries: Seq<Entry>)
    ensures
        (log + entries).take(log.len() as int) == log,
{
    assert((log + entries).take(log.len() as int) =~= log);
}

/// No suffix operation within the bounds touches the sentinel.
pub proof fn lemma_suffix_operations_keep_sentinel(log: Seq<Entry>, first: u64, entries: Seq<Entry>)
    requires
        suffix_index_in_bounds(first, log.len()),
    ensures
        replaced_suffix(log, first as int, entries).len() >= 1,
        replaced_suffix(log, first as int, entries)[0] == log[0],
{
}

/// Compaction drops what it covers and nothing else: every entry behind the new base keeps its
/// absolute index.
pub proof fn lemma_compaction_keeps_later_entries(
    log: Seq<Entry>,
    base: u64,
    new_base: u64,
    term: u64,
)
    requires
        base <= new_base,
    ensures
        compacted(log, new_base - base, term)[0] == sentinel(term),
        forall|index: int|
            new_base < index < base + log.len() ==> {
                &&& index - new_base < compacted(log, new_base - base, term).len()
                &&& #[trigger] compacted(log, new_base - base, term)[index - new_base] == log[index
                    - base]
            },
        new_base < base + log.len() ==> new_base + compacted(log, new_base - base, term).len()
            == base + log.len(),
        new_base >= base + log.len() ==> compacted(log, new_base - base, term).len() == 1,
{
}

/// Compacting twice comes to compacting once, to the later index.
pub proof fn lemma_compactions_add_up(log: Seq<Entry>, a: int, b: int, t: u64, u: u64)
    requires
        0 <= a <= b,
    ensures
        compacted(compacted(log, a, t), b - a, u) == compacted(log, b, u),
{
    assert(compacted(compacted(log, a, t), b - a, u) =~= compacted(log, b, u));
}

/// The files of a node.
pub struct DiskView {
    /// The file of the term and the vote, where there is one.
    pub hard_state: Option<Seq<u8>>,
    /// The file of the snapshot, where there is one.
    pub snapshot: Option<Seq<u8>>,
    /// The write-ahead log.
    pub wal: Seq<u8>,
}

/// What a start reads of the term and the vote; nothing where the file is damaged.
pub open spec fn stored_hard_state(file: Option<Seq<u8>>) -> Option<HardState> {
    match file {
        None => Some(HardState { current_term: 0, voted_for: None }),
        Some(bytes) => decoded_hard_state(bytes),
    }
}

/// What a start reads of the snapshot; nothing where the file is damaged.
pub open spec fn stored_snapshot(file: Option<Seq<u8>>) -> Option<Option<SnapshotView>> {
    match file {
        None => Some(None),
        Some(bytes) => match decoded_snapshot(bytes) {
            Some(snapshot) => Some(Some(snapshot)),
            None => None,
        },
    }
}

/// The records of a write-ahead log.
pub open spec fn wal_body(bytes: Seq<u8>) -> Seq<u8> {
    bytes.skip(WAL_HEADER_LEN as int)
}

/// A file opens with the header.
pub open spec fn opens_with_header(bytes: Seq<u8>) -> bool {
    bytes.len() >= WAL_HEADER_LEN && bytes.take(WAL_HEADER_LEN as int) == wal_header()
}

/// What reading back the records of a file comes to.
pub open spec fn wal_replay(bytes: Seq<u8>) -> Result<(WalView, nat), WalFault> {
    replayed(wal_body(bytes), WAL_HEADER_LEN as nat, fresh_wal())
}

/// What a start reads of the write-ahead log; nothing where the file is damaged.
pub open spec fn stored_wal(bytes: Seq<u8>) -> Option<WalView> {
    if bytes.len() < WAL_HEADER_LEN {
        Some(fresh_wal())
    } else if !opens_with_header(bytes) {
        None
    } else {
        match wal_replay(bytes) {
            Ok((wal, _)) => Some(wal),
            Err(_) => None,
        }
    }
}

/// What a start makes of the files; nothing where one is damaged or they do not fit together.
pub open spec fn reopened(disk: DiskView) -> Option<Opened> {
    match (
        stored_hard_state(disk.hard_state),
        stored_snapshot(disk.snapshot),
        stored_wal(disk.wal),
    ) {
        (Some(hard_state), Some(snapshot), Some(wal)) => match opened(hard_state, snapshot, wal) {
            Ok(whole) => Some(whole),
            Err(_) => None,
        },
        _ => None,
    }
}

/// The write-ahead log reads back to its end, as a log `wal`.
pub open spec fn wal_holds(bytes: Seq<u8>, wal: WalView) -> bool {
    &&& opens_with_header(bytes)
    &&& wal_replay(bytes) == Ok::<(WalView, nat), WalFault>((wal, bytes.len()))
}

/// The logs agree behind their sentinels.
pub open spec fn same_entries(a: Seq<Entry>, b: Seq<Entry>) -> bool {
    &&& a.len() >= 1
    &&& a.len() == b.len()
    &&& a.skip(1) == b.skip(1)
}

/// The files hold `state`, whose log starts behind `base`: every file reads back, the write-ahead log
/// to its end, and a snapshot reaches as far as the log was compacted. The sentinel goes by the
/// snapshot, where there is one.
pub open spec fn disk_holds(disk: DiskView, state: SavedState, base: u64) -> bool {
    let wal = stored_wal(disk.wal)->Some_0;
    &&& stored_hard_state(disk.hard_state) == Some(state.hard_state)
    &&& stored_snapshot(disk.snapshot) == Some(state.snapshot)
    &&& wal_holds(disk.wal, wal)
    &&& wal.base_index == Some(base)
    &&& same_entries(wal.log, state.log)
    &&& state.has_sentinel()
    &&& match state.snapshot {
        None => base == 0 && wal.log == state.log,
        Some(s) => base <= s.last_included_index,
    }
}

/// What a restart makes of a state: a snapshot that is ahead of the log compacts it.
pub open spec fn recovered(state: SavedState, base: u64) -> (SavedState, u64) {
    match state.snapshot {
        None => (state, base),
        Some(s) => (
            SavedState {
                log: compacted(state.log, s.last_included_index - base, s.last_included_term),
                ..state
            },
            s.last_included_index,
        ),
    }
}

/// A restart finds what was stored: the term, the vote, the snapshot, and the log behind it.
pub proof fn lemma_restart_finds_what_was_stored(disk: DiskView, state: SavedState, base: u64)
    requires
        disk_holds(disk, state, base),
    ensures
        reopened(disk) matches Some(whole) && (whole.state, whole.base) == recovered(state, base),
{
    let wal = stored_wal(disk.wal)->Some_0;
    if let Some(s) = state.snapshot {
        let k = s.last_included_index - base;
        let t = s.last_included_term;
        assert(wal.log.skip(1).len() == state.log.skip(1).len());
        assert(compacted(wal.log, k, t) =~= compacted(state.log, k, t)) by {
            assert forall|i: int| k + 1 <= i < wal.log.len() implies wal.log[i] == state.log[i] by {
                assert(wal.log.skip(1)[i - 1] == state.log.skip(1)[i - 1]);
            }
        }
    }
}

/// A restart after a snapshot was saved and before the log was compacted comes to the same as if the
/// log had been compacted.
pub proof fn lemma_restart_makes_up_for_compaction(
    disk: DiskView,
    state: SavedState,
    base: u64,
    snapshot: SnapshotView,
)
    requires
        disk_holds(disk, state, base),
        state.snapshot == Some(snapshot),
    ensures
        reopened(disk) matches Some(whole) && {
            &&& whole.base == snapshot.last_included_index
            &&& whole.state == (SavedState {
                log: compacted(
                    state.log,
                    snapshot.last_included_index - base,
                    snapshot.last_included_term,
                ),
                ..state
            })
        },
{
    lemma_restart_finds_what_was_stored(disk, state, base);
}

/// The term and the vote are on disk once their file is written.
pub proof fn lemma_hard_state_is_durable(
    disk: DiskView,
    state: SavedState,
    base: u64,
    hard_state: HardState,
)
    requires
        disk_holds(disk, state, base),
    ensures
        disk_holds(
            DiskView { hard_state: Some(encoded_hard_state(hard_state)), ..disk },
            SavedState { hard_state, ..state },
            base,
        ),
{
    let bytes = encoded_hard_state(hard_state);
    assert(bytes =~= bytes.subrange(0, bytes.len() as int));
    lemma_decoded_hard_state(hard_state, bytes);
}

/// A snapshot is on disk once its file is written. One that lies before what the log was compacted to
/// does not fit it any more.
pub proof fn lemma_snapshot_is_durable(
    disk: DiskView,
    state: SavedState,
    base: u64,
    snapshot: SnapshotView,
)
    requires
        disk_holds(disk, state, base),
        encoded_snapshot(snapshot).len() <= u64::MAX,
        base <= snapshot.last_included_index,
    ensures
        disk_holds(
            DiskView { snapshot: Some(encoded_snapshot(snapshot)), ..disk },
            SavedState { snapshot: Some(snapshot), ..state },
            base,
        ),
{
    let bytes = encoded_snapshot(snapshot);
    assert(bytes =~= bytes.subrange(0, bytes.len() as int));
    lemma_decoded_snapshot(snapshot, bytes);
}

proof fn lemma_wal_extended(bytes: Seq<u8>, wal: WalView, record: RecordView, next: WalView)
    requires
        wal_holds(bytes, wal),
        encoded_record(record).len() <= u32::MAX,
        applied(wal, record, bytes.len()) == Ok::<WalView, WalFault>(next),
    ensures
        wal_holds(bytes + framed(encoded_record(record)), next),
{
    let frame = framed(encoded_record(record));
    let all = bytes + frame;
    assert(all.take(WAL_HEADER_LEN as int) =~= bytes.take(WAL_HEADER_LEN as int));
    assert(wal_body(all) =~= wal_body(bytes) + frame);
    lemma_record_extends_log(
        wal_body(bytes),
        record,
        WAL_HEADER_LEN as nat,
        fresh_wal(),
        wal,
        next,
    );
}

/// Appended entries are on disk once their record is written.
pub proof fn lemma_appended_entries_are_durable(
    disk: DiskView,
    state: SavedState,
    base: u64,
    entries: Seq<Entry>,
)
    requires
        disk_holds(disk, state, base),
        encoded_record(RecordView::Append(entries)).len() <= u32::MAX,
    ensures
        disk_holds(
            DiskView {
                wal: disk.wal + framed(encoded_record(RecordView::Append(entries))),
                ..disk
            },
            SavedState { log: state.log + entries, ..state },
            base,
        ),
{
    let wal = stored_wal(disk.wal)->Some_0;
    let next = WalView { log: wal.log + entries, ..wal };
    lemma_wal_extended(disk.wal, wal, RecordView::Append(entries), next);
    assert((wal.log + entries).skip(1) =~= wal.log.skip(1) + entries);
    assert((state.log + entries).skip(1) =~= state.log.skip(1) + entries);
}

/// A replaced suffix is on disk once its record is written.
pub proof fn lemma_replaced_suffix_is_durable(
    disk: DiskView,
    state: SavedState,
    base: u64,
    first: u64,
    entries: Seq<Entry>,
)
    requires
        disk_holds(disk, state, base),
        suffix_index_in_bounds(first, state.log.len()),
        encoded_record(
            (RecordView::ReplaceSuffix { first_index_to_remove: first, entries }),
        ).len() <= u32::MAX,
    ensures
        disk_holds(
            DiskView {
                wal: disk.wal + framed(
                    encoded_record(
                        (RecordView::ReplaceSuffix { first_index_to_remove: first, entries }),
                    ),
                ),
                ..disk
            },
            SavedState { log: replaced_suffix(state.log, first as int, entries), ..state },
            base,
        ),
{
    let wal = stored_wal(disk.wal)->Some_0;
    let record = RecordView::ReplaceSuffix { first_index_to_remove: first, entries };
    let next = WalView { log: replaced_suffix(wal.log, first as int, entries), ..wal };
    lemma_wal_extended(disk.wal, wal, record, next);
    let cut = first as int - 1;
    assert(next.log.skip(1) =~= wal.log.skip(1).take(cut) + entries);
    assert(replaced_suffix(state.log, first as int, entries).skip(1) =~= state.log.skip(1).take(cut)
        + entries);
}

/// A record that a crash cut short leaves no trace: a restart finds what was there before it.
pub proof fn lemma_torn_record_leaves_no_trace(
    disk: DiskView,
    state: SavedState,
    base: u64,
    record: RecordView,
    written: nat,
)
    requires
        disk_holds(disk, state, base),
        encoded_record(record).len() <= u32::MAX,
        written < framed(encoded_record(record)).len(),
    ensures
        reopened(
            DiskView {
                wal: disk.wal + framed(encoded_record(record)).take(written as int),
                ..disk
            },
        ) == reopened(disk),
{
    let torn = framed(encoded_record(record)).take(written as int);
    let all = disk.wal + torn;
    assert(all.take(WAL_HEADER_LEN as int) =~= disk.wal.take(WAL_HEADER_LEN as int));
    assert(wal_body(all) =~= wal_body(disk.wal) + torn);
    lemma_torn_record_is_dropped(
        wal_body(disk.wal),
        encoded_record(record),
        written,
        WAL_HEADER_LEN as nat,
        fresh_wal(),
        stored_wal(disk.wal)->Some_0,
    );
}

/// A rewritten write-ahead log reads back as the log that it was written from.
pub proof fn lemma_rewritten_log_reads_back(base: u64, log: Seq<Entry>)
    requires
        log.len() >= 1,
        log[0].command.len() == 0,
        fits_wal(log),
    ensures
        wal_holds(rewritten(base, log), (WalView { log, base_index: Some(base) })),
{
    vstd::bytes::lemma_auto_spec_u32_to_from_le_bytes();
    vstd::bytes::lemma_auto_spec_u64_to_from_le_bytes();
    let header = wal_header();
    assert(header.take(WAL_HEADER_LEN as int) =~= header);
    assert(wal_body(header) =~= Seq::empty());
    assert(wal_holds(header, fresh_wal()));
    let first = WalView { log: seq![log[0]], base_index: Some(base) };
    assert(log[0] =~= sentinel(log[0].term));
    lemma_wal_extended(header, fresh_wal(), base_record(base, log), first);
    let opening = header + framed(encoded_record(base_record(base, log)));
    assert(wal_holds(opening, first));
    if log.len() > 1 {
        let whole = WalView { log, base_index: Some(base) };
        assert(first.log + log.skip(1) =~= log);
        lemma_wal_extended(opening, first, tail_record(log), whole);
    } else {
        assert(seq![log[0]] =~= log);
    }
}

/// A compaction that a snapshot covers is on disk once the write-ahead log is rewritten.
pub proof fn lemma_compaction_is_durable(
    disk: DiskView,
    state: SavedState,
    base: u64,
    snapshot: SnapshotView,
    index: u64,
    term: u64,
)
    requires
        disk_holds(disk, state, base),
        state.snapshot == Some(snapshot),
        base <= index <= snapshot.last_included_index,
        fits_wal(compacted(state.log, index - base, term)),
    ensures
        disk_holds(
            DiskView { wal: rewritten(index, compacted(state.log, index - base, term)), ..disk },
            SavedState { log: compacted(state.log, index - base, term), ..state },
            index,
        ),
{
    lemma_rewritten_log_reads_back(index, compacted(state.log, index - base, term));
}

/// The files after a start: the write-ahead log is rewritten where it was behind, and cut to its last
/// full record otherwise.
pub open spec fn disk_after_start(disk: DiskView, whole: Opened) -> DiskView {
    if whole.rewrite {
        DiskView { wal: rewritten(whole.base, whole.state.log), ..disk }
    } else {
        DiskView { wal: disk.wal.take(wal_replay(disk.wal)->Ok_0.1 as int), ..disk }
    }
}

/// After a start the files hold the state that the node starts with, and another restart finds it
/// again.
pub proof fn lemma_start_leaves_files_in_order(disk: DiskView, whole: Opened)
    requires
        reopened(disk) == Some(whole),
        whole.rewrite ==> fits_wal(whole.state.log),
    ensures
        disk_holds(disk_after_start(disk, whole), whole.state, whole.base),
        reopened(disk_after_start(disk, whole)) == Some(Opened { rewrite: false, ..whole }),
{
    let after = disk_after_start(disk, whole);
    let wal = stored_wal(disk.wal)->Some_0;
    let body = wal_body(disk.wal);
    let end = wal_replay(disk.wal)->Ok_0.1;
    if disk.wal.len() >= WAL_HEADER_LEN {
        lemma_replay_keeps_sentinel(body, WAL_HEADER_LEN as nat, fresh_wal(), wal, end);
    }
    if whole.rewrite {
        lemma_rewritten_log_reads_back(whole.base, whole.state.log);
    } else {
        lemma_repaired_log_reads_back(body, WAL_HEADER_LEN as nat, fresh_wal(), wal, end);
        assert(after.wal.take(WAL_HEADER_LEN as int) =~= disk.wal.take(WAL_HEADER_LEN as int));
        assert(wal_body(after.wal) =~= body.take(end - WAL_HEADER_LEN));
        assert(whole.state.log.skip(1) =~= wal.log.skip(1));
    }
    lemma_restart_finds_what_was_stored(after, whole.state, whole.base);
    if let Some(s) = whole.state.snapshot {
        let log = whole.state.log;
        assert(log[0].command =~= Seq::empty());
        assert(log[0] =~= sentinel(s.last_included_term));
        assert(compacted(log, 0, s.last_included_term) =~= log);
    }
}

/// Where a suffix may begin: behind the sentinel, and at the end of the log at the latest.
pub proof fn lemma_suffix_bounds(first: u64, len: nat)
    ensures
        suffix_index_in_bounds(first, len) <==> first >= 1 && first <= len,
{
}

/// A replaced suffix: what was before it stays, and what is behind it are the new entries.
pub proof fn lemma_replaced_suffix(log: Seq<Entry>, first: int, entries: Seq<Entry>)
    requires
        0 <= first <= log.len(),
    ensures
        replaced_suffix(log, first, entries).len() == first + entries.len(),
        forall|i: int| 0 <= i < first ==> replaced_suffix(log, first, entries)[i] == log[i],
        forall|i: int|
            0 <= i < entries.len() ==> replaced_suffix(log, first, entries)[first + i]
                == #[trigger] entries[i],
{
}

/// A log starts with a sentinel where its first entry has no command.
pub proof fn lemma_has_sentinel(state: SavedState)
    ensures
        state.has_sentinel() <==> state.log.len() > 0 && state.log[0].command == Seq::<u8>::empty(),
{
    if state.log.len() > 0 && state.log[0].command.len() == 0 {
        assert(state.log[0].command =~= Seq::<u8>::empty());
    }
}

/// What is said of a stored state is said of its fields.
pub proof fn lemma_state_view(state: StorageState)
    ensures
        state@.hard_state == state.hard_state,
        state@.log.len() == state.log@.len(),
        forall|i: int|
            0 <= i < state.log@.len() ==> (#[trigger] state@.log[i]).term == state.log@[i].term
                && state@.log[i].command == state.log@[i].command@,
        state@.snapshot is Some <==> state.snapshot is Some,
        state.snapshot matches Some(snapshot) ==> state@.snapshot == Some(snapshot@),
{
}

/// What is said of an operation on the log that is turned down.
pub proof fn lemma_suffix_messages(operation: Seq<char>, first: u64, len: nat, base: u64)
    ensures
        sentinel_message(operation) == "cannot "@ + operation + " the sentinel log entry"@,
        past_end_message(operation, first, len) == operation + " index "@ + decimal(first as nat)
            + " is past log length "@ + decimal(len),
        before_base_message(first, base) == "compact index "@ + decimal(first as nat)
            + " is before base index "@ + decimal(base as nat),
{
}

/// How the files go together, by what each of them says. A log that starts at the beginning needs no
/// snapshot; one that does not needs a snapshot that reaches as far; one that says nothing starts
/// where the snapshot ends, or at the beginning.
pub proof fn lemma_files_go_together(
    hard_state: HardState,
    snapshot: Option<SnapshotView>,
    wal: WalView,
)
    requires
        wal.log.len() >= 1,
        wal.log[0].command.len() == 0,
    ensures
        ({
            let end = match snapshot {
                Some(s) => s.last_included_index,
                None => 0,
            };
            let start = match wal.base_index {
                Some(base) => base,
                None => end,
            };
            &&& opened(hard_state, snapshot, wal) is Ok <==> start <= end
            &&& start > end && snapshot is Some ==> opened(hard_state, snapshot, wal)
                == Err::<Opened, OpenFault>(
                OpenFault::BaseAfterSnapshot { base: start, snapshot: end },
            )
            &&& start > end && snapshot is None ==> opened(hard_state, snapshot, wal)
                == Err::<Opened, OpenFault>(OpenFault::NoSnapshot { base: start })
            &&& opened(hard_state, snapshot, wal) matches Ok(whole) ==> {
                let log = whole.state.log;
                &&& whole.base == end
                &&& whole.state.hard_state == hard_state
                &&& whole.state.snapshot == snapshot
                &&& whole.rewrite <==> wal.base_index != Some(end)
                &&& log.len() >= 1
                &&& log[0].command.len() == 0
                &&& log[0].term == (match snapshot {
                    Some(s) => s.last_included_term,
                    None => wal.log[0].term,
                })
                &&& end - start >= wal.log.len() ==> log.len() == 1
                &&& end - start < wal.log.len() ==> log.len() == wal.log.len() - (end - start)
                &&& forall|i: int| 1 <= i < log.len() ==> #[trigger] log[i] == wal.log[i + (end
                    - start)]
            }
        }),
{
}

/// What is said of files that do not go together.
pub proof fn lemma_open_faults<T>(result: StorageResult<T>, fault: OpenFault)
    requires
        open_refused(result, fault),
    ensures
        fault is NoSentinel ==> (result matches Err(e) && e.is_invalid_operation(
            "log must start with an empty sentinel entry"@,
        )),
        fault matches OpenFault::NoSnapshot { base } ==> (result matches Err(e)
            && e.is_corruption(
            "WAL base index "@ + decimal(base as nat) + " requires a snapshot"@,
        )),
        fault matches OpenFault::BaseAfterSnapshot { base, snapshot } ==> (result matches Err(e)
            && e.is_corruption(
            "WAL base index "@ + decimal(base as nat) + " is after snapshot index "@ + decimal(
                snapshot as nat,
            ),
        )),
{
}

/// A log can be written down exactly when what is behind its sentinel fits the length of one record.
pub proof fn lemma_fitting_log(log: Seq<Entry>)
    ensures
        fits_wal(log) <==> log.len() <= 1 || encoded_record(RecordView::Append(log.skip(1))).len()
            <= u32::MAX,
{
}

/// A rewrite that came out holds the log that it was made for.
pub proof fn lemma_rewrite_holds_log(rewrite: WalRewrite, base: u64, log: Seq<Entry>)
    requires
        rewrite.writes(base, log),
        log.len() >= 1,
        log[0].command.len() == 0,
    ensures
        rewrite.outcome is Ok <==> log.len() <= 1 || encoded_record(
            RecordView::Append(log.skip(1)),
        ).len() <= u32::MAX,
        rewrite.outcome is Ok ==> wal_holds(
            rewrite.contents@,
            (WalView { log, base_index: Some(base) }),
        ),
{
    if rewrite.outcome is Ok {
        lemma_rewritten_log_reads_back(base, log);
    }
}

/// What is written for a replaced suffix makes the files hold the log with that suffix replaced. It is
/// refused where the suffix begins at the sentinel or past the end, or does not fit one record, and
/// nowhere else.
pub proof fn lemma_framed_suffix_is_durable(
    storage: FileStorage,
    disk: DiskView,
    first: u64,
    entries: Seq<Entry>,
    result: StorageResult<Vec<u8>>,
)
    requires
        disk_holds(disk, storage.state(), storage.base()),
        storage.suffix_framed(first, entries, result),
    ensures
        result is Ok <==> first >= 1 && first <= storage.state().log.len() && encoded_record(
            (RecordView::ReplaceSuffix { first_index_to_remove: first, entries }),
        ).len() <= u32::MAX,
        result is Err ==> result->Err_0 is InvalidOperation,
        result matches Ok(frame) ==> disk_holds(
            DiskView { wal: disk.wal + frame@, ..disk },
            SavedState {
                log: storage.state().log.take(first as int) + entries,
                ..storage.state()
            },
            storage.base(),
        ),
{
    if let Ok(frame) = result {
        lemma_replaced_suffix_is_durable(disk, storage.state(), storage.base(), first, entries);
    }
}

/// The header is the name of the format.
pub proof fn lemma_header()
    ensures
        wal_header().len() == "RUFTWAL"@.len(),
        forall|i: int|
            0 <= i < wal_header().len() ==> #[trigger] wal_header()[i] == "RUFTWAL"@[i] as u8,
{
    reveal_strlit("RUFTWAL");
}

/// A frame: the length of the payload and its checksum in four bytes each, little end first, and the
/// payload.
pub proof fn lemma_frame(payload: Seq<u8>)
    requires
        payload.len() <= u32::MAX,
    ensures
        framed(payload).len() == 8 + payload.len(),
        framed(payload).subrange(0, 4) == spec_u32_to_le_bytes(payload.len() as u32),
        framed(payload).subrange(4, 8) == spec_u32_to_le_bytes(crc32(payload)),
        framed(payload).skip(8) == payload,
{
    vstd::bytes::lemma_auto_spec_u32_to_from_le_bytes();
    assert(framed(payload).subrange(0, 4) =~= spec_u32_to_le_bytes(payload.len() as u32));
    assert(framed(payload).subrange(4, 8) =~= spec_u32_to_le_bytes(crc32(payload)));
    assert(framed(payload).skip(8) =~= payload);
}

/// What one record makes of a log. A base comes first or not at all; entries are added at the end; a
/// replaced suffix begins behind the sentinel and inside the log or at its end.
pub proof fn lemma_one_record(wal: WalView, record: RecordView, offset: nat)
    requires
        wal.log.len() >= 1,
    ensures
        record matches RecordView::SetBase { index, term } ==> {
            &&& applied(wal, record, offset) is Ok <==> wal.log.len() == 1 && wal.base_index is None
            &&& applied(wal, record, offset) matches Ok(next) ==> {
                &&& next.base_index == Some(index)
                &&& next.log.len() == 1
                &&& next.log[0].term == term
                &&& next.log[0].command == wal.log[0].command
            }
        },
        record matches RecordView::Append(entries) ==> {
            &&& applied(wal, record, offset) matches Ok(next)
            &&& next.base_index == wal.base_index
            &&& next.log == wal.log + entries
        },
        record matches RecordView::ReplaceSuffix { first_index_to_remove, entries } ==> {
            let first = first_index_to_remove as int;
            &&& applied(wal, record, offset) is Ok <==> 1 <= first <= wal.log.len()
            &&& applied(wal, record, offset) matches Ok(next) ==> {
                &&& next.base_index == wal.base_index
                &&& next.log == wal.log.take(first) + entries
            }
        },
        applied(wal, record, offset) is Err ==> (match applied(wal, record, offset)->Err_0 {
            WalFault::LateBase { offset: at } => record is SetBase && at == offset,
            WalFault::SuffixIndex { first, len, offset: at } => record matches RecordView::ReplaceSuffix {
                first_index_to_remove,
                ..
            } && first == first_index_to_remove && len == wal.log.len() && at == offset,
            _ => false,
        }),
{
}

/// Every fault is a corruption, and says what and where it is.
pub proof fn lemma_faults_are_corruption<T>(result: StorageResult<T>, fault: WalFault)
    requires
        refused(result, fault),
    ensures
        result matches Err(StorageError::Corruption(message)) && match fault {
            WalFault::Checksum { offset } => message@ == "WAL record CRC mismatch at offset "@
                + decimal(offset),
            WalFault::LateBase { offset } => message@
                == "WAL base record is not the first record at offset "@ + decimal(offset),
            WalFault::SuffixIndex { first, len, offset } => message@
                == "invalid ReplaceSuffix index "@ + decimal(first as nat) + " for log length "@
                + decimal(len) + " at offset "@ + decimal(offset),
            WalFault::Payload { offset, .. } => ("invalid WAL record payload at offset "@ + decimal(
                offset,
            ) + ": "@).is_prefix_of(message@),
        },
{
    if let WalFault::Payload { offset, payload } = fault {
        let message = result->Err_0->Corruption_0@;
        let prefix = "invalid WAL record payload at offset "@ + decimal(offset) + ": "@;
        assert(payload_refused(message, prefix, payload));
        let cause = choose|cause: Seq<char>| #[trigger]
            not_a_record(payload, cause) && message == prefix + cause;
        assert(message.subrange(0, prefix.len() as int) =~= prefix);
    }
}

/// What is left of a file once its repair is made.
pub open spec fn repaired(bytes: Seq<u8>, repair: WalRepair) -> Seq<u8> {
    match repair {
        WalRepair::Keep => bytes,
        WalRepair::Reset => wal_header(),
        WalRepair::Truncate { len } => bytes.take(len as int),
    }
}

/// Reading a write-ahead log back: a file that is too short for the header is started over, one with
/// another header is refused, and whatever is read back is what the repaired file holds to its end.
pub proof fn lemma_load_wal(bytes: Seq<u8>, result: StorageResult<WalReplay>)
    requires
        bytes.len() <= u64::MAX,
        loaded(bytes, result),
    ensures
        bytes.len() < 7 ==> (result matches Ok(replay) && replay.repair == WalRepair::Reset
            && replay@.log == seq![sentinel(0)] && replay@.base_index is None),
        bytes.len() >= 7 && bytes.take(7) != wal_header() ==> (result matches Err(e)
            && e.is_corruption("invalid WAL header magic/version"@)),
        result matches Ok(replay) ==> {
            &&& stored_wal(bytes) == Some(replay@)
            &&& wal_holds(repaired(bytes, replay.repair), replay@)
            &&& replay@.log.len() >= 1
            &&& replay@.log[0].command.len() == 0
            &&& replay.repair matches WalRepair::Truncate { len } ==> 7 <= len < bytes.len()
        },
        result matches Err(e) ==> e is Corruption && stored_wal(bytes) is None,
{
    if bytes.len() < 7 {
        let header = wal_header();
        assert(header.take(7) =~= header);
        assert(wal_body(header) =~= Seq::empty());
    } else if bytes.take(7) == wal_header() {
        let body = wal_body(bytes);
        match wal_replay(bytes) {
            Ok((wal, end)) => {
                lemma_repaired_log_reads_back(body, 7, fresh_wal(), wal, end);
                lemma_replay_keeps_sentinel(body, 7, fresh_wal(), wal, end);
                let kept = bytes.take(end as int);
                assert(kept.take(7) =~= bytes.take(7));
                assert(wal_body(kept) =~= body.take(end - 7));
                if end == bytes.len() {
                    assert(kept =~= bytes);
                }
            },
            Err(fault) => {
                lemma_faults_are_corruption(result, fault);
            },
        }
    }
}

/// A log that reads back to its end and one more record: the record is taken in where it fits the log,
/// refused where it does not, and dropped where a crash cut it short.
pub proof fn lemma_load_one_more_record(
    bytes: Seq<u8>,
    wal: WalView,
    record: RecordView,
    written: nat,
    result: StorageResult<WalReplay>,
)
    requires
        wal_holds(bytes, wal),
        encoded_record(record).len() <= u32::MAX,
        written <= framed(encoded_record(record)).len(),
        bytes.len() + framed(encoded_record(record)).len() <= u64::MAX,
        loaded(bytes + framed(encoded_record(record)).take(written as int), result),
    ensures
        written == 0 ==> (result matches Ok(replay) && replay@ == wal && replay.repair
            == WalRepair::Keep),
        0 < written < framed(encoded_record(record)).len() ==> (result matches Ok(replay) && replay@
            == wal && replay.repair == (WalRepair::Truncate { len: bytes.len() as u64 })),
        written == framed(encoded_record(record)).len() ==> match applied(
            wal,
            record,
            bytes.len(),
        ) {
            Ok(next) => result matches Ok(replay) && replay@ == next && replay.repair
                == WalRepair::Keep,
            Err(_) => result matches Err(e) && e is Corruption,
        },
{
    let frame = framed(encoded_record(record));
    let part = frame.take(written as int);
    let all = bytes + part;
    let body = wal_body(bytes);
    vstd::bytes::lemma_auto_spec_u32_to_from_le_bytes();
    assert(all.take(7) =~= bytes.take(7));
    assert(wal_body(all) =~= body + part);
    if written < frame.len() {
        lemma_torn_record_is_dropped(
            body,
            encoded_record(record),
            written,
            7,
            fresh_wal(),
            wal,
        );
    } else {
        assert(part =~= frame);
        lemma_replay_goes_on(body, frame, 7, fresh_wal(), wal);
        lemma_record_is_read_back(record, Seq::empty(), bytes.len(), wal);
        assert(frame + Seq::<u8>::empty() =~= frame);
        if let Err(fault) = applied(wal, record, bytes.len()) {
            lemma_faults_are_corruption(result, fault);
        }
    }
}

/// A record that is there in full and whose payload is not a record, or does not have its checksum, is
/// never passed over: the file is refused.
pub proof fn lemma_damaged_record_is_refused(
    bytes: Seq<u8>,
    wal: WalView,
    payload: Seq<u8>,
    checksum: u32,
    more: Seq<u8>,
    result: StorageResult<WalReplay>,
)
    requires
        wal_holds(bytes, wal),
        payload.len() <= u32::MAX,
        checksum != crc32(payload) || decoded_record(payload) is None,
        loaded(
            bytes + (spec_u32_to_le_bytes(payload.len() as u32) + spec_u32_to_le_bytes(checksum)
                + payload + more),
            result,
        ),
    ensures
        result matches Err(e) && e is Corruption,
{
    vstd::bytes::lemma_auto_spec_u32_to_from_le_bytes();
    let tail = spec_u32_to_le_bytes(payload.len() as u32) + spec_u32_to_le_bytes(checksum) + payload
        + more;
    let all = bytes + tail;
    let body = wal_body(bytes);
    assert(all.take(7) =~= bytes.take(7));
    assert(wal_body(all) =~= body + tail);
    lemma_replay_goes_on(body, tail, 7, fresh_wal(), wal);
    assert(tail.subrange(0, 4) =~= spec_u32_to_le_bytes(payload.len() as u32));
    assert(tail.subrange(4, 8) =~= spec_u32_to_le_bytes(checksum));
    assert(payload_of(tail) =~= payload);
    let fault = wal_replay(all)->Err_0;
    lemma_faults_are_corruption(result, fault);
}

} // verus!
