//! The bytes that stand for log records, hard state and snapshots on disk.
//!
//! Everything is written by `bincode` in its default configuration: integers in little-endian order
//! and at full width, sequences behind their length, the fields of a value one after the other, and
//! the variant of an enum as a number in front of its fields.
use crate::storage::{HardState, StorageError, StorageResult};
use crate::text::{decimal, decimal_text};
use crate::utilis::types::{
    clone_bytes, entries_of, Entry, LogEntry, NodeId, Snapshot, SnapshotMetadata, SnapshotView,
};
use vstd::bytes::{spec_u32_to_le_bytes, spec_u64_to_le_bytes};
use vstd::prelude::*;

verus! {

/// Declares the error of `bincode`, of which only the text is used.
#[verifier::external_type_specification]
#[verifier::external_body]
pub struct ExBincodeErrorKind(bincode::ErrorKind);

/// The variant number of an append record.
pub const APPEND_TAG: u32 = 0;

/// The variant number of a suffix replacement.
pub const REPLACE_SUFFIX_TAG: u32 = 1;

/// The variant number of a base record.
pub const SET_BASE_TAG: u32 = 2;

/// A record as a mathematical value.
#[verifier::ext_equal]
pub enum RecordView {
    Append(Seq<Entry>),
    ReplaceSuffix { first_index_to_remove: u64, entries: Seq<Entry> },
    SetBase { index: u64, term: u64 },
}

/// A record of the write-ahead log: one change of the log. Replaying the records in order gives the
/// log.
#[derive(Debug)]
pub enum WalRecord {
    /// Appends entries in order.
    Append(Vec<LogEntry>),
    /// Cuts the log at an index and appends entries, as one change.
    ReplaceSuffix { first_index_to_remove: u64, entries: Vec<LogEntry> },
    /// Names the absolute index that the log starts behind, and its term.
    SetBase { index: u64, term: u64 },
}

impl View for WalRecord {
    type V = RecordView;

    open spec fn view(&self) -> RecordView {
        match self {
            WalRecord::Append(entries) => RecordView::Append(entries_of(entries@)),
            WalRecord::ReplaceSuffix { first_index_to_remove, entries } => {
                RecordView::ReplaceSuffix {
                    first_index_to_remove: *first_index_to_remove,
                    entries: entries_of(entries@),
                }
            },
            WalRecord::SetBase { index, term } => RecordView::SetBase { index: *index, term: *term },
        }
    }
}

/// Bytes behind their length.
pub open spec fn encoded_bytes(data: Seq<u8>) -> Seq<u8> {
    spec_u64_to_le_bytes(data.len() as u64) + data
}

/// One log entry: its term, then its command.
pub open spec fn encoded_entry(entry: Entry) -> Seq<u8> {
    spec_u64_to_le_bytes(entry.term) + encoded_bytes(entry.command)
}

/// Log entries one after the other.
pub open spec fn joined_entries(entries: Seq<Entry>) -> Seq<u8>
    decreases entries.len(),
{
    if entries.len() == 0 {
        Seq::empty()
    } else {
        encoded_entry(entries[0]) + joined_entries(entries.skip(1))
    }
}

/// Log entries behind their number.
pub open spec fn encoded_entries(entries: Seq<Entry>) -> Seq<u8> {
    spec_u64_to_le_bytes(entries.len() as u64) + joined_entries(entries)
}

/// The variant number of a record.
pub open spec fn record_tag(record: RecordView) -> u32 {
    match record {
        RecordView::Append(_) => APPEND_TAG,
        RecordView::ReplaceSuffix { .. } => REPLACE_SUFFIX_TAG,
        RecordView::SetBase { .. } => SET_BASE_TAG,
    }
}

/// The fields of a record, without its variant.
pub open spec fn encoded_fields(record: RecordView) -> Seq<u8> {
    match record {
        RecordView::Append(entries) => encoded_entries(entries),
        RecordView::ReplaceSuffix { first_index_to_remove, entries } => spec_u64_to_le_bytes(
            first_index_to_remove,
        ) + encoded_entries(entries),
        RecordView::SetBase { index, term } => spec_u64_to_le_bytes(index) + spec_u64_to_le_bytes(
            term,
        ),
    }
}

/// A record: its variant, then its fields.
pub open spec fn encoded_record(record: RecordView) -> Seq<u8> {
    spec_u32_to_le_bytes(record_tag(record)) + encoded_fields(record)
}

/// The vote: a zero, or a one and the id of the node.
pub open spec fn encoded_vote(voted_for: Option<NodeId>) -> Seq<u8> {
    match voted_for {
        None => seq![0u8],
        Some(id) => seq![1u8] + spec_u64_to_le_bytes(id),
    }
}

/// The hard state: the term, then the vote.
pub open spec fn encoded_hard_state(hard_state: HardState) -> Seq<u8> {
    spec_u64_to_le_bytes(hard_state.current_term) + encoded_vote(hard_state.voted_for)
}

/// A snapshot: what it covers, then its data.
pub open spec fn encoded_snapshot(snapshot: SnapshotView) -> Seq<u8> {
    spec_u64_to_le_bytes(snapshot.last_included_index) + (spec_u64_to_le_bytes(
        snapshot.last_included_term,
    ) + encoded_bytes(snapshot.data))
}

/// Log entries as pairs of term and command, the shape in which they are handed to `bincode`.
pub open spec fn entries_of_pairs(pairs: Seq<(u64, Vec<u8>)>) -> Seq<Entry> {
    pairs.map_values(|p: (u64, Vec<u8>)| Entry { term: p.0, command: p.1@ })
}

/// Calls `bincode::serialize` on a variant number and log entries. The claim is that it succeeds, as
/// the size is not limited and every sequence knows its length, and that the bytes are the number in
/// four bytes, how many entries there are, and each entry as its term and its command.
#[verifier::external_body]
fn serialize_tagged_entries(tag: u32, entries: &Vec<(u64, Vec<u8>)>) -> (result: Result<
    Vec<u8>,
    Box<bincode::ErrorKind>,
>)
    ensures
        result is Ok,
        result->Ok_0@ == spec_u32_to_le_bytes(tag) + encoded_entries(
            entries_of_pairs(entries@),
        ),
{
    bincode::serialize(&(tag, entries))
}

/// Calls `bincode::serialize` on a variant number, an index and log entries. The claim is that it
/// succeeds, and that the bytes are the number in four bytes, the index in eight, and the entries.
#[verifier::external_body]
fn serialize_tagged_suffix(tag: u32, first: u64, entries: &Vec<(u64, Vec<u8>)>) -> (result: Result<
    Vec<u8>,
    Box<bincode::ErrorKind>,
>)
    ensures
        result is Ok,
        result->Ok_0@ == spec_u32_to_le_bytes(tag) + (spec_u64_to_le_bytes(
            first,
        ) + encoded_entries(entries_of_pairs(entries@))),
{
    bincode::serialize(&(tag, first, entries))
}

/// Calls `bincode::serialize` on a variant number and two integers. The claim is that it succeeds,
/// and that the bytes are the number in four bytes and the integers in eight bytes each.
#[verifier::external_body]
fn serialize_tagged_base(tag: u32, index: u64, term: u64) -> (result: Result<
    Vec<u8>,
    Box<bincode::ErrorKind>,
>)
    ensures
        result is Ok,
        result->Ok_0@ == spec_u32_to_le_bytes(tag) + (spec_u64_to_le_bytes(
            index,
        ) + spec_u64_to_le_bytes(term)),
{
    bincode::serialize(&(tag, index, term))
}

/// Calls `bincode::serialize` on a term and a vote. The claim is that it succeeds, and that the bytes
/// are the term in eight bytes, and a zero for no vote or a one and the id.
#[verifier::external_body]
fn serialize_hard_state(current_term: u64, voted_for: Option<u64>) -> (result: Result<
    Vec<u8>,
    Box<bincode::ErrorKind>,
>)
    ensures
        result is Ok,
        result->Ok_0@ == encoded_hard_state(
            (HardState { current_term, voted_for }),
        ),
{
    bincode::serialize(&(current_term, voted_for))
}

/// Calls `bincode::serialize` on an index, a term and data. The claim is that it succeeds, and that
/// the bytes are the two integers in eight bytes each, the length of the data, and the data.
#[verifier::external_body]
fn serialize_snapshot(index: u64, term: u64, data: &Vec<u8>) -> (result: Result<
    Vec<u8>,
    Box<bincode::ErrorKind>,
>)
    ensures
        result is Ok,
        result->Ok_0@ == spec_u64_to_le_bytes(index) + (spec_u64_to_le_bytes(
            term,
        ) + encoded_bytes(data@)),
{
    bincode::serialize(&((index, term), data))
}

/// Calls `bincode::deserialize` for an integer of four bytes. The claim is that the value is read off
/// the front of the bytes, whatever follows it, and that an error means that the bytes do not begin
/// with such a value. Nothing is claimed of the error itself.
#[verifier::external_body]
fn deserialize_tag(bytes: &[u8]) -> (result: Result<u32, Box<bincode::ErrorKind>>)
    ensures
        match result {
            Ok(tag) => spec_u32_to_le_bytes(tag).is_prefix_of(bytes@),
            Err(_) => forall|tag: u32| !(#[trigger] spec_u32_to_le_bytes(tag)).is_prefix_of(bytes@),
        },
{
    bincode::deserialize(bytes)
}

/// Calls `bincode::deserialize` for a variant number and log entries. The claim is that the bytes
/// begin with the encoding of what is returned, whatever follows it, and that an error means that they
/// begin with no such encoding.
#[verifier::external_body]
fn deserialize_tagged_entries(bytes: &[u8]) -> (result: Result<
    (u32, Vec<(u64, Vec<u8>)>),
    Box<bincode::ErrorKind>,
>)
    ensures
        match result {
            Ok(value) => (spec_u32_to_le_bytes(value.0) + encoded_entries(
                entries_of_pairs(value.1@),
            )).is_prefix_of(bytes@),
            Err(_) => forall|tag: u32, entries: Seq<Entry>|
                !(#[trigger] (spec_u32_to_le_bytes(tag) + encoded_entries(entries))).is_prefix_of(
                    bytes@,
                ),
        },
{
    bincode::deserialize(bytes)
}

/// Calls `bincode::deserialize` for a variant number, an index and log entries. The claim is that the
/// bytes begin with the encoding of what is returned, whatever follows it, and that an error means that
/// they begin with no such encoding.
#[verifier::external_body]
fn deserialize_tagged_suffix(bytes: &[u8]) -> (result: Result<
    (u32, u64, Vec<(u64, Vec<u8>)>),
    Box<bincode::ErrorKind>,
>)
    ensures
        match result {
            Ok(value) => (spec_u32_to_le_bytes(value.0) + (spec_u64_to_le_bytes(value.1)
                + encoded_entries(entries_of_pairs(value.2@)))).is_prefix_of(bytes@),
            Err(_) => forall|tag: u32, first: u64, entries: Seq<Entry>|
                !(#[trigger] (spec_u32_to_le_bytes(tag) + (spec_u64_to_le_bytes(first)
                    + encoded_entries(entries)))).is_prefix_of(bytes@),
        },
{
    bincode::deserialize(bytes)
}

/// Calls `bincode::deserialize` for a variant number and two integers. The claim is that the bytes
/// begin with the encoding of what is returned, whatever follows it, and that an error means that they
/// begin with no such encoding.
#[verifier::external_body]
fn deserialize_tagged_base(bytes: &[u8]) -> (result: Result<
    (u32, u64, u64),
    Box<bincode::ErrorKind>,
>)
    ensures
        match result {
            Ok(value) => (spec_u32_to_le_bytes(value.0) + (spec_u64_to_le_bytes(value.1)
                + spec_u64_to_le_bytes(value.2))).is_prefix_of(bytes@),
            Err(_) => forall|tag: u32, index: u64, term: u64|
                !(#[trigger] (spec_u32_to_le_bytes(tag) + (spec_u64_to_le_bytes(index)
                    + spec_u64_to_le_bytes(term)))).is_prefix_of(bytes@),
        },
{
    bincode::deserialize(bytes)
}

/// Calls `bincode::deserialize` for a term and a vote. The claim is that the bytes begin with the
/// encoding of what is returned, whatever follows it, and that an error means that they begin with no
/// such encoding.
#[verifier::external_body]
fn deserialize_hard_state(bytes: &[u8]) -> (result: Result<
    (u64, Option<u64>),
    Box<bincode::ErrorKind>,
>)
    ensures
        match result {
            Ok(value) => encoded_hard_state(
                (HardState { current_term: value.0, voted_for: value.1 }),
            ).is_prefix_of(bytes@),
            Err(_) => forall|hard_state: HardState|
                !(#[trigger] encoded_hard_state(hard_state)).is_prefix_of(bytes@),
        },
{
    bincode::deserialize(bytes)
}

/// Calls `bincode::deserialize` for an index, a term and data. The claim is that the bytes begin with
/// the encoding of what is returned, whatever follows it, and that an error means that they begin with
/// no such encoding.
#[verifier::external_body]
fn deserialize_snapshot(bytes: &[u8]) -> (result: Result<
    ((u64, u64), Vec<u8>),
    Box<bincode::ErrorKind>,
>)
    ensures
        match result {
            Ok(value) => encoded_snapshot(
                (SnapshotView {
                    last_included_index: value.0.0,
                    last_included_term: value.0.1,
                    data: value.1@,
                }),
            ).is_prefix_of(bytes@),
            Err(_) => forall|snapshot: SnapshotView|
                !(#[trigger] encoded_snapshot(snapshot)).is_prefix_of(bytes@),
        },
{
    bincode::deserialize(bytes)
}

proof fn lemma_split_prefix(a: Seq<u8>, b: Seq<u8>, s: Seq<u8>)
    ensures
        (a + b).is_prefix_of(s) <==> a.is_prefix_of(s) && b.is_prefix_of(s.skip(a.len() as int)),
{
    if (a + b).is_prefix_of(s) {
        assert forall|i: int| 0 <= i < a.len() implies a[i] == s[i] by {
            assert((a + b)[i] == s.subrange(0, (a + b).len() as int)[i]);
        }
        assert(a =~= s.subrange(0, a.len() as int));
        let rest = s.skip(a.len() as int);
        assert forall|i: int| 0 <= i < b.len() implies b[i] == rest[i] by {
            assert((a + b)[a.len() + i] == s.subrange(0, (a + b).len() as int)[a.len() + i]);
        }
        assert(b =~= rest.subrange(0, b.len() as int));
    }
    if a.is_prefix_of(s) && b.is_prefix_of(s.skip(a.len() as int)) {
        let rest = s.skip(a.len() as int);
        assert forall|i: int| 0 <= i < (a + b).len() implies (a + b)[i] == s[i] by {
            if i < a.len() {
                assert(a[i] == s.subrange(0, a.len() as int)[i]);
            } else {
                assert(b[i - a.len()] == rest.subrange(0, b.len() as int)[i - a.len()]);
            }
        }
        assert(a + b =~= s.subrange(0, (a + b).len() as int));
    }
}

proof fn lemma_same_length_prefixes(a: Seq<u8>, b: Seq<u8>, s: Seq<u8>)
    requires
        a.is_prefix_of(s),
        b.is_prefix_of(s),
        a.len() == b.len(),
    ensures
        a == b,
{
}

proof fn lemma_u32_front(a: u32, b: u32, s: Seq<u8>)
    requires
        spec_u32_to_le_bytes(a).is_prefix_of(s),
        spec_u32_to_le_bytes(b).is_prefix_of(s),
    ensures
        a == b,
{
    vstd::bytes::lemma_auto_spec_u32_to_from_le_bytes();
    lemma_same_length_prefixes(spec_u32_to_le_bytes(a), spec_u32_to_le_bytes(b), s);
}

proof fn lemma_u64_front(a: u64, b: u64, s: Seq<u8>)
    requires
        spec_u64_to_le_bytes(a).is_prefix_of(s),
        spec_u64_to_le_bytes(b).is_prefix_of(s),
    ensures
        a == b,
{
    vstd::bytes::lemma_auto_spec_u64_to_from_le_bytes();
    lemma_same_length_prefixes(spec_u64_to_le_bytes(a), spec_u64_to_le_bytes(b), s);
}

proof fn lemma_u64_split(a: u64, rest: Seq<u8>, s: Seq<u8>)
    ensures
        spec_u64_to_le_bytes(a).len() == 8,
        (spec_u64_to_le_bytes(a) + rest).is_prefix_of(s) <==> spec_u64_to_le_bytes(a).is_prefix_of(
            s,
        ) && rest.is_prefix_of(s.skip(8)),
{
    vstd::bytes::lemma_auto_spec_u64_to_from_le_bytes();
    lemma_split_prefix(spec_u64_to_le_bytes(a), rest, s);
}

proof fn lemma_u32_split(a: u32, rest: Seq<u8>, s: Seq<u8>)
    ensures
        spec_u32_to_le_bytes(a).len() == 4,
        (spec_u32_to_le_bytes(a) + rest).is_prefix_of(s) <==> spec_u32_to_le_bytes(a).is_prefix_of(
            s,
        ) && rest.is_prefix_of(s.skip(4)),
{
    vstd::bytes::lemma_auto_spec_u32_to_from_le_bytes();
    lemma_split_prefix(spec_u32_to_le_bytes(a), rest, s);
}

proof fn lemma_bytes_front(a: Seq<u8>, b: Seq<u8>, s: Seq<u8>)
    requires
        encoded_bytes(a).is_prefix_of(s),
        encoded_bytes(b).is_prefix_of(s),
        s.len() <= u64::MAX,
    ensures
        a == b,
{
    lemma_u64_split(a.len() as u64, a, s);
    lemma_u64_split(b.len() as u64, b, s);
    lemma_u64_front(a.len() as u64, b.len() as u64, s);
    lemma_same_length_prefixes(a, b, s.skip(8));
}

proof fn lemma_entry_front(a: Entry, b: Entry, s: Seq<u8>)
    requires
        encoded_entry(a).is_prefix_of(s),
        encoded_entry(b).is_prefix_of(s),
        s.len() <= u64::MAX,
    ensures
        a == b,
{
    lemma_u64_split(a.term, encoded_bytes(a.command), s);
    lemma_u64_split(b.term, encoded_bytes(b.command), s);
    lemma_u64_front(a.term, b.term, s);
    lemma_bytes_front(a.command, b.command, s.skip(8));
}

proof fn lemma_joined_length(entries: Seq<Entry>)
    ensures
        joined_entries(entries).len() >= entries.len(),
    decreases entries.len(),
{
    if entries.len() > 0 {
        vstd::bytes::lemma_auto_spec_u64_to_from_le_bytes();
        lemma_joined_length(entries.skip(1));
    }
}

proof fn lemma_joined_front(a: Seq<Entry>, b: Seq<Entry>, s: Seq<u8>)
    requires
        a.len() == b.len(),
        joined_entries(a).is_prefix_of(s),
        joined_entries(b).is_prefix_of(s),
        s.len() <= u64::MAX,
    ensures
        a == b,
    decreases a.len(),
{
    if a.len() > 0 {
        lemma_split_prefix(encoded_entry(a[0]), joined_entries(a.skip(1)), s);
        lemma_split_prefix(encoded_entry(b[0]), joined_entries(b.skip(1)), s);
        lemma_entry_front(a[0], b[0], s);
        lemma_joined_front(a.skip(1), b.skip(1), s.skip(encoded_entry(a[0]).len() as int));
        assert(a =~= seq![a[0]] + a.skip(1));
        assert(b =~= seq![b[0]] + b.skip(1));
    } else {
        assert(a =~= b);
    }
}

proof fn lemma_entries_front(a: Seq<Entry>, b: Seq<Entry>, s: Seq<u8>)
    requires
        encoded_entries(a).is_prefix_of(s),
        encoded_entries(b).is_prefix_of(s),
        s.len() <= u64::MAX,
    ensures
        a == b,
{
    lemma_u64_split(a.len() as u64, joined_entries(a), s);
    lemma_u64_split(b.len() as u64, joined_entries(b), s);
    lemma_u64_front(a.len() as u64, b.len() as u64, s);
    lemma_joined_length(a);
    lemma_joined_length(b);
    lemma_joined_front(a, b, s.skip(8));
}

/// Bytes begin with the encoding of at most one record: what is read back is what was written.
pub proof fn lemma_record_front(a: RecordView, b: RecordView, s: Seq<u8>)
    requires
        encoded_record(a).is_prefix_of(s),
        encoded_record(b).is_prefix_of(s),
        s.len() <= u64::MAX,
    ensures
        a == b,
{
    lemma_record_split(a, s);
    lemma_record_split(b, s);
    lemma_u32_front(record_tag(a), record_tag(b), s);
    let rest = s.skip(4);
    match (a, b) {
        (RecordView::Append(x), RecordView::Append(y)) => {
            lemma_entries_front(x, y, rest);
        },
        (
            RecordView::ReplaceSuffix { first_index_to_remove: i, entries: x },
            RecordView::ReplaceSuffix { first_index_to_remove: j, entries: y },
        ) => {
            lemma_u64_split(i, encoded_entries(x), rest);
            lemma_u64_split(j, encoded_entries(y), rest);
            lemma_u64_front(i, j, rest);
            lemma_entries_front(x, y, rest.skip(8));
        },
        (
            RecordView::SetBase { index: i, term: t },
            RecordView::SetBase { index: j, term: u },
        ) => {
            lemma_u64_split(i, spec_u64_to_le_bytes(t), rest);
            lemma_u64_split(j, spec_u64_to_le_bytes(u), rest);
            lemma_u64_front(i, j, rest);
            lemma_u64_front(t, u, rest.skip(8));
        },
        _ => {},
    }
}

proof fn lemma_record_split(record: RecordView, s: Seq<u8>)
    ensures
        spec_u32_to_le_bytes(record_tag(record)).len() == 4,
        encoded_record(record).is_prefix_of(s) <==> spec_u32_to_le_bytes(
            record_tag(record),
        ).is_prefix_of(s) && encoded_fields(record).is_prefix_of(s.skip(4)),
{
    lemma_u32_split(record_tag(record), encoded_fields(record), s);
}

/// Bytes begin with the encoding of at most one hard state.
pub proof fn lemma_hard_state_front(a: HardState, b: HardState, s: Seq<u8>)
    requires
        encoded_hard_state(a).is_prefix_of(s),
        encoded_hard_state(b).is_prefix_of(s),
    ensures
        a == b,
{
    lemma_u64_split(a.current_term, encoded_vote(a.voted_for), s);
    lemma_u64_split(b.current_term, encoded_vote(b.voted_for), s);
    lemma_u64_front(a.current_term, b.current_term, s);
    let rest = s.skip(8);
    assert(rest[0] == encoded_vote(a.voted_for)[0]);
    assert(rest[0] == encoded_vote(b.voted_for)[0]);
    if let (Some(x), Some(y)) = (a.voted_for, b.voted_for) {
        lemma_split_prefix(seq![1u8], spec_u64_to_le_bytes(x), rest);
        lemma_split_prefix(seq![1u8], spec_u64_to_le_bytes(y), rest);
        lemma_u64_front(x, y, rest.skip(1));
    }
}

/// Bytes begin with the encoding of at most one snapshot.
pub proof fn lemma_snapshot_front(a: SnapshotView, b: SnapshotView, s: Seq<u8>)
    requires
        encoded_snapshot(a).is_prefix_of(s),
        encoded_snapshot(b).is_prefix_of(s),
        s.len() <= u64::MAX,
    ensures
        a == b,
{
    let x = spec_u64_to_le_bytes(a.last_included_term) + encoded_bytes(a.data);
    let y = spec_u64_to_le_bytes(b.last_included_term) + encoded_bytes(b.data);
    lemma_u64_split(a.last_included_index, x, s);
    lemma_u64_split(b.last_included_index, y, s);
    lemma_u64_front(a.last_included_index, b.last_included_index, s);
    let rest = s.skip(8);
    lemma_u64_split(a.last_included_term, encoded_bytes(a.data), rest);
    lemma_u64_split(b.last_included_term, encoded_bytes(b.data), rest);
    lemma_u64_front(a.last_included_term, b.last_included_term, rest);
    lemma_bytes_front(a.data, b.data, rest.skip(8));
}

/// The record at the front of `payload`, where there is one.
pub open spec fn decoded_record(payload: Seq<u8>) -> Option<RecordView> {
    if exists|record: RecordView| #[trigger] encoded_record(record).is_prefix_of(payload) {
        Some(choose|record: RecordView| #[trigger] encoded_record(record).is_prefix_of(payload))
    } else {
        None
    }
}

/// A record is the one that is read off the bytes that begin with its encoding.
pub proof fn lemma_decoded_record(record: RecordView, payload: Seq<u8>)
    requires
        encoded_record(record).is_prefix_of(payload),
        payload.len() <= u64::MAX,
    ensures
        decoded_record(payload) == Some(record),
{
    let other = choose|r: RecordView| #[trigger] encoded_record(r).is_prefix_of(payload);
    lemma_record_front(record, other, payload);
}

/// What is said of a record of unknown variant.
pub open spec fn unknown_variant_text(tag: u32) -> Seq<char> {
    "invalid value: integer `"@ + decimal(tag as nat) + "`, expected variant index 0 <= i < 3"@
}

/// `payload` does not begin with a record, and `cause` is what is said of it: an unknown variant is
/// named, anything else is left to the text of a `bincode` error.
pub open spec fn not_a_record(payload: Seq<u8>, cause: Seq<char>) -> bool {
    &&& decoded_record(payload) is None
    &&& {
        ||| has_cause(cause, Seq::empty())
        ||| exists|tag: u32|
            tag > SET_BASE_TAG && (#[trigger] spec_u32_to_le_bytes(tag)).is_prefix_of(payload)
    }
    &&& forall|tag: u32|
        tag > SET_BASE_TAG && (#[trigger] spec_u32_to_le_bytes(tag)).is_prefix_of(payload)
            ==> cause == unknown_variant_text(tag)
}

/// Log entries as pairs of term and command.
fn to_pairs(entries: &[LogEntry]) -> (pairs: Vec<(u64, Vec<u8>)>)
    ensures
        entries_of_pairs(pairs@) == entries_of(entries@),
{
    let mut pairs: Vec<(u64, Vec<u8>)> = Vec::new();
    let mut i: usize = 0;
    while i < entries.len()
        invariant
            i <= entries@.len(),
            pairs@.len() == i,
            forall|j: int|
                0 <= j < i ==> (#[trigger] pairs@[j]).0 == entries@[j].term && pairs@[j].1@
                    == entries@[j].command@,
        decreases entries@.len() - i,
    {
        pairs.push((entries[i].term, clone_bytes(&entries[i].command)));
        i = i + 1;
    }
    assert(entries_of_pairs(pairs@) =~= entries_of(entries@));
    pairs
}

/// Pairs of term and command as log entries.
fn from_pairs(pairs: &Vec<(u64, Vec<u8>)>) -> (entries: Vec<LogEntry>)
    ensures
        entries_of(entries@) == entries_of_pairs(pairs@),
{
    let mut entries: Vec<LogEntry> = Vec::new();
    let mut i: usize = 0;
    while i < pairs.len()
        invariant
            i <= pairs@.len(),
            entries@.len() == i,
            forall|j: int|
                0 <= j < i ==> (#[trigger] entries@[j]).term == pairs@[j].0 && entries@[j].command@
                    == pairs@[j].1@,
        decreases pairs@.len() - i,
    {
        entries.push(LogEntry { term: pairs[i].0, command: clone_bytes(&pairs[i].1) });
        i = i + 1;
    }
    assert(entries_of(entries@) =~= entries_of_pairs(pairs@));
    entries
}

/// A message made of `prefix` and the text of a `bincode` error. Which text is left open: it quotes
/// the standard library and the size of the machine's integers.
pub open spec fn has_cause(message: Seq<char>, prefix: Seq<char>) -> bool {
    exists|err: bincode::ErrorKind, text: String| #[trigger]
        vstd::string::to_string_from_display_ensures(&err, text) && message == prefix + text@
}

/// `result` is a corruption whose message is `prefix` and the text of a `bincode` error.
pub open spec fn corrupt_with_cause<T>(result: StorageResult<T>, prefix: Seq<char>) -> bool {
    result matches Err(StorageError::Corruption(message)) && has_cause(message@, prefix)
}

/// Puts the text of a `bincode` error behind a prefix.
fn with_cause(prefix: &str, err: Box<bincode::ErrorKind>) -> (message: String)
    ensures
        has_cause(message@, prefix@),
{
    let kind: bincode::ErrorKind = *err;
    let text = kind.to_string();
    assert(vstd::string::to_string_from_display_ensures(&kind, text));
    String::from_str(prefix).concat(text.as_str())
}

/// Writes a record as bytes.
pub fn encode_record(record: &WalRecord) -> (result: StorageResult<Vec<u8>>)
    ensures
        result matches Ok(payload) && payload@ == encoded_record(record@),
{
    let serialized = match record {
        WalRecord::Append(entries) => serialize_tagged_entries(
            APPEND_TAG,
            &to_pairs(entries.as_slice()),
        ),
        WalRecord::ReplaceSuffix { first_index_to_remove, entries } => serialize_tagged_suffix(
            REPLACE_SUFFIX_TAG,
            *first_index_to_remove,
            &to_pairs(entries.as_slice()),
        ),
        WalRecord::SetBase { index, term } => serialize_tagged_base(SET_BASE_TAG, *index, *term),
    };
    match serialized {
        Ok(payload) => Ok(payload),
        Err(err) => Err(StorageError::InvalidOperation(with_cause("serialize WAL record: ", err))),
    }
}

/// Reads a record off the front of bytes; the error says why there is none.
pub fn decode_record(payload: &[u8]) -> (result: Result<WalRecord, String>)
    ensures
        match result {
            Ok(record) => decoded_record(payload@) == Some(record@),
            Err(cause) => not_a_record(payload@, cause@),
        },
{
    proof {
        assert(payload.len() <= usize::MAX);
        reveal_strlit("");
        assert(""@ =~= Seq::<char>::empty());
        assert forall|record: RecordView| #[trigger]
            encoded_record(record).is_prefix_of(payload@) implies spec_u32_to_le_bytes(
            record_tag(record),
        ).is_prefix_of(payload@) by {
            lemma_record_split(record, payload@);
        }
        assert forall|a: u32, b: u32|
            (#[trigger] spec_u32_to_le_bytes(a)).is_prefix_of(payload@) && (
            #[trigger] spec_u32_to_le_bytes(b)).is_prefix_of(payload@) implies a == b by {
            lemma_u32_front(a, b, payload@);
        }
    }
    let tag: u32 = match deserialize_tag(payload) {
        Ok(tag) => tag,
        Err(err) => {
            return Err(with_cause("", err));
        },
    };
    if tag == APPEND_TAG {
        match deserialize_tagged_entries(payload) {
            Ok(value) => {
                let record = WalRecord::Append(from_pairs(&value.1));
                proof {
                    lemma_u32_split(value.0, encoded_entries(entries_of_pairs(value.1@)), payload@);
                    lemma_decoded_record(record@, payload@);
                }
                Ok(record)
            },
            Err(err) => {
                Err(with_cause("", err))
            },
        }
    } else if tag == REPLACE_SUFFIX_TAG {
        match deserialize_tagged_suffix(payload) {
            Ok(value) => {
                let record = WalRecord::ReplaceSuffix {
                    first_index_to_remove: value.1,
                    entries: from_pairs(&value.2),
                };
                proof {
                    lemma_u32_split(
                        value.0,
                        spec_u64_to_le_bytes(value.1) + encoded_entries(entries_of_pairs(value.2@)),
                        payload@,
                    );
                    lemma_decoded_record(record@, payload@);
                }
                Ok(record)
            },
            Err(err) => Err(with_cause("", err)),
        }
    } else if tag == SET_BASE_TAG {
        match deserialize_tagged_base(payload) {
            Ok(value) => {
                let record = WalRecord::SetBase { index: value.1, term: value.2 };
                proof {
                    lemma_u32_split(
                        value.0,
                        spec_u64_to_le_bytes(value.1) + spec_u64_to_le_bytes(value.2),
                        payload@,
                    );
                    lemma_decoded_record(record@, payload@);
                }
                Ok(record)
            },
            Err(err) => Err(with_cause("", err)),
        }
    } else {
        let number = decimal_text(tag as u64);
        Err(
            String::from_str("invalid value: integer `").concat(number.as_str()).concat(
                "`, expected variant index 0 <= i < 3",
            ),
        )
    }
}

/// The hard state at the front of `bytes`, where there is one.
pub open spec fn decoded_hard_state(bytes: Seq<u8>) -> Option<HardState> {
    if exists|h: HardState| #[trigger] encoded_hard_state(h).is_prefix_of(bytes) {
        Some(choose|h: HardState| #[trigger] encoded_hard_state(h).is_prefix_of(bytes))
    } else {
        None
    }
}

/// A hard state is the one that is read off the bytes that begin with its encoding.
pub proof fn lemma_decoded_hard_state(hard_state: HardState, bytes: Seq<u8>)
    requires
        encoded_hard_state(hard_state).is_prefix_of(bytes),
    ensures
        decoded_hard_state(bytes) == Some(hard_state),
{
    let other = choose|h: HardState| #[trigger] encoded_hard_state(h).is_prefix_of(bytes);
    lemma_hard_state_front(hard_state, other, bytes);
}

/// The snapshot at the front of `bytes`, where there is one.
pub open spec fn decoded_snapshot(bytes: Seq<u8>) -> Option<SnapshotView> {
    if exists|s: SnapshotView| #[trigger] encoded_snapshot(s).is_prefix_of(bytes) {
        Some(choose|s: SnapshotView| #[trigger] encoded_snapshot(s).is_prefix_of(bytes))
    } else {
        None
    }
}

/// A snapshot is the one that is read off the bytes that begin with its encoding.
pub proof fn lemma_decoded_snapshot(snapshot: SnapshotView, bytes: Seq<u8>)
    requires
        encoded_snapshot(snapshot).is_prefix_of(bytes),
        bytes.len() <= u64::MAX,
    ensures
        decoded_snapshot(bytes) == Some(snapshot),
{
    let other = choose|s: SnapshotView| #[trigger] encoded_snapshot(s).is_prefix_of(bytes);
    lemma_snapshot_front(snapshot, other, bytes);
}

/// Writes the hard state as the contents of its file.
pub fn encode_hard_state(hard_state: &HardState) -> (result: StorageResult<Vec<u8>>)
    ensures
        result matches Ok(bytes) && bytes@ == encoded_hard_state(*hard_state),
{
    match serialize_hard_state(hard_state.current_term, hard_state.voted_for) {
        Ok(bytes) => Ok(bytes),
        Err(err) => Err(StorageError::InvalidOperation(with_cause("serialize hard state: ", err))),
    }
}

/// Reads the hard state out of its file. No file means a first start; a damaged one is refused.
pub fn load_hard_state(file: Option<Vec<u8>>) -> (result: StorageResult<HardState>)
    ensures
        match file {
            None => result matches Ok(hard_state) && hard_state == (HardState {
                current_term: 0,
                voted_for: None,
            }),
            Some(bytes) => match decoded_hard_state(bytes@) {
                Some(stored) => result matches Ok(hard_state) && hard_state == stored,
                None => corrupt_with_cause(result, "invalid hard_state file: "@),
            },
        },
{
    match file {
        None => Ok(HardState::default()),
        Some(bytes) => match deserialize_hard_state(bytes.as_slice()) {
            Ok(value) => {
                let hard_state = HardState { current_term: value.0, voted_for: value.1 };
                proof {
                    lemma_decoded_hard_state(hard_state, bytes@);
                }
                Ok(hard_state)
            },
            Err(err) => Err(
                StorageError::Corruption(with_cause("invalid hard_state file: ", err)),
            ),
        },
    }
}

/// Writes a snapshot as the contents of its file.
pub fn encode_snapshot(snapshot: &Snapshot) -> (result: StorageResult<Vec<u8>>)
    ensures
        result matches Ok(bytes) && bytes@ == encoded_snapshot(snapshot@),
{
    match serialize_snapshot(
        snapshot.metadata.last_included_index,
        snapshot.metadata.last_included_term,
        &snapshot.data,
    ) {
        Ok(bytes) => Ok(bytes),
        Err(err) => Err(StorageError::InvalidOperation(with_cause("serialize snapshot: ", err))),
    }
}

/// Reads the snapshot out of its file. No file means no snapshot; a damaged one is refused.
pub fn load_snapshot(file: Option<Vec<u8>>) -> (result: StorageResult<Option<Snapshot>>)
    ensures
        match file {
            None => result matches Ok(snapshot) && snapshot is None,
            Some(bytes) => match decoded_snapshot(bytes@) {
                Some(stored) => result matches Ok(Some(snapshot)) && snapshot@ == stored,
                None => corrupt_with_cause(result, "invalid snapshot file: "@),
            },
        },
{
    match file {
        None => Ok(None),
        Some(bytes) => {
            assert(bytes.len() <= usize::MAX);
            match deserialize_snapshot(bytes.as_slice()) {
                Ok(value) => {
                    let snapshot = Snapshot {
                        metadata: SnapshotMetadata {
                            last_included_index: value.0.0,
                            last_included_term: value.0.1,
                        },
                        data: value.1,
                    };
                    proof {
                        lemma_decoded_snapshot(snapshot@, bytes@);
                    }
                    Ok(Some(snapshot))
                },
                Err(err) => Err(
                    StorageError::Corruption(with_cause("invalid snapshot file: ", err)),
                ),
            }
        },
    }
}

} // verus!
