//! The write-ahead log: how records are framed, and how a log is read back.
//!
//! The file opens with a header. Every record behind it is framed by the length and the checksum of
//! its payload. A crash can leave the last record half written, so a record that is cut off by the
//! end of the file is dropped; a record that is there in full and does not check is corruption.
use crate::storage::format::{
    decode_record, decoded_record, encode_record, encoded_record, lemma_decoded_record, not_a_record,
    RecordView, WalRecord,
};
use crate::storage::utils::{checksum, crc32, lemma_checksum_detects_byte_change};
use crate::storage::{
    corrupt_with, invalid_with, replaced_suffix, sentinel_log_entry, suffix_index_in_bounds,
    StorageError, StorageResult,
};
use crate::text::{decimal, decimal_text};
use crate::utilis::types::{entries_of, sentinel, splice_suffix, Entry, LogEntry};
use vstd::bytes::{
    spec_u32_from_le_bytes, spec_u32_to_le_bytes, u32_from_le_bytes, u32_to_le_bytes,
};
use vstd::prelude::*;
use vstd::slice::slice_subrange;

verus! {

/// The length of the header of a write-ahead log.
pub const WAL_HEADER_LEN: usize = 7;

/// The length of the length and the checksum in front of a record.
pub const RECORD_HEADER_LEN: usize = 8;

/// The header of a write-ahead log: the letters `RUFTWAL`.
pub open spec fn wal_header() -> Seq<u8> {
    seq![0x52u8, 0x55, 0x46, 0x54, 0x57, 0x41, 0x4c]
}

/// The bytes that open every write-ahead log.
pub fn wal_header_bytes() -> (header: Vec<u8>)
    ensures
        header@ == wal_header(),
{
    let header: Vec<u8> = vec![0x52u8, 0x55, 0x46, 0x54, 0x57, 0x41, 0x4c];
    assert(header@ =~= wal_header());
    header
}

/// A record on disk: the length of the payload, its checksum, the payload.
pub open spec fn framed(payload: Seq<u8>) -> Seq<u8> {
    spec_u32_to_le_bytes(payload.len() as u32) + spec_u32_to_le_bytes(crc32(payload)) + payload
}

/// What has been read back of a log: its entries, and the absolute index that it starts behind where
/// a record names one.
#[verifier::ext_equal]
pub struct WalView {
    pub log: Seq<Entry>,
    pub base_index: Option<u64>,
}

/// Nothing read back yet.
pub open spec fn fresh_wal() -> WalView {
    WalView { log: seq![sentinel(0)], base_index: None }
}

/// Why a log cannot be read back, and where in the file.
pub enum WalFault {
    /// A record that is there in full does not have its checksum.
    Checksum { offset: nat },
    /// The payload of a record is not a record.
    Payload { offset: nat, payload: Seq<u8> },
    /// A base record comes after another record.
    LateBase { offset: nat },
    /// A suffix replacement starts at the sentinel or past the end.
    SuffixIndex { first: u64, len: nat, offset: nat },
}

/// What is said of a fault. Of a payload that is no record, what follows is the reason.
pub open spec fn fault_message(fault: WalFault) -> Seq<char> {
    match fault {
        WalFault::Checksum { offset } => "WAL record CRC mismatch at offset "@ + decimal(offset),
        WalFault::Payload { offset, .. } => "invalid WAL record payload at offset "@ + decimal(offset)
            + ": "@,
        WalFault::LateBase { offset } => "WAL base record is not the first record at offset "@
            + decimal(offset),
        WalFault::SuffixIndex { first, len, offset } => "invalid ReplaceSuffix index "@ + decimal(
            first as nat,
        ) + " for log length "@ + decimal(len) + " at offset "@ + decimal(offset),
    }
}

/// `message` is `prefix` and the reason why `payload` is not a record.
pub open spec fn payload_refused(
    message: Seq<char>,
    prefix: Seq<char>,
    payload: Seq<u8>,
) -> bool {
    exists|cause: Seq<char>| #[trigger]
        not_a_record(payload, cause) && message == prefix + cause
}

/// `result` is the corruption that a fault comes to.
pub open spec fn refused<T>(result: StorageResult<T>, fault: WalFault) -> bool {
    match fault {
        WalFault::Payload { payload, .. } => result matches Err(StorageError::Corruption(message))
            && payload_refused(message@, fault_message(fault), payload),
        _ => corrupt_with(result, fault_message(fault)),
    }
}

/// What a record makes of the log.
pub open spec fn applied(wal: WalView, record: RecordView, offset: nat) -> Result<
    WalView,
    WalFault,
> {
    match record {
        RecordView::SetBase { index, term } => {
            if wal.log.len() != 1 || wal.base_index is Some {
                Err(WalFault::LateBase { offset })
            } else {
                Ok(
                    WalView {
                        log: seq![Entry { term, command: wal.log[0].command }],
                        base_index: Some(index),
                    },
                )
            }
        },
        RecordView::Append(entries) => Ok(WalView { log: wal.log + entries, ..wal }),
        RecordView::ReplaceSuffix { first_index_to_remove, entries } => {
            if !suffix_index_in_bounds(first_index_to_remove, wal.log.len()) {
                Err(
                    WalFault::SuffixIndex {
                        first: first_index_to_remove,
                        len: wal.log.len(),
                        offset,
                    },
                )
            } else {
                Ok(
                    WalView {
                        log: replaced_suffix(wal.log, first_index_to_remove as int, entries),
                        ..wal
                    },
                )
            }
        },
    }
}

/// The length that the record at the front of `rest` gives for its payload.
pub open spec fn payload_length(rest: Seq<u8>) -> nat {
    spec_u32_from_le_bytes(rest.subrange(0, 4)) as nat
}

/// The checksum that the record at the front of `rest` gives for its payload.
pub open spec fn stored_checksum(rest: Seq<u8>) -> u32 {
    spec_u32_from_le_bytes(rest.subrange(4, 8))
}

/// The record at the front of `rest` is there in full.
pub open spec fn is_complete(rest: Seq<u8>) -> bool {
    rest.len() >= RECORD_HEADER_LEN && rest.len() >= RECORD_HEADER_LEN + payload_length(rest)
}

/// The payload of the record at the front of `rest`.
pub open spec fn payload_of(rest: Seq<u8>) -> Seq<u8> {
    rest.subrange(RECORD_HEADER_LEN as int, RECORD_HEADER_LEN + payload_length(rest))
}

/// What reading on from `offset` comes to, where `rest` is what the file still holds and `wal` what
/// has been read back so far: the log, and where the last full record ends.
pub open spec fn replayed(rest: Seq<u8>, offset: nat, wal: WalView) -> Result<
    (WalView, nat),
    WalFault,
>
    decreases rest.len(),
{
    if !is_complete(rest) {
        Ok((wal, offset))
    } else if crc32(payload_of(rest)) != stored_checksum(rest) {
        Err(WalFault::Checksum { offset })
    } else {
        match decoded_record(payload_of(rest)) {
            None => Err(WalFault::Payload { offset, payload: payload_of(rest) }),
            Some(record) => match applied(wal, record, offset) {
                Err(fault) => Err(fault),
                Ok(next) => replayed(
                    rest.skip(RECORD_HEADER_LEN + payload_length(rest)),
                    offset + RECORD_HEADER_LEN as nat + payload_length(rest),
                    next,
                ),
            },
        }
    }
}

/// Frames a record for the write-ahead log; its length has to fit the frame.
pub fn frame_record(record: &WalRecord) -> (result: StorageResult<Vec<u8>>)
    ensures
        encoded_record(record@).len() <= u32::MAX ==> (result matches Ok(frame) && frame@ == framed(
            encoded_record(record@),
        )),
        encoded_record(record@).len() > u32::MAX ==> invalid_with(
            result,
            "WAL record payload is larger than u32::MAX"@,
        ),
{
    let mut payload = match encode_record(record) {
        Ok(payload) => payload,
        Err(e) => {
            return Err(e);
        },
    };
    let ghost encoded = payload@;
    if payload.len() as u64 > u32::MAX as u64 {
        return Err(
            StorageError::InvalidOperation(
                String::from_str("WAL record payload is larger than u32::MAX"),
            ),
        );
    }
    let crc: u32 = checksum(payload.as_slice());
    let mut frame = u32_to_le_bytes(payload.len() as u32);
    let mut crc_bytes = u32_to_le_bytes(crc);
    frame.append(&mut crc_bytes);
    frame.append(&mut payload);
    assert(frame@ =~= framed(encoded));
    Ok(frame)
}

/// Applies one record to a log that is being read back. A refused record changes nothing.
pub fn apply_record(
    log: &mut Vec<LogEntry>,
    base_index: &mut Option<u64>,
    record: WalRecord,
    offset: u64,
) -> (result: StorageResult<()>)
    ensures
        ({
            let before = WalView { log: entries_of(old(log)@), base_index: *old(base_index) };
            let after = WalView { log: entries_of(final(log)@), base_index: *final(base_index) };
            match applied(before, record@, offset as nat) {
                Ok(next) => result is Ok && after == next,
                Err(fault) => refused(result, fault) && after == before,
            }
        }),
{
    match record {
        WalRecord::SetBase { index, term } => {
            if log.len() != 1 || base_index.is_some() {
                let at = decimal_text(offset);
                let message = String::from_str(
                    "WAL base record is not the first record at offset ",
                ).concat(at.as_str());
                return Err(StorageError::Corruption(message));
            }
            *base_index = Some(index);
            let mut first = log[0].clone();
            first.term = term;
            let ghost kept = first@;
            log.set(0, first);
            assert(entries_of(log@) =~= seq![kept]);
            Ok(())
        },
        WalRecord::Append(entries) => {
            let mut entries = entries;
            let ghost before = log@;
            let ghost added = entries@;
            log.append(&mut entries);
            assert(entries_of(before + added) =~= entries_of(before) + entries_of(added));
            Ok(())
        },
        WalRecord::ReplaceSuffix { first_index_to_remove, entries } => {
            let len: u64 = log.len() as u64;
            if first_index_to_remove == 0 || first_index_to_remove > len {
                let first = decimal_text(first_index_to_remove);
                let length = decimal_text(len);
                let at = decimal_text(offset);
                let message = String::from_str("invalid ReplaceSuffix index ").concat(
                    first.as_str(),
                ).concat(" for log length ").concat(length.as_str()).concat(" at offset ").concat(
                    at.as_str(),
                );
                return Err(StorageError::Corruption(message));
            }
            splice_suffix(log, first_index_to_remove as usize, entries.as_slice());
            Ok(())
        },
    }
}

/// What is to be done to the file after it was read back.
#[derive(Clone, Copy, Debug, PartialEq, Eq, Structural)]
pub enum WalRepair {
    /// The file is as it should be.
    Keep,
    /// There is no header in full: the file starts over with the header alone.
    Reset,
    /// A half-written record at the end goes: the file is cut to this length.
    Truncate { len: u64 },
}

/// A log that was read back.
#[derive(Debug)]
pub struct WalReplay {
    /// The entries, behind their sentinel.
    pub log: Vec<LogEntry>,
    /// The absolute index that the log starts behind, where a record names one.
    pub base_index: Option<u64>,
    /// What is to be done to the file.
    pub repair: WalRepair,
}

impl View for WalReplay {
    type V = WalView;

    open spec fn view(&self) -> WalView {
        WalView { log: entries_of(self.log@), base_index: self.base_index }
    }
}

/// What reading back a whole file comes to.
pub open spec fn loaded(bytes: Seq<u8>, result: StorageResult<WalReplay>) -> bool {
    if bytes.len() < WAL_HEADER_LEN {
        result matches Ok(replay) && replay@ == fresh_wal() && replay.repair == WalRepair::Reset
    } else if bytes.take(WAL_HEADER_LEN as int) != wal_header() {
        corrupt_with(result, "invalid WAL header magic/version"@)
    } else {
        match replayed(bytes.skip(WAL_HEADER_LEN as int), WAL_HEADER_LEN as nat, fresh_wal()) {
            Ok((wal, end)) => result matches Ok(replay) && replay@ == wal && replay.repair == (
            if end == bytes.len() {
                WalRepair::Keep
            } else {
                WalRepair::Truncate { len: end as u64 }
            }),
            Err(fault) => refused(result, fault),
        }
    }
}

/// The file opens with the header.
fn has_header(bytes: &[u8]) -> (opens: bool)
    requires
        bytes@.len() >= WAL_HEADER_LEN,
    ensures
        opens == (bytes@.take(WAL_HEADER_LEN as int) == wal_header()),
{
    let header = wal_header_bytes();
    let mut i: usize = 0;
    while i < WAL_HEADER_LEN
        invariant
            i <= WAL_HEADER_LEN <= bytes@.len(),
            header@ == wal_header(),
            forall|j: int| 0 <= j < i ==> bytes@[j] == header@[j],
        decreases WAL_HEADER_LEN - i,
    {
        if bytes[i] != header[i] {
            assert(bytes@.take(WAL_HEADER_LEN as int)[i as int] != wal_header()[i as int]);
            return false;
        }
        i = i + 1;
    }
    assert(bytes@.take(WAL_HEADER_LEN as int) =~= wal_header());
    true
}

/// Reads a log back from the contents of its file. Only a half-written record at the end is
/// forgiven.
pub fn load_wal(bytes: &[u8]) -> (result: StorageResult<WalReplay>)
    ensures
        loaded(bytes@, result),
{
    let len: usize = bytes.len();
    let mut log: Vec<LogEntry> = Vec::new();
    log.push(sentinel_log_entry());
    let mut base_index: Option<u64> = None;
    assert(entries_of(log@) =~= seq![sentinel(0)]);
    if len < WAL_HEADER_LEN {
        return Ok(WalReplay { log, base_index, repair: WalRepair::Reset });
    }
    if !has_header(bytes) {
        return Err(
            StorageError::Corruption(String::from_str("invalid WAL header magic/version")),
        );
    }
    let mut valid_end: usize = WAL_HEADER_LEN;
    let ghost body = bytes@.skip(WAL_HEADER_LEN as int);
    while valid_end < len
        invariant
            len == bytes@.len(),
            WAL_HEADER_LEN <= valid_end <= len,
            bytes@.take(WAL_HEADER_LEN as int) == wal_header(),
            body == bytes@.skip(WAL_HEADER_LEN as int),
            replayed(body, WAL_HEADER_LEN as nat, fresh_wal()) == replayed(
                bytes@.skip(valid_end as int),
                valid_end as nat,
                WalView { log: entries_of(log@), base_index },
            ),
        decreases len - valid_end,
    {
        let ghost rest = bytes@.skip(valid_end as int);
        let ghost before = WalView { log: entries_of(log@), base_index };
        let torn = WalRepair::Truncate { len: valid_end as u64 };
        if len - valid_end < RECORD_HEADER_LEN {
            return Ok(WalReplay { log, base_index, repair: torn });
        }
        let length_bytes = slice_subrange(bytes, valid_end, valid_end + 4);
        let crc_bytes = slice_subrange(bytes, valid_end + 4, valid_end + 8);
        assert(length_bytes@ =~= rest.subrange(0, 4));
        assert(crc_bytes@ =~= rest.subrange(4, 8));
        let payload_len: usize = u32_from_le_bytes(length_bytes) as usize;
        let expected_crc: u32 = u32_from_le_bytes(crc_bytes);
        let payload_start: usize = valid_end + RECORD_HEADER_LEN;
        if payload_len > len - payload_start {
            return Ok(WalReplay { log, base_index, repair: torn });
        }
        let payload_end: usize = payload_start + payload_len;
        let payload = slice_subrange(bytes, payload_start, payload_end);
        assert(payload@ =~= payload_of(rest));
        if checksum(payload) != expected_crc {
            let at = decimal_text(valid_end as u64);
            let message = String::from_str("WAL record CRC mismatch at offset ").concat(
                at.as_str(),
            );
            return Err(StorageError::Corruption(message));
        }
        let record = match decode_record(payload) {
            Ok(record) => record,
            Err(cause) => {
                let at = decimal_text(valid_end as u64);
                let message = String::from_str("invalid WAL record payload at offset ").concat(
                    at.as_str(),
                ).concat(": ").concat(cause.as_str());
                assert(not_a_record(payload_of(rest), cause@));
                let ghost fault = WalFault::Payload {
                    offset: valid_end as nat,
                    payload: payload_of(rest),
                };
                assert(payload_refused(message@, fault_message(fault), payload_of(rest)));
                return Err(StorageError::Corruption(message));
            },
        };
        match apply_record(&mut log, &mut base_index, record, valid_end as u64) {
            Ok(()) => {},
            Err(e) => {
                return Err(e);
            },
        }
        assert(bytes@.skip(payload_end as int) =~= rest.skip(
            RECORD_HEADER_LEN + payload_length(rest),
        ));
        valid_end = payload_end;
    }
    Ok(WalReplay { log, base_index, repair: WalRepair::Keep })
}

/// What reading on comes to behind a record that was taken in.
pub open spec fn replayed_behind(
    step: Result<WalView, WalFault>,
    rest: Seq<u8>,
    offset: nat,
) -> Result<(WalView, nat), WalFault> {
    match step {
        Err(fault) => Err(fault),
        Ok(next) => replayed(rest, offset, next),
    }
}

proof fn lemma_frame_parts(payload: Seq<u8>, rest: Seq<u8>)
    requires
        payload.len() <= u32::MAX,
    ensures
        framed(payload).len() == RECORD_HEADER_LEN + payload.len(),
        is_complete(framed(payload) + rest),
        payload_length(framed(payload) + rest) == payload.len(),
        stored_checksum(framed(payload) + rest) == crc32(payload),
        payload_of(framed(payload) + rest) == payload,
        (framed(payload) + rest).skip(RECORD_HEADER_LEN + payload.len()) == rest,
{
    vstd::bytes::lemma_auto_spec_u32_to_from_le_bytes();
    let all = framed(payload) + rest;
    assert(all.subrange(0, 4) =~= spec_u32_to_le_bytes(payload.len() as u32));
    assert(all.subrange(4, 8) =~= spec_u32_to_le_bytes(crc32(payload)));
    assert(payload_of(all) =~= payload);
    assert(all.skip(RECORD_HEADER_LEN + payload.len()) =~= rest);
}

/// A record that was written is read back as what it is, and reading goes on behind it.
pub proof fn lemma_record_is_read_back(record: RecordView, rest: Seq<u8>, offset: nat, wal: WalView)
    requires
        encoded_record(record).len() <= u32::MAX,
    ensures
        replayed(framed(encoded_record(record)) + rest, offset, wal) == replayed_behind(
            applied(wal, record, offset),
            rest,
            offset + framed(encoded_record(record)).len(),
        ),
{
    let payload = encoded_record(record);
    lemma_frame_parts(payload, rest);
    assert(payload =~= payload.subrange(0, payload.len() as int));
    lemma_decoded_record(record, payload);
}

/// Bytes behind a log that reads back to its end are read with the log that it came to.
pub proof fn lemma_replay_goes_on(
    body: Seq<u8>,
    more: Seq<u8>,
    offset: nat,
    wal: WalView,
    read: WalView,
)
    requires
        replayed(body, offset, wal) == Ok::<(WalView, nat), WalFault>((read, offset + body.len())),
    ensures
        replayed(body + more, offset, wal) == replayed(more, offset + body.len(), read),
    decreases body.len(),
{
    if !is_complete(body) {
        assert(body.len() == 0);
        assert(body + more =~= more);
    } else {
        let all = body + more;
        let len = RECORD_HEADER_LEN + payload_length(body);
        assert(all.subrange(0, 4) =~= body.subrange(0, 4));
        assert(all.subrange(4, 8) =~= body.subrange(4, 8));
        assert(payload_of(all) =~= payload_of(body));
        assert(all.skip(len) =~= body.skip(len) + more);
        let record = decoded_record(payload_of(body))->Some_0;
        let next = applied(wal, record, offset)->Ok_0;
        lemma_replay_goes_on(body.skip(len), more, (offset + len) as nat, next, read);
    }
}

/// A record behind a log that reads back to its end adds its change to it.
pub proof fn lemma_record_extends_log(
    body: Seq<u8>,
    record: RecordView,
    offset: nat,
    wal: WalView,
    read: WalView,
    next: WalView,
)
    requires
        replayed(body, offset, wal) == Ok::<(WalView, nat), WalFault>((read, offset + body.len())),
        encoded_record(record).len() <= u32::MAX,
        applied(read, record, offset + body.len()) == Ok::<WalView, WalFault>(next),
    ensures
        replayed(body + framed(encoded_record(record)), offset, wal) == Ok::<
            (WalView, nat),
            WalFault,
        >((next, offset + body.len() + framed(encoded_record(record)).len())),
{
    let frame = framed(encoded_record(record));
    lemma_replay_goes_on(body, frame, offset, wal, read);
    lemma_record_is_read_back(record, Seq::empty(), offset + body.len(), read);
    assert(frame + Seq::<u8>::empty() =~= frame);
}

/// A record that a crash cut short is dropped, and nothing else: the log reads back to where that
/// record began.
pub proof fn lemma_torn_record_is_dropped(
    body: Seq<u8>,
    payload: Seq<u8>,
    written: nat,
    offset: nat,
    wal: WalView,
    read: WalView,
)
    requires
        replayed(body, offset, wal) == Ok::<(WalView, nat), WalFault>((read, offset + body.len())),
        payload.len() <= u32::MAX,
        written < framed(payload).len(),
    ensures
        replayed(body + framed(payload).take(written as int), offset, wal) == Ok::<
            (WalView, nat),
            WalFault,
        >((read, offset + body.len())),
{
    let torn = framed(payload).take(written as int);
    lemma_replay_goes_on(body, torn, offset, wal, read);
    lemma_frame_parts(payload, Seq::empty());
    assert(framed(payload) + Seq::<u8>::empty() =~= framed(payload));
    if torn.len() >= RECORD_HEADER_LEN {
        assert(torn.subrange(0, 4) =~= framed(payload).subrange(0, 4));
    }
}

/// A change of any one byte in the payload of a record that is there in full is found out.
pub proof fn lemma_changed_payload_is_corruption(
    body: Seq<u8>,
    payload: Seq<u8>,
    changed: Seq<u8>,
    at: int,
    more: Seq<u8>,
    offset: nat,
    wal: WalView,
    read: WalView,
)
    requires
        replayed(body, offset, wal) == Ok::<(WalView, nat), WalFault>((read, offset + body.len())),
        payload.len() <= u32::MAX,
        changed.len() == payload.len(),
        0 <= at < payload.len(),
        changed[at] != payload[at],
        forall|j: int| 0 <= j < payload.len() && j != at ==> changed[j] == payload[j],
    ensures
        replayed(
            body + (framed(payload).take(RECORD_HEADER_LEN as int) + changed + more),
            offset,
            wal,
        ) == Err::<(WalView, nat), WalFault>(WalFault::Checksum { offset: offset + body.len() }),
{
    let frame = framed(payload);
    let tail = frame.take(RECORD_HEADER_LEN as int) + changed + more;
    lemma_replay_goes_on(body, tail, offset, wal, read);
    lemma_frame_parts(payload, more);
    assert(tail.subrange(0, 4) =~= (frame + more).subrange(0, 4));
    assert(tail.subrange(4, 8) =~= (frame + more).subrange(4, 8));
    assert(payload_of(tail) =~= changed);
    lemma_checksum_detects_byte_change(changed, payload, at);
}

/// A log that was cut to where its last full record ends reads back the same, and to its end.
pub proof fn lemma_repaired_log_reads_back(
    body: Seq<u8>,
    offset: nat,
    wal: WalView,
    read: WalView,
    end: nat,
)
    requires
        replayed(body, offset, wal) == Ok::<(WalView, nat), WalFault>((read, end)),
    ensures
        offset <= end <= offset + body.len(),
        replayed(body.take(end - offset), offset, wal) == Ok::<(WalView, nat), WalFault>(
            (read, end),
        ),
    decreases body.len(),
{
    if is_complete(body) {
        let len = RECORD_HEADER_LEN + payload_length(body);
        let record = decoded_record(payload_of(body))->Some_0;
        let next = applied(wal, record, offset)->Ok_0;
        lemma_repaired_log_reads_back(body.skip(len), (offset + len) as nat, next, read, end);
        let kept = body.take(end - offset);
        assert(kept.subrange(0, 4) =~= body.subrange(0, 4));
        assert(kept.subrange(4, 8) =~= body.subrange(4, 8));
        assert(payload_of(kept) =~= payload_of(body));
        assert(kept.skip(len) =~= body.skip(len).take(end - offset - len));
    }
}

/// Whatever a file holds, the log that is read back from it starts with a sentinel.
pub proof fn lemma_replay_keeps_sentinel(
    body: Seq<u8>,
    offset: nat,
    wal: WalView,
    read: WalView,
    end: nat,
)
    requires
        replayed(body, offset, wal) == Ok::<(WalView, nat), WalFault>((read, end)),
        wal.log.len() >= 1,
        wal.log[0].command.len() == 0,
    ensures
        read.log.len() >= 1,
        read.log[0].command.len() == 0,
    decreases body.len(),
{
    if is_complete(body) {
        let len = RECORD_HEADER_LEN + payload_length(body);
        let record = decoded_record(payload_of(body))->Some_0;
        let next = applied(wal, record, offset)->Ok_0;
        lemma_replay_keeps_sentinel(body.skip(len), (offset + len) as nat, next, read, end);
    }
}

} // verus!
