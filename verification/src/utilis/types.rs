//! Log entries, snapshots, and the name of a node.
use vstd::prelude::*;

verus! {

/// The id of a cluster node.
pub type NodeId = u64;

/// One log entry as a mathematical value.
#[verifier::ext_equal]
pub struct Entry {
    pub term: u64,
    pub command: Seq<u8>,
}

/// A Raft log entry: the term that wrote it and the command for the state machine.
#[derive(Debug, PartialEq, Eq)]
pub struct LogEntry {
    /// Term in which the entry was written.
    pub term: u64,
    /// State-machine command.
    pub command: Vec<u8>,
}

impl View for LogEntry {
    type V = Entry;

    open spec fn view(&self) -> Entry {
        Entry { term: self.term, command: self.command@ }
    }
}

impl Clone for LogEntry {
    fn clone(&self) -> (copy: Self)
        ensures
            copy@ == self@,
    {
        LogEntry { term: self.term, command: clone_bytes(&self.command) }
    }
}

/// What a snapshot covers: the index and the term of the last entry folded into it.
#[derive(Clone, Copy, Debug, PartialEq, Eq)]
pub struct SnapshotMetadata {
    pub last_included_index: u64,
    pub last_included_term: u64,
}

/// A snapshot as a mathematical value.
#[verifier::ext_equal]
pub struct SnapshotView {
    pub last_included_index: u64,
    pub last_included_term: u64,
    pub data: Seq<u8>,
}

/// The state of the state machine after the entry that the metadata names.
#[derive(Debug, PartialEq, Eq)]
pub struct Snapshot {
    pub metadata: SnapshotMetadata,
    pub data: Vec<u8>,
}

impl View for Snapshot {
    type V = SnapshotView;

    open spec fn view(&self) -> SnapshotView {
        SnapshotView {
            last_included_index: self.metadata.last_included_index,
            last_included_term: self.metadata.last_included_term,
            data: self.data@,
        }
    }
}

impl Clone for Snapshot {
    fn clone(&self) -> (copy: Self)
        ensures
            copy@ == self@,
    {
        Snapshot { metadata: self.metadata, data: clone_bytes(&self.data) }
    }
}

/// The values that a slice of entries stands for.
pub open spec fn entries_of(entries: Seq<LogEntry>) -> Seq<Entry> {
    entries.map_values(|e: LogEntry| e@)
}

/// The entry that opens every log: no command, so that real entries start at index 1.
pub open spec fn sentinel(term: u64) -> Entry {
    Entry { term, command: Seq::empty() }
}

/// Copies bytes.
pub fn clone_bytes(bytes: &Vec<u8>) -> (copy: Vec<u8>)
    ensures
        copy@ == bytes@,
{
    let copy = bytes.clone();
    assert(copy@ =~= bytes@);
    copy
}

/// Copies the entries from position `from` to the end.
pub fn clone_suffix(entries: &[LogEntry], from: usize) -> (copy: Vec<LogEntry>)
    requires
        from <= entries@.len(),
    ensures
        entries_of(copy@) == entries_of(entries@).skip(from as int),
{
    let mut copy: Vec<LogEntry> = Vec::new();
    let mut i: usize = from;
    while i < entries.len()
        invariant
            from <= i <= entries@.len(),
            entries_of(copy@) == entries_of(entries@).subrange(from as int, i as int),
        decreases entries@.len() - i,
    {
        let entry = entries[i].clone();
        let ghost before = copy@;
        copy.push(entry);
        proof {
            assert(entries_of(copy@) =~= entries_of(before).push(entry@));
            assert(entries_of(entries@).subrange(from as int, i + 1) =~= entries_of(
                entries@,
            ).subrange(from as int, i as int).push(entries@[i as int]@));
        }
        i = i + 1;
    }
    assert(entries_of(entries@).subrange(from as int, i as int) =~= entries_of(entries@).skip(
        from as int,
    ));
    copy
}

/// Cuts a log at index `first` and puts `entries` behind the cut.
pub fn splice_suffix(log: &mut Vec<LogEntry>, first: usize, entries: &[LogEntry])
    requires
        first <= old(log)@.len(),
    ensures
        entries_of(final(log)@) == entries_of(old(log)@).take(first as int) + entries_of(entries@),
{
    let mut tail = clone_suffix(entries, 0);
    log.truncate(first);
    let ghost head = log@;
    let ghost added = tail@;
    log.append(&mut tail);
    proof {
        assert(entries_of(head) =~= entries_of(old(log)@).take(first as int));
        assert(entries_of(entries@).skip(0) =~= entries_of(entries@));
        assert(entries_of(head + added) =~= entries_of(head) + entries_of(added));
    }
}

/// What is said of entries is said of their fields.
pub proof fn lemma_entries_of(entries: Seq<LogEntry>)
    ensures
        entries_of(entries).len() == entries.len(),
        forall|i: int|
            0 <= i < entries.len() ==> (#[trigger] entries_of(entries)[i]).term == entries[i].term
                && entries_of(entries)[i].command == entries[i].command@,
{
}

/// A sentinel has a term and no command.
pub proof fn lemma_sentinel(term: u64)
    ensures
        sentinel(term).term == term,
        sentinel(term).command.len() == 0,
{
}

/// What is said of a snapshot is said of its fields.
pub proof fn lemma_snapshot_view(snapshot: Snapshot)
    ensures
        snapshot@.last_included_index == snapshot.metadata.last_included_index,
        snapshot@.last_included_term == snapshot.metadata.last_included_term,
        snapshot@.data == snapshot.data@,
{
}

} // verus!
