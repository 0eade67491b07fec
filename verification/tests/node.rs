use ruft::events::Event;
use ruft::result::AppendResult;
use ruft::rpc::append_entries::{AppendEntriesArgs, AppendEntriesReply};
use ruft::rpc::install_snapshot::{InstallSnapshotArgs, InstallSnapshotReply};
use ruft::rpc::request_vote::{RequestVoteArgs, RequestVoteReply};
use ruft::ruft::node::{majority, Answer};
use ruft::ruft::{ApplyMsg, Role, Ruft};
use ruft::storage::{
    HardState, MemoryStorage, SavedState, Storage, StorageError, StorageResult, StorageState,
};
use ruft::utilis::types::{LogEntry, NodeId, Snapshot};

fn entry(term: u64, command: &[u8]) -> LogEntry {
    LogEntry {
        term,
        command: command.to_vec(),
    }
}

fn new_test_node(node_id: NodeId, members: Vec<NodeId>) -> Ruft<MemoryStorage> {
    Ruft::new(node_id, members).expect("load memory-backed node")
}

fn test_node_with_storage(
    node_id: NodeId,
    members: Vec<NodeId>,
    storage: MemoryStorage,
) -> Ruft<MemoryStorage> {
    Ruft::new_with_storage(node_id, members, storage).expect("load test storage")
}

#[test]
fn new_initializes_follower_with_sentinel_log() {
    let node = Ruft::new(1, vec![1, 2, 3]).expect("load memory-backed node");

    assert_eq!(node.node_id, 1);
    assert_eq!(node.role, Role::Follower);
    assert_eq!(node.current_term, 0);
    assert_eq!(node.voted_for, None);
    assert_eq!(node.commit_index, 0);
    assert_eq!(node.last_applied, 0);
    assert_eq!(node.log.len(), 1);
    assert_eq!(node.log[0].term, 0);
    assert!(node.log[0].command.is_empty());
    assert_eq!(node.next_index[&2], 1);
    assert_eq!(node.next_index[&3], 1);
    assert_eq!(node.match_index[&2], 0);
    assert_eq!(node.match_index[&3], 0);
    assert!(!node.next_index.contains_key(&1));
    assert!(!node.match_index.contains_key(&1));
}

#[test]
fn new_restores_persistent_state_from_storage() {
    let storage = MemoryStorage::with_state(StorageState {
        hard_state: HardState {
            current_term: 4,
            voted_for: Some(3),
        },
        log: vec![entry(0, b""), entry(2, b"old"), entry(4, b"new")],
        snapshot: None,
    })
    .expect("valid storage state");

    let node = test_node_with_storage(1, vec![1, 2, 3], storage);

    assert_eq!(node.current_term, 4);
    assert_eq!(node.voted_for, Some(3));
    assert_eq!(node.log.len(), 3);
    assert_eq!(node.next_index[&2], 3);
    assert_eq!(node.next_index[&3], 3);
}

#[test]
fn leader_append_log_persists_entry_before_accepting() {
    let storage = MemoryStorage::with_state(StorageState {
        hard_state: HardState {
            current_term: 1,
            voted_for: None,
        },
        log: vec![entry(0, b"")],
        snapshot: None,
    })
    .expect("valid storage state");
    let mut node = test_node_with_storage(1, vec![1, 2, 3], storage);
    node.role = Role::Leader;

    assert!(node.on_append_log(b"entry".to_vec()));

    let persisted = node.storage.load().expect("load storage");
    assert_eq!(persisted.log, vec![entry(0, b""), entry(1, b"entry")]);
    assert_eq!(node.log, persisted.log);
}

#[test]
fn append_entries_conflict_replacement_persists_storage_and_memory() {
    let storage = MemoryStorage::with_state(StorageState {
        hard_state: HardState {
            current_term: 1,
            voted_for: None,
        },
        log: vec![entry(0, b""), entry(1, b"keep"), entry(1, b"stale")],
        snapshot: None,
    })
    .expect("valid storage state");
    let mut node = test_node_with_storage(1, vec![1, 2, 3], storage);

    let reply = node.handle_append_entries(AppendEntriesArgs {
        term: 2,
        leader_id: 2,
        prev_log_index: 1,
        prev_log_term: 1,
        entries: vec![entry(2, b"replace")],
        leader_commit: 0,
    });

    assert!(reply.success);
    let expected = vec![entry(0, b""), entry(1, b"keep"), entry(2, b"replace")];
    assert_eq!(node.log, expected);
    assert_eq!(node.storage.load().expect("load storage").log, expected);
}

#[test]
fn request_vote_persists_granted_vote() {
    let mut node = new_test_node(1, vec![1, 2, 3]);

    let reply = node.handle_request_vote(RequestVoteArgs {
        term: 1,
        candidate_id: 2,
        last_log_index: 0,
        last_log_term: 0,
    });

    assert!(reply.vote_granted);
    let persisted = node.storage.load().expect("load storage");
    assert_eq!(persisted.hard_state.current_term, 1);
    assert_eq!(persisted.hard_state.voted_for, Some(2));
}

#[test]
fn candidate_self_vote_is_persisted() {
    let mut node = new_test_node(1, vec![1]);

    node.become_candidate();

    let persisted = node.storage.load().expect("load storage");
    assert_eq!(persisted.hard_state.current_term, 1);
    assert_eq!(persisted.hard_state.voted_for, Some(1));
}

#[test]
fn request_vote_grants_vote_for_newer_term_and_updates_term() {
    let mut node = new_test_node(1, vec![1, 2, 3]);

    let reply = node.handle_request_vote(RequestVoteArgs {
        term: 1,
        candidate_id: 2,
        last_log_index: 0,
        last_log_term: 0,
    });

    assert!(reply.vote_granted);
    assert_eq!(reply.term, 1);
    assert_eq!(node.current_term, 1);
    assert_eq!(node.role, Role::Follower);
    assert_eq!(node.voted_for, Some(2));
}

#[test]
fn request_vote_rejects_stale_term_without_changing_vote() {
    let mut node = new_test_node(1, vec![1, 2, 3]);
    node.current_term = 3;
    node.voted_for = Some(3);

    let reply = node.handle_request_vote(RequestVoteArgs {
        term: 2,
        candidate_id: 2,
        last_log_index: 0,
        last_log_term: 0,
    });

    assert!(!reply.vote_granted);
    assert_eq!(reply.term, 3);
    assert_eq!(node.current_term, 3);
    assert_eq!(node.voted_for, Some(3));
}

#[test]
fn request_vote_rejects_candidate_with_stale_log() {
    let mut node = new_test_node(1, vec![1, 2, 3]);
    node.log.push(LogEntry {
        term: 2,
        command: b"local".to_vec(),
    });

    let reply = node.handle_request_vote(RequestVoteArgs {
        term: 3,
        candidate_id: 2,
        last_log_index: 0,
        last_log_term: 1,
    });

    assert!(!reply.vote_granted);
    assert_eq!(reply.term, 3);
    assert_eq!(node.current_term, 3);
    assert_eq!(node.voted_for, None);
}

#[test]
fn append_entries_accepts_matching_sentinel_and_appends_entries() {
    let mut node = new_test_node(1, vec![1, 2, 3]);

    let reply = node.handle_append_entries(AppendEntriesArgs {
        term: 1,
        leader_id: 2,
        prev_log_index: 0,
        prev_log_term: 0,
        entries: vec![LogEntry {
            term: 1,
            command: b"set x".to_vec(),
        }],
        leader_commit: 1,
    });

    assert!(reply.success);
    assert_eq!(reply.term, 1);
    assert_eq!(node.current_term, 1);
    assert_eq!(node.role, Role::Follower);
    assert_eq!(node.log.len(), 2);
    assert_eq!(node.log[1].term, 1);
    assert_eq!(node.log[1].command, b"set x".to_vec());
    assert_eq!(node.commit_index, 1);
}

#[test]
fn append_entries_rejects_stale_term() {
    let mut node = new_test_node(1, vec![1, 2, 3]);
    node.current_term = 2;

    let reply = node.handle_append_entries(AppendEntriesArgs {
        term: 1,
        leader_id: 2,
        prev_log_index: 0,
        prev_log_term: 0,
        entries: vec![LogEntry {
            term: 1,
            command: b"stale".to_vec(),
        }],
        leader_commit: 1,
    });

    assert!(!reply.success);
    assert_eq!(reply.term, 2);
    assert_eq!(node.current_term, 2);
    assert_eq!(node.log.len(), 1);
}

#[test]
fn election_timeout_moves_follower_to_candidate_and_votes_for_self() {
    let mut node = new_test_node(1, vec![1]);

    node.become_candidate();

    assert_eq!(node.role, Role::Candidate);
    assert_eq!(node.current_term, 1);
    assert_eq!(node.voted_for, Some(1));
}

#[test]
fn candidate_becomes_leader_and_initializes_replication_state() {
    let mut node = new_test_node(1, vec![1, 2, 3]);
    node.log.push(LogEntry {
        term: 1,
        command: b"entry".to_vec(),
    });
    node.role = Role::Candidate;
    node.current_term = 1;

    node.become_leader();

    assert_eq!(node.role, Role::Leader);
    assert_eq!(node.next_index[&2], 2);
    assert_eq!(node.next_index[&3], 2);
    assert_eq!(node.match_index[&2], 0);
    assert_eq!(node.match_index[&3], 0);
}

#[test]
fn leader_steps_down_on_append_entries_reply_with_higher_term() {
    let mut node = new_test_node(1, vec![1, 2, 3]);
    node.role = Role::Leader;
    node.current_term = 2;

    node.on_append_entries_reply(AppendEntriesReply {
        node_id: 2,
        term: 3,
        success: false,
        match_index: 0,
    });

    assert_eq!(node.role, Role::Follower);
    assert_eq!(node.current_term, 3);
    assert_eq!(node.voted_for, None);
}

#[test]
fn leader_append_log_waits_for_majority_before_commit() {
    let mut node = new_test_node(1, vec![1, 2, 3]);
    node.role = Role::Leader;
    node.current_term = 1;
    node.become_leader();

    node.on_append_log(b"entry".to_vec());

    assert_eq!(node.log.len(), 2);
    assert_eq!(node.log[1].term, 1);
    assert_eq!(node.log[1].command, b"entry".to_vec());
    assert_eq!(node.commit_index, 0);

    node.on_append_entries_reply(AppendEntriesReply {
        node_id: 2,
        term: 1,
        success: true,
        match_index: 1,
    });

    assert_eq!(node.match_index[&2], 1);
    assert_eq!(node.next_index[&2], 2);
    assert_eq!(node.commit_index, 1);
}

#[test]
fn leader_does_not_commit_previous_term_entry_by_counting_majority() {
    let mut node = new_test_node(1, vec![1, 2, 3]);
    node.role = Role::Leader;
    node.current_term = 2;
    node.log.push(LogEntry {
        term: 1,
        command: b"old".to_vec(),
    });
    node.become_leader();

    node.on_append_entries_reply(AppendEntriesReply {
        node_id: 2,
        term: 2,
        success: true,
        match_index: 1,
    });

    assert_eq!(node.commit_index, 0);
}

/// Storage in memory that can be told to fail.
struct FlakyStorage {
    inner: MemoryStorage,
    fail_writes: bool,
    fail_sync: bool,
}

impl FlakyStorage {
    fn new() -> Self {
        FlakyStorage {
            inner: MemoryStorage::new(),
            fail_writes: false,
            fail_sync: false,
        }
    }

    fn check(&self) -> StorageResult<()> {
        if self.fail_writes {
            Err(StorageError::InvalidOperation("no space".to_string()))
        } else {
            Ok(())
        }
    }
}

impl Storage for FlakyStorage {
    // The five that follow exist in proofs only.
    fn state(&self) -> SavedState {
        unreachable!()
    }

    fn base(&self) -> u64 {
        unreachable!()
    }

    fn valid(&self) -> bool {
        unreachable!()
    }

    fn reliable(&self) -> bool {
        unreachable!()
    }

    fn flushed(&self) -> bool {
        unreachable!()
    }

    fn load(&self) -> StorageResult<StorageState> {
        self.inner.load()
    }

    fn save_hard_state(&mut self, hard_state: HardState) -> StorageResult<()> {
        self.check()?;
        self.inner.save_hard_state(hard_state)
    }

    fn append_entries(&mut self, entries: &[LogEntry]) -> StorageResult<()> {
        self.check()?;
        self.inner.append_entries(entries)
    }

    fn truncate_suffix(&mut self, first_index_to_remove: u64) -> StorageResult<()> {
        self.check()?;
        self.inner.truncate_suffix(first_index_to_remove)
    }

    fn replace_suffix(
        &mut self,
        first_index_to_remove: u64,
        entries: &[LogEntry],
    ) -> StorageResult<()> {
        self.check()?;
        self.inner.replace_suffix(first_index_to_remove, entries)
    }

    fn sync(&mut self) -> StorageResult<()> {
        if self.fail_sync {
            return Err(StorageError::InvalidOperation("no sync".to_string()));
        }
        self.inner.sync()
    }

    fn save_snapshot(&mut self, snapshot: Snapshot) -> StorageResult<()> {
        self.check()?;
        self.inner.save_snapshot(snapshot)
    }

    fn compact_log(&mut self, index: u64, term: u64) -> StorageResult<()> {
        self.check()?;
        self.inner.compact_log(index, term)
    }
}

fn flaky_node() -> Ruft<FlakyStorage> {
    Ruft::new_with_storage(1, vec![1, 2, 3], FlakyStorage::new()).expect("load flaky storage")
}

fn append(term: u64, prev: (u64, u64), entries: Vec<LogEntry>, commit: u64) -> AppendEntriesArgs {
    AppendEntriesArgs {
        term,
        leader_id: 2,
        prev_log_index: prev.0,
        prev_log_term: prev.1,
        entries,
        leader_commit: commit,
    }
}

#[test]
fn leader_that_cannot_persist_takes_no_command() {
    let mut node = flaky_node();
    node.role = Role::Leader;
    node.storage.fail_writes = true;

    assert_eq!(
        node.append_command(b"lost".to_vec()),
        AppendResult::PersistentError
    );
    assert!(!node.on_append_log(b"lost".to_vec()));
    assert_eq!(node.log, vec![entry(0, b"")]);
    assert!(node.outbox.append_requests.is_empty());
}

#[test]
fn unpersisted_term_and_vote_are_not_used() {
    let mut node = flaky_node();
    node.storage.fail_writes = true;
    let vote = RequestVoteArgs {
        term: 4,
        candidate_id: 2,
        last_log_index: 9,
        last_log_term: 3,
    };

    assert_eq!(
        node.handle_request_vote(vote),
        RequestVoteReply {
            term: 0,
            vote_granted: false
        }
    );
    assert_eq!(node.current_term, 0);
    assert_eq!(node.voted_for, None);

    node.current_term = 4;
    assert_eq!(
        node.handle_request_vote(vote),
        RequestVoteReply {
            term: 4,
            vote_granted: false
        }
    );
    assert_eq!(node.voted_for, None);

    node.become_follower(9);
    assert_eq!(node.current_term, 4);
}

#[test]
fn candidacy_that_cannot_be_flushed_is_given_up() {
    let mut node = flaky_node();
    node.storage.fail_sync = true;

    node.become_candidate();

    assert_eq!(node.role, Role::Follower);
    assert_eq!(node.current_term, 0);
    assert!(node.outbox.elections.is_empty());
    assert!(node.outbox.timer_reset);
    assert_eq!(node.storage.load().unwrap().hard_state.current_term, 1);
}

#[test]
fn entries_that_cannot_be_persisted_are_refused() {
    let mut node = flaky_node();
    node.current_term = 1;
    node.storage.fail_writes = true;

    let reply = node.handle_append_entries(append(1, (0, 0), vec![entry(1, b"x")], 1));

    assert_eq!(
        reply,
        AppendEntriesReply {
            node_id: 1,
            term: 1,
            success: false,
            match_index: 0
        }
    );
    assert_eq!(node.log.len(), 1);
    assert_eq!(node.commit_index, 0);
    assert!(node.outbox.timer_reset);
}

#[test]
fn newer_term_of_a_leader_that_cannot_be_persisted_is_refused() {
    let mut node = flaky_node();
    node.storage.fail_writes = true;

    let reply = node.handle_append_entries(append(2, (0, 0), vec![], 0));

    assert!(!reply.success);
    assert_eq!(reply.term, 0);
    assert_eq!(node.current_term, 0);
    assert!(!node.outbox.timer_reset);
}

#[test]
fn heartbeat_without_conflict_keeps_longer_log() {
    let mut node = new_test_node(1, vec![1, 2, 3]);
    node.handle_append_entries(append(
        1,
        (0, 0),
        vec![entry(1, b"a"), entry(1, b"b"), entry(1, b"c")],
        0,
    ));

    let reply = node.handle_append_entries(append(1, (0, 0), vec![entry(1, b"a")], 2));

    assert!(reply.success);
    assert_eq!(reply.match_index, 1);
    assert_eq!(node.log.len(), 4);
    assert_eq!(node.commit_index, 2);
    assert_eq!(
        node.take_outbox().applied,
        vec![
            ApplyMsg {
                index: 1,
                data: b"a".to_vec()
            },
            ApplyMsg {
                index: 2,
                data: b"b".to_vec()
            },
        ]
    );
    assert!(node.outbox.applied.is_empty());
}

#[test]
fn commit_index_stops_at_the_end_of_the_log() {
    let mut node = new_test_node(1, vec![1, 2, 3]);

    node.handle_append_entries(append(1, (0, 0), vec![entry(1, b"a")], 50));

    assert_eq!(node.commit_index, 1);
    assert_eq!(node.last_applied, 1);
}

#[test]
fn gap_and_term_mismatch_are_refused() {
    let mut node = new_test_node(1, vec![1, 2, 3]);

    assert!(!node.handle_append_entries(append(1, (1, 1), vec![], 0)).success);
    assert!(!node.handle_append_entries(append(1, (0, 1), vec![], 0)).success);
    assert!(node.handle_append_entries(append(1, (0, 0), vec![], 0)).success);
}

#[test]
fn second_candidate_of_a_term_gets_no_vote() {
    let mut node = new_test_node(1, vec![1, 2, 3]);
    let ask = |candidate_id| RequestVoteArgs {
        term: 1,
        candidate_id,
        last_log_index: 0,
        last_log_term: 0,
    };

    assert!(node.handle_request_vote(ask(2)).vote_granted);
    assert!(!node.handle_request_vote(ask(3)).vote_granted);
    assert!(node.handle_request_vote(ask(2)).vote_granted);
    assert_eq!(node.voted_for, Some(2));
}

#[test]
fn candidate_asks_with_its_term_and_last_entry() {
    let mut node = new_test_node(1, vec![1, 2, 3]);
    node.handle_append_entries(append(3, (0, 0), vec![entry(2, b"a"), entry(3, b"b")], 0));

    assert_eq!(node.handle_event(Event::ElectionTimeout), Answer::Silent);

    let outbox = node.take_outbox();
    assert_eq!(outbox.elections.len(), 1);
    assert_eq!(outbox.elections[0].majority, 2);
    assert_eq!(
        outbox.elections[0].args,
        RequestVoteArgs {
            term: 4,
            candidate_id: 1,
            last_log_index: 2,
            last_log_term: 3
        }
    );
}

#[test]
fn leader_sends_every_peer_what_it_lacks() {
    let mut node = new_test_node(2, vec![1, 2, 3]);
    node.log = vec![entry(0, b""), entry(1, b"a"), entry(1, b"b")];
    node.role = Role::Leader;
    node.current_term = 1;
    node.commit_index = 1;
    node.last_applied = 1;
    node.next_index.insert(1, 1);
    node.next_index.insert(3, 3);

    assert!(node.admits(&Event::Heartbeat));
    node.handle_event(Event::Heartbeat);

    let requests = node.take_outbox().append_requests;
    assert_eq!(requests.len(), 2);
    assert_eq!(requests[0].0, 1);
    assert_eq!(requests[0].1.prev_log_index, 0);
    assert_eq!(requests[0].1.entries, vec![entry(1, b"a"), entry(1, b"b")]);
    assert_eq!(requests[0].1.leader_commit, 1);
    assert_eq!(requests[1].0, 3);
    assert_eq!(requests[1].1.prev_log_index, 2);
    assert_eq!(requests[1].1.prev_log_term, 1);
    assert!(requests[1].1.entries.is_empty());

    node.call_append_entries(3);
    assert_eq!(node.outbox.append_requests.len(), 1);
}

#[test]
fn failed_reply_steps_next_index_back_to_one_at_most() {
    let mut node = new_test_node(1, vec![1, 2, 3]);
    node.role = Role::Leader;
    node.next_index.insert(2, 2);
    let refused = AppendEntriesReply {
        node_id: 2,
        term: 0,
        success: false,
        match_index: 0,
    };

    node.on_append_entries_reply(refused);
    assert_eq!(node.next_index[&2], 1);
    node.on_append_entries_reply(refused);
    assert_eq!(node.next_index[&2], 1);
    assert_eq!(node.next_index[&3], 1);
}

#[test]
fn events_that_a_node_cannot_take_are_told_apart() {
    let mut node = new_test_node(1, vec![1, 2, 3]);
    node.current_term = u64::MAX;
    assert!(!node.admits(&Event::ElectionTimeout));

    let mut node = new_test_node(1, vec![1, 2, 3]);
    node.role = Role::Leader;
    let reply = |node_id, match_index| {
        Event::AppendEntriesReply(AppendEntriesReply {
            node_id,
            term: 0,
            success: true,
            match_index,
        })
    };
    assert!(!node.admits(&reply(7, 0)));
    assert!(!node.admits(&reply(2, u64::MAX)));
    assert!(node.admits(&reply(2, 5)));
    node.handle_event(reply(2, 5));
    assert!(!node.admits(&Event::Heartbeat));
    assert!(!node.admits(&Event::NewLogEntries(b"x".to_vec())));
    assert!(node.admits(&Event::GetInfo));
}

#[test]
fn vote_result_reaches_only_a_candidate() {
    let mut node = new_test_node(1, vec![1, 2, 3]);
    node.handle_event(Event::VoteResult(true, 0));
    assert!(node.outbox.events.is_empty());

    node.role = Role::Candidate;
    node.handle_event(Event::VoteResult(true, 0));
    node.handle_event(Event::VoteResult(true, 5));
    node.handle_event(Event::VoteResult(false, 8));
    let events = node.take_outbox().events;
    assert!(matches!(events[0], Event::ReceiveEnoughVotes));
    assert!(matches!(events[1], Event::ShouldBeFollower(8)));

    node.handle_event(Event::ShouldBeFollower(8));
    assert_eq!(node.current_term, 8);
    node.handle_event(Event::ReceiveEnoughVotes);
    assert_eq!(node.role, Role::Follower);
}

#[test]
fn snapshot_of_a_newer_leader_brings_its_term() {
    let mut node = new_test_node(1, vec![1, 2, 3]);
    node.handle_event(Event::ElectionTimeout);
    node.take_outbox();
    let install = |term| {
        Event::InstallSnapshot(InstallSnapshotArgs {
            term,
            leader_id: 2,
            last_included_index: 4,
            last_included_term: 3,
            data: b"state".to_vec(),
        })
    };
    let answered = |term| Answer::InstallSnapshot(InstallSnapshotReply { node_id: 1, term });

    assert_eq!(node.handle_event(install(0)), answered(1));
    assert_eq!(node.role, Role::Candidate);
    assert!(!node.outbox.timer_reset);

    assert_eq!(node.handle_event(install(9)), answered(9));
    assert_eq!(node.role, Role::Follower);
    assert_eq!(node.voted_for, None);
    assert!(node.outbox.timer_reset);
    assert_eq!(node.log.len(), 1);
    assert_eq!(node.storage.load().expect("load storage").hard_state.current_term, 9);
}

#[test]
fn newer_term_in_a_snapshot_reply_ends_the_lead() {
    let mut node = new_test_node(1, vec![1, 2, 3]);
    node.role = Role::Leader;
    node.current_term = 2;
    let reply = |term| Event::InstallSnapshotReply(InstallSnapshotReply { node_id: 2, term });

    assert_eq!(node.handle_event(reply(2)), Answer::Silent);
    assert_eq!(node.role, Role::Leader);
    assert_eq!(node.handle_event(reply(3)), Answer::Silent);
    assert_eq!(node.role, Role::Follower);
    assert_eq!(node.current_term, 3);
}

#[test]
fn newer_term_of_a_snapshot_that_cannot_be_persisted_is_not_used() {
    let mut node = flaky_node();
    node.storage.fail_writes = true;
    let reply = node.handle_install_snapshot(InstallSnapshotArgs {
        term: 5,
        leader_id: 2,
        last_included_index: 1,
        last_included_term: 1,
        data: vec![],
    });
    assert_eq!(reply, InstallSnapshotReply { node_id: 1, term: 0 });
    node.on_install_snapshot_reply(InstallSnapshotReply { node_id: 2, term: 5 });
    assert_eq!(node.current_term, 0);
}

#[test]
fn offered_snapshot_is_turned_down() {
    let mut node = new_test_node(1, vec![1, 2, 3]);
    let before = node.snapshot();

    let offer = Event::CreateSnapshot(1, b"s".to_vec());
    assert_eq!(node.handle_event(offer), Answer::Compacted(false));

    assert_eq!(node.handle_event(Event::GetInfo), Answer::Info(before));
}

#[test]
fn committed_entries_are_handed_over_once() {
    let mut node = new_test_node(1, vec![1]);
    node.log.push(entry(1, b"a"));
    node.commit_index = 1;

    node.apply_committed();
    assert_eq!(node.handle_event(Event::Apply), Answer::Silent);

    assert_eq!(node.last_applied, 1);
    assert_eq!(node.outbox.applied.len(), 1);
    assert_eq!(node.outbox.applied[0].data, b"a".to_vec());
}

#[test]
fn majority_is_more_than_half() {
    assert_eq!(majority(1), 1);
    assert_eq!(majority(2), 2);
    assert_eq!(majority(3), 2);
    assert_eq!(majority(4), 3);
    assert_eq!(majority(5), 3);
}

#[test]
fn late_win_of_an_earlier_term_is_dropped() {
    let mut node = new_test_node(1, vec![1, 2, 3]);
    node.handle_event(Event::ElectionTimeout);
    node.handle_event(Event::ElectionTimeout);
    node.handle_event(Event::VoteResult(true, 1));
    assert!(node.take_outbox().events.is_empty());
    assert_eq!(node.role, Role::Candidate);

    node.handle_event(Event::VoteResult(true, 2));
    for event in node.take_outbox().events {
        node.handle_event(event);
    }
    assert_eq!(node.role, Role::Leader);
    assert_eq!(node.current_term, 2);
}

#[test]
fn kept_tail_is_not_reported_as_replicated() {
    let mut follower = new_test_node(2, vec![1, 2, 3]);
    follower.log.push(entry(1, b"stale"));
    let mut leader = new_test_node(1, vec![1, 2, 3]);
    leader.role = Role::Candidate;
    leader.current_term = 2;
    leader.become_leader();

    let (_, heartbeat) = leader.take_outbox().append_requests.remove(0);
    let reply = follower.handle_append_entries(heartbeat);
    assert!(reply.success);
    assert_eq!(reply.match_index, 0);
    assert_eq!(follower.log.len(), 2);

    leader.append_command(b"new".to_vec());
    leader.on_append_entries_reply(reply);
    assert_eq!(leader.commit_index, 0);
    assert_eq!(leader.next_index[&2], 1);
    assert!(leader.admits(&Event::Heartbeat));

    let (_, request) = leader.take_outbox().append_requests.remove(0);
    let reply = follower.handle_append_entries(request);
    assert_eq!(reply.match_index, 1);
    assert_eq!(follower.log, leader.log);
    leader.on_append_entries_reply(reply);
    assert_eq!(leader.commit_index, 1);
}

#[test]
fn conflict_below_the_commit_index_moves_it_back() {
    let mut node = new_test_node(1, vec![1, 2, 3]);
    node.handle_append_entries(append(
        1,
        (0, 0),
        vec![entry(1, b"a"), entry(1, b"b")],
        2,
    ));
    assert_eq!(node.commit_index, 2);

    let reply = node.handle_append_entries(append(2, (0, 0), vec![entry(2, b"c")], 5));

    assert!(reply.success);
    assert_eq!(node.log, vec![entry(0, b""), entry(2, b"c")]);
    assert_eq!(node.commit_index, 1);
    assert_eq!(node.last_applied, 2);
}

#[test]
fn commit_index_never_passes_a_log_that_got_shorter() {
    let mut node = new_test_node(1, vec![1, 2, 3]);
    node.handle_append_entries(append(
        1,
        (0, 0),
        vec![entry(1, b"a"), entry(1, b"b")],
        2,
    ));

    let reply = node.handle_append_entries(append(2, (0, 0), vec![entry(2, b"c")], 0));

    assert!(reply.success);
    assert_eq!(node.log.len(), 2);
    assert_eq!(node.commit_index, 1);
}

#[test]
fn command_that_cannot_be_flushed_is_not_accepted() {
    let mut node = flaky_node();
    node.role = Role::Leader;
    node.storage.fail_sync = true;

    assert_eq!(
        node.append_command(b"lost".to_vec()),
        AppendResult::PersistentError
    );
    assert_eq!(node.log.len(), 1);
    assert!(node.outbox.append_requests.is_empty());
}

#[test]
fn vote_that_cannot_be_flushed_is_not_granted() {
    let mut node = flaky_node();
    node.current_term = 1;
    node.storage.fail_sync = true;

    let reply = node.handle_request_vote(RequestVoteArgs {
        term: 1,
        candidate_id: 2,
        last_log_index: 0,
        last_log_term: 0,
    });

    assert!(!reply.vote_granted);
    assert_eq!(node.voted_for, None);
    assert!(!node.outbox.timer_reset);
}

#[test]
fn entries_that_cannot_be_flushed_are_not_acknowledged() {
    let mut node = flaky_node();
    node.current_term = 1;
    node.storage.fail_sync = true;

    let reply = node.handle_append_entries(append(1, (0, 0), vec![entry(1, b"x")], 1));

    assert!(!reply.success);
    assert_eq!(reply.match_index, 0);
    assert_eq!(node.log.len(), 1);
    assert_eq!(node.commit_index, 0);
}

#[test]
fn term_that_cannot_be_flushed_is_not_adopted() {
    let mut node = flaky_node();
    node.role = Role::Leader;
    node.current_term = 2;
    node.storage.fail_sync = true;

    assert!(node.refresh_term(5).is_err());
    node.on_append_entries_reply(AppendEntriesReply {
        node_id: 2,
        term: 3,
        success: false,
        match_index: 0,
    });

    assert_eq!(node.role, Role::Leader);
    assert_eq!(node.current_term, 2);
}
