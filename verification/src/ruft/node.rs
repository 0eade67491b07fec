//! The state machine of a single Raft node.
//!
//! A node is driven by one event at a time. It persists through its storage, and leaves everything
//! else that it wants done (calls, timers, commands for the state machine) in its outbox.
use crate::events::event::Event;
use crate::result::AppendResult;
use crate::rpc::append_entries::{AppendEntriesArgs, AppendEntriesReply, AppendEntriesView};
use crate::rpc::install_snapshot::{InstallSnapshotArgs, InstallSnapshotReply};
use crate::rpc::request_vote::{RequestVoteArgs, RequestVoteReply};
use crate::ruft::model::{
    conflicts_at, empty_outbox, first_conflict, for_every_peer, hard_state_saved, log_saved,
    majority_of, merged, restored, takeover, write_outcome, ApplyView, Election, NodeState,
    OutboxView, Step,
};
use crate::ruft::role::Role;
use crate::ruft::server::RuftServer;
use crate::storage::{
    replaced_suffix, suffix_index_in_bounds, HardState, MemoryStorage, SavedState, Storage,
    StorageResult,
};
use crate::utilis::collections::{lemma_push_contains, map_keys};
use crate::utilis::types::{
    clone_bytes, clone_suffix, entries_of, splice_suffix, Entry, LogEntry, NodeId,
};
use std::collections::HashMap;
use vstd::prelude::*;

verus! {

broadcast use vstd::std_specs::hash::group_hash_axioms;

/// A committed command for the state machine, with its log index.
#[derive(Debug, PartialEq, Eq)]
pub struct ApplyMsg {
    pub index: u64,
    pub data: Vec<u8>,
}

impl View for ApplyMsg {
    type V = ApplyView;

    open spec fn view(&self) -> ApplyView {
        ApplyView { index: self.index, data: self.data@ }
    }
}

/// What a node wants done, in the order in which it came up.
pub struct Outbox {
    /// Committed commands for the state machine.
    pub applied: Vec<ApplyMsg>,
    /// Events that the node sends to itself.
    pub events: Vec<Event>,
    /// AppendEntries calls by their target.
    pub append_requests: Vec<(NodeId, AppendEntriesArgs)>,
    /// Elections to hold.
    pub elections: Vec<Election>,
    /// The election timer starts over.
    pub timer_reset: bool,
}

impl View for Outbox {
    type V = OutboxView;

    open spec fn view(&self) -> OutboxView {
        OutboxView {
            applied: self.applied@.map_values(|m: ApplyMsg| m@),
            events: self.events@,
            append_requests: self.append_requests@.map_values(
                |r: (NodeId, AppendEntriesArgs)| (r.0, r.1@),
            ),
            elections: self.elections@,
            timer_reset: self.timer_reset,
        }
    }
}

impl Outbox {
    /// An outbox with nothing in it.
    pub fn new() -> (outbox: Self)
        ensures
            outbox@ == empty_outbox(),
    {
        let outbox = Outbox {
            applied: Vec::new(),
            events: Vec::new(),
            append_requests: Vec::new(),
            elections: Vec::new(),
            timer_reset: false,
        };
        assert(outbox@ =~= empty_outbox());
        outbox
    }
}

/// A node as an observer sees it.
#[derive(Clone, Copy, Debug, PartialEq, Eq, Structural)]
pub struct RuftSnapshot {
    pub node_id: NodeId,
    pub role: Role,
    pub current_term: u64,
    pub commit_index: u64,
    pub last_applied: u64,
    pub log_len: usize,
}

/// What whoever sent an event is answered.
#[derive(Clone, Copy, Debug, PartialEq, Eq, Structural)]
pub enum Answer {
    /// Nobody is waiting, or nobody gets an answer.
    Silent,
    /// To a leader's AppendEntries.
    AppendEntries(AppendEntriesReply),
    /// To a candidate's RequestVote.
    RequestVote(RequestVoteReply),
    /// To a leader's InstallSnapshot.
    InstallSnapshot(InstallSnapshotReply),
    /// To a state machine that offers a snapshot: whether the log was compacted.
    Compacted(bool),
    /// To a client's command.
    Command(AppendResult),
    /// To an observer.
    Info(RuftSnapshot),
}

/// A single Raft node.
pub struct Ruft<S> {
    /// Node id.
    pub node_id: NodeId,
    /// Full cluster membership.
    pub members: Vec<NodeId>,
    /// Current role.
    pub role: Role,
    /// Where the persistent state is kept.
    pub storage: S,
    /// Current term; persisted before it is used.
    pub current_term: u64,
    /// The vote of the current term; persisted before it is used.
    pub voted_for: Option<NodeId>,
    /// The log; `log[0]` is a sentinel without a command. Persisted before it is used.
    pub log: Vec<LogEntry>,
    /// Highest index known to be committed.
    pub commit_index: u64,
    /// Highest index handed to the state machine.
    pub last_applied: u64,
    /// For every peer, the index of the next entry to send.
    pub next_index: HashMap<NodeId, u64>,
    /// For every peer, the highest index known to be replicated.
    pub match_index: HashMap<NodeId, u64>,
    /// What the node wants done.
    pub outbox: Outbox,
}

impl<S> View for Ruft<S> {
    type V = NodeState;

    open spec fn view(&self) -> NodeState {
        NodeState {
            node_id: self.node_id,
            members: self.members@,
            role: self.role,
            current_term: self.current_term,
            voted_for: self.voted_for,
            log: entries_of(self.log@),
            commit_index: self.commit_index,
            last_applied: self.last_applied,
            next_index: self.next_index@,
            match_index: self.match_index@,
            outbox: self.outbox@,
        }
    }
}

/// A map that gives every peer the same value.
fn peer_map(node_id: NodeId, members: &Vec<NodeId>, value: u64) -> (map: HashMap<NodeId, u64>)
    ensures
        map@ == for_every_peer(node_id, members@, value),
{
    let mut map: HashMap<NodeId, u64> = HashMap::new();
    let mut i: usize = 0;
    while i < members.len()
        invariant
            i <= members@.len(),
            forall|id: NodeId| #[trigger]
                map@.contains_key(id) <==> members@.take(i as int).contains(id) && id != node_id,
            forall|id: NodeId| #[trigger] map@.contains_key(id) ==> map@[id] == value,
        decreases members@.len() - i,
    {
        let id: NodeId = members[i];
        let ghost before = map@;
        let ghost seen = members@.take(i as int);
        if id != node_id {
            map.insert(id, value);
        }
        proof {
            assert(members@.take(i + 1) =~= seen.push(id));
            assert forall|k: NodeId| #[trigger]
                map@.contains_key(k) <==> members@.take(i + 1).contains(k) && k != node_id by {
                lemma_push_contains(seen, id, k);
                assert(before.contains_key(k) <==> seen.contains(k) && k != node_id);
            }
        }
        i = i + 1;
    }
    assert(members@.take(i as int) =~= members@);
    assert(map@ =~= for_every_peer(node_id, members@, value));
    map
}

/// How many nodes make a majority of the members.
pub fn majority(members: usize) -> (n: usize)
    ensures
        n == majority_of(members as nat),
{
    members / 2 + 1
}

impl Ruft<MemoryStorage> {
    /// A fresh node that keeps its state in memory.
    pub fn new(node_id: NodeId, members: Vec<NodeId>) -> (result: StorageResult<Self>)
        ensures
            result matches Ok(node) && {
                &&& node.usable()
                &&& node@ == restored(node_id, members@, node.storage.state())
                &&& node.storage.base() == 0
                &&& node.storage.state() == (SavedState {
                    hard_state: HardState { current_term: 0, voted_for: None },
                    log: seq![crate::utilis::types::sentinel(0)],
                    snapshot: None,
                })
            },
    {
        Ruft::new_with_storage(node_id, members, MemoryStorage::new())
    }
}

impl<S: Storage> Ruft<S> {
    /// The node is in a state in which events can be handled.
    pub open spec fn usable(&self) -> bool {
        &&& self@.wf()
        &&& self.storage.valid()
    }

    /// Restores a node from storage. The log starts with a sentinel, so that indexes start at 1.
    pub fn new_with_storage(node_id: NodeId, members: Vec<NodeId>, storage: S) -> (result:
        StorageResult<Self>)
        requires
            storage.valid(),
        ensures
            result matches Ok(node) ==> {
                &&& node.usable()
                &&& node@ == restored(node_id, members@, storage.state())
                &&& node.storage == storage
            },
            storage.reliable() ==> result is Ok,
    {
        let saved = match storage.load() {
            Ok(saved) => saved,
            Err(e) => {
                return Err(e);
            },
        };
        let log_len: u64 = saved.log.len() as u64;
        let next_index = peer_map(node_id, &members, log_len);
        let match_index = peer_map(node_id, &members, 0);
        let node = Ruft {
            node_id,
            members,
            role: Role::Follower,
            storage,
            current_term: saved.hard_state.current_term,
            voted_for: saved.hard_state.voted_for,
            log: saved.log,
            commit_index: 0,
            last_applied: 0,
            next_index,
            match_index,
            outbox: Outbox::new(),
        };
        assert(node@ =~= restored(node_id, members@, storage.state()));
        Ok(node)
    }

    /// The node's state for an observer.
    pub fn snapshot(&self) -> (snapshot: RuftSnapshot)
        ensures
            snapshot.node_id == self@.node_id,
            snapshot.role == self@.role,
            snapshot.current_term == self@.current_term,
            snapshot.commit_index == self@.commit_index,
            snapshot.last_applied == self@.last_applied,
            snapshot.log_len == self@.log.len(),
    {
        RuftSnapshot {
            node_id: self.node_id,
            role: self.role,
            current_term: self.current_term,
            commit_index: self.commit_index,
            last_applied: self.last_applied,
            log_len: self.log.len(),
        }
    }

    /// The network service of the node, which holds none of its state.
    pub fn server(&self) -> (server: RuftServer)
        ensures
            server.node_id == self@.node_id,
    {
        RuftServer::new(self.node_id)
    }

    /// Hands out what the node wants done, and forgets it.
    pub fn take_outbox(&mut self) -> (outbox: Outbox)
        ensures
            outbox@ == old(self)@.outbox,
            final(self)@ == (NodeState { outbox: empty_outbox(), ..old(self)@ }),
            final(self).storage == old(self).storage,
    {
        let mut outbox = Outbox::new();
        std::mem::swap(&mut outbox, &mut self.outbox);
        outbox
    }

    /// Persists the term and the vote and flushes; memory follows only after success.
    fn persist_hard_state(&mut self, current_term: u64, voted_for: Option<NodeId>) -> (result:
        StorageResult<()>)
        requires
            old(self).storage.valid(),
        ensures
            result is Ok ==> final(self).storage.flushed(),
            final(self)@ == old(self)@,
            final(self).storage.valid(),
            final(self).storage.reliable() == old(self).storage.reliable(),
            final(self).storage.base() == old(self).storage.base(),
            write_outcome(
                old(self).storage.state(),
                hard_state_saved(old(self).storage.state(), current_term, voted_for),
                final(self).storage.state(),
                result is Ok,
            ),
            old(self).storage.reliable() ==> result is Ok,
    {
        match self.storage.save_hard_state(HardState { current_term, voted_for }) {
            Ok(()) => {},
            Err(e) => {
                return Err(e);
            },
        }
        self.storage.sync()
    }

    /// Persists new entries at the end of the log and flushes.
    fn append_persistent_entries(&mut self, entries: &[LogEntry]) -> (result: StorageResult<()>)
        requires
            old(self).storage.valid(),
        ensures
            result is Ok ==> final(self).storage.flushed(),
            final(self)@ == old(self)@,
            final(self).storage.valid(),
            final(self).storage.reliable() == old(self).storage.reliable(),
            final(self).storage.base() == old(self).storage.base(),
            write_outcome(
                old(self).storage.state(),
                log_saved(
                    old(self).storage.state(),
                    old(self).storage.state().log + entries_of(entries@),
                ),
                final(self).storage.state(),
                result is Ok,
            ),
            old(self).storage.reliable() ==> result is Ok,
    {
        match self.storage.append_entries(entries) {
            Ok(()) => {},
            Err(e) => {
                return Err(e);
            },
        }
        self.storage.sync()
    }

    /// Replaces a suffix of the persistent log in one step and flushes.
    fn replace_persistent_suffix(&mut self, first_index_to_remove: u64, entries: &[LogEntry]) -> (
    result: StorageResult<()>)
        requires
            old(self).storage.valid(),
        ensures
            result is Ok ==> final(self).storage.flushed(),
            final(self)@ == old(self)@,
            final(self).storage.valid(),
            final(self).storage.reliable() == old(self).storage.reliable(),
            final(self).storage.base() == old(self).storage.base(),
            write_outcome(
                old(self).storage.state(),
                log_saved(
                    old(self).storage.state(),
                    replaced_suffix(
                        old(self).storage.state().log,
                        first_index_to_remove as int,
                        entries_of(entries@),
                    ),
                ),
                final(self).storage.state(),
                result is Ok,
            ),
            old(self).storage.reliable() && suffix_index_in_bounds(
                first_index_to_remove,
                old(self).storage.state().log.len(),
            ) ==> result is Ok,
    {
        match self.storage.replace_suffix(first_index_to_remove, entries) {
            Ok(()) => {},
            Err(e) => {
                return Err(e);
            },
        }
        self.storage.sync()
    }

    /// Adopts a new term: persists it, returns to follower and frees the vote.
    pub fn refresh_term(&mut self, new_term: u64) -> (result: StorageResult<()>)
        requires
            old(self).usable(),
        ensures
            result is Ok ==> final(self).storage.flushed(),
            final(self).usable(),
            final(self).storage.reliable() == old(self).storage.reliable(),
            final(self).storage.base() == old(self).storage.base(),
            final(self)@ == (if result is Ok {
                old(self)@.refreshed(new_term)
            } else {
                old(self)@
            }),
            write_outcome(
                old(self).storage.state(),
                hard_state_saved(old(self).storage.state(), new_term, None),
                final(self).storage.state(),
                result is Ok,
            ),
            old(self).storage.reliable() ==> result is Ok,
    {
        match self.persist_hard_state(new_term, None) {
            Ok(()) => {},
            Err(e) => {
                return Err(e);
            },
        }
        self.current_term = new_term;
        self.role = Role::Follower;
        self.voted_for = None;
        Ok(())
    }

    /// Postpones the next election.
    pub fn reset_election_timer(&mut self)
        ensures
            final(self)@ == old(self)@.timer_reset(),
            final(self).storage == old(self).storage,
    {
        self.outbox.timer_reset = true;
        assert(self@ =~= old(self)@.timer_reset());
    }

    /// Hands committed entries to the state machine in log order.
    pub fn apply_committed(&mut self)
        requires
            old(self)@.commit_index > old(self)@.last_applied ==> old(self)@.commit_index < old(
                self,
            )@.log.len(),
        ensures
            final(self)@ == old(self)@.committed_applied(),
            final(self).storage == old(self).storage,
    {
        let ghost start = self@;
        while self.commit_index > self.last_applied
            invariant
                start == old(self)@,
                start.commit_index > start.last_applied ==> start.commit_index < start.log.len(),
                self.storage == old(self).storage,
                self.last_applied >= start.last_applied,
                self.last_applied <= start.commit_index || self.last_applied
                    == start.last_applied,
                self@ == (NodeState {
                    last_applied: self.last_applied,
                    outbox: OutboxView {
                        applied: start.outbox.applied + start.commands(
                            start.last_applied + 1,
                            self.last_applied as int,
                        ),
                        ..start.outbox
                    },
                    ..start
                }),
            decreases self.commit_index - self.last_applied,
        {
            let ghost before = self@;
            self.last_applied = self.last_applied + 1;
            let index: u64 = self.last_applied;
            assert(index < self.log.len());
            let msg = ApplyMsg { index, data: clone_bytes(&self.log[index as usize].command) };
            let ghost queue = self.outbox.applied@;
            self.outbox.applied.push(msg);
            proof {
                assert(self.outbox.applied@.map_values(|m: ApplyMsg| m@) =~= queue.map_values(
                    |m: ApplyMsg| m@,
                ).push(msg@));
                assert(start.log[index as int] == self.log@[index as int]@);
                let shorter = start.commands(start.last_applied + 1, index - 1);
                let longer = start.commands(start.last_applied + 1, index as int);
                assert(longer =~= shorter.push(msg@));
                assert(self@.outbox =~= OutboxView {
                    applied: before.outbox.applied.push(msg@),
                    ..start.outbox
                });
                assert(self@.outbox.applied =~= start.outbox.applied + start.commands(
                    start.last_applied + 1,
                    index as int,
                ));
            }
        }
        proof {
            if start.commit_index <= start.last_applied {
                assert(start.commands(start.last_applied + 1, start.last_applied as int)
                    =~= Seq::empty());
                assert(self@ =~= start);
            }
        }
    }

    /// The node and its storage now, and at a later point.
    pub open spec fn step_to(&self, next: &Self) -> Step {
        Step {
            node: self@,
            saved: self.storage.state(),
            next_node: next@,
            next_saved: next.storage.state(),
        }
    }

    /// The storage is the same kind of storage as before.
    pub open spec fn storage_kept(&self, next: &Self) -> bool {
        &&& next.storage.reliable() == self.storage.reliable()
        &&& next.storage.base() == self.storage.base()
    }

    /// A term that was adopted is durable.
    pub open spec fn term_durable(&self, next: &Self) -> bool {
        next@.current_term != self@.current_term ==> next.storage.flushed()
    }

    /// Entries that are acknowledged are durable, and so is the term that came with them. Where there
    /// is nothing to store, storage is left alone.
    pub open spec fn append_durable(
        &self,
        args: AppendEntriesView,
        next: &Self,
        reply: AppendEntriesReply,
    ) -> bool {
        let stores = args.term > self@.current_term || self@.append_writes(args);
        &&& reply.success && stores ==> next.storage.flushed()
        &&& !self@.append_writes(args) ==> self.term_durable(next)
        &&& !stores ==> next.storage == self.storage
    }

    /// A vote that is granted is durable, and so is a term that is adopted without one. Where there is
    /// nothing to store, storage is left alone.
    pub open spec fn vote_durable(
        &self,
        args: RequestVoteArgs,
        next: &Self,
        reply: RequestVoteReply,
    ) -> bool {
        &&& reply.vote_granted ==> next.storage.flushed()
        &&& !self@.grants(args) ==> self.term_durable(next)
        &&& args.term <= self@.current_term && !self@.grants(args) ==> next.storage == self.storage
    }

    /// A command that is accepted is durable. Nobody but a leader stores one.
    pub open spec fn command_durable(&self, next: &Self, accepted: bool) -> bool {
        &&& accepted ==> next.storage.flushed()
        &&& self@.role != Role::Leader ==> next.storage == self.storage
    }

    /// What an event is answered with, and what it changes of the term, is durable. An event that
    /// stores nothing leaves storage alone.
    pub open spec fn event_durable(&self, event: Event, next: &Self, answer: Answer) -> bool {
        match event {
            Event::AppendEntries(args) => answer matches Answer::AppendEntries(reply)
                && self.append_durable(args@, next, reply),
            Event::RequestVote(args) => answer matches Answer::RequestVote(reply)
                && self.vote_durable(args, next, reply),
            Event::NewLogEntries(_) => answer matches Answer::Command(result)
                && self.command_durable(next, result is Accepted),
            Event::ElectionTimeout if self@.role != Role::Leader => self.term_durable(next),
            Event::ShouldBeFollower(term) => self.newer_term_durable(term, next),
            Event::AppendEntriesReply(reply) => self.newer_term_durable(reply.term, next),
            Event::InstallSnapshot(args) => self.newer_term_durable(args.term, next),
            Event::InstallSnapshotReply(reply) => self.newer_term_durable(reply.term, next),
            _ => next.storage == self.storage,
        }
    }

    /// A term that was adopted is durable, and one that is not newer leaves storage alone.
    pub open spec fn newer_term_durable(&self, term: u64, next: &Self) -> bool {
        &&& self.term_durable(next)
        &&& term <= self@.current_term ==> next.storage == self.storage
    }

    /// The offset of the first new entry that the log does not hold, or the number of entries.
    fn find_takeover(&self, args: &AppendEntriesArgs) -> (offset: usize)
        requires
            args.prev_log_index < self@.log.len(),
        ensures
            offset == takeover(self@.log, args@),
            offset <= args@.entries.len(),
            args.prev_log_index + 1 + offset <= self@.log.len(),
    {
        assert(args.prev_log_index < self.log.len());
        let first_new_index: usize = args.prev_log_index as usize + 1;
        let mut offset: usize = 0;
        while offset < args.entries.len()
            invariant
                offset <= args.entries@.len(),
                first_new_index == args.prev_log_index + 1,
                first_new_index + offset <= self.log@.len(),
                takeover(self@.log, args@) == first_conflict(
                    self@.log,
                    first_new_index as int,
                    args@.entries,
                    offset as int,
                ),
            decreases args.entries@.len() - offset,
        {
            assert(first_new_index + offset <= self.log.len());
            let index: usize = first_new_index + offset;
            if index >= self.log.len() || self.log[index].term != args.entries[offset].term {
                assert(conflicts_at(
                    self@.log,
                    first_new_index as int,
                    args@.entries,
                    offset as int,
                ));
                return offset;
            }
            offset = offset + 1;
        }
        offset
    }

    /// Handles replication and heartbeats of a leader: the terms, the match of the logs, and how far
    /// to commit.
    pub fn handle_append_entries(&mut self, args: AppendEntriesArgs) -> (reply: AppendEntriesReply)
        requires
            old(self).usable(),
        ensures
            final(self).usable(),
            old(self).storage_kept(final(self)),
            old(self).append_durable(args@, final(self), reply),
            ({
                let step = old(self).step_to(final(self));
                step.appended(args@, reply) || step.append_not_persisted(args@, reply)
            }),
            old(self).storage.reliable() && old(self)@.writes_within(
                args@,
                old(self).storage.state().log.len(),
            ) ==> old(self).step_to(final(self)).appended(args@, reply),
    {
        if args.term < self.current_term {
            return AppendEntriesReply {
                node_id: self.node_id,
                term: self.current_term,
                success: false,
                match_index: 0,
            };
        }
        if args.term > self.current_term {
            if self.refresh_term(args.term).is_err() {
                return AppendEntriesReply {
                    node_id: self.node_id,
                    term: self.current_term,
                    success: false,
                    match_index: 0,
                };
            }
        }
        let refused = AppendEntriesReply {
            node_id: self.node_id,
            term: self.current_term,
            success: false,
            match_index: 0,
        };
        self.role = Role::Follower;
        self.reset_election_timer();
        let ghost led = self@;
        assert(led =~= old(self)@.led_in(args.term));
        let ghost with_term = self.storage.state();
        if args.prev_log_index >= self.log.len() as u64 {
            return refused;
        }
        if args.prev_log_term != self.log[args.prev_log_index as usize].term {
            return refused;
        }
        let offset: usize = self.find_takeover(&args);
        if offset < args.entries.len() {
            let index: usize = args.prev_log_index as usize + 1 + offset;
            let new_entries = clone_suffix(args.entries.as_slice(), offset);
            if self.replace_persistent_suffix(index as u64, new_entries.as_slice()).is_err() {
                return refused;
            }
            splice_suffix(&mut self.log, index, new_entries.as_slice());
        }
        let ghost grown = self@;
        assert(grown =~= NodeState { log: merged(old(self)@.log, args@), ..led });
        assert(grown.log.len() == self.log.len() && grown.log.len() >= 1);
        assert(args.prev_log_index + args@.entries.len() < grown.log.len());
        let match_index: u64 = args.prev_log_index + args.entries.len() as u64;
        let last_index: u64 = (self.log.len() - 1) as u64;
        if args.leader_commit > self.commit_index {
            self.commit_index = args.leader_commit;
        }
        if self.commit_index > last_index {
            self.commit_index = last_index;
        }
        self.apply_committed();
        AppendEntriesReply {
            node_id: self.node_id,
            term: self.current_term,
            success: true,
            match_index,
        }
    }

    /// Handles vote requests: a vote needs a term that is not stale, a log that is fresh enough and
    /// no other vote in the term.
    pub fn handle_request_vote(&mut self, args: RequestVoteArgs) -> (reply: RequestVoteReply)
        requires
            old(self).usable(),
        ensures
            final(self).usable(),
            old(self).storage_kept(final(self)),
            old(self).vote_durable(args, final(self), reply),
            ({
                let step = old(self).step_to(final(self));
                step.vote_answered(args, reply) || step.vote_not_persisted(args, reply)
            }),
            old(self).storage.reliable() ==> old(self).step_to(final(self)).vote_answered(
                args,
                reply,
            ),
    {
        if args.term < self.current_term {
            return RequestVoteReply { term: self.current_term, vote_granted: false };
        }
        if args.term > self.current_term {
            if self.refresh_term(args.term).is_err() {
                return RequestVoteReply { term: self.current_term, vote_granted: false };
            }
        }
        let ghost current = self@;
        let my_last_log_index: usize = self.log.len() - 1;
        let my_last_log_term: u64 = self.log[my_last_log_index].term;
        let log_is_up_to_date = args.last_log_term > my_last_log_term || (args.last_log_term
            == my_last_log_term && args.last_log_index >= my_last_log_index as u64);
        let can_vote = match self.voted_for {
            None => true,
            Some(id) => id == args.candidate_id,
        };
        assert(can_vote == current.can_vote_for(args.candidate_id));
        assert(log_is_up_to_date == old(self)@.log_is_up_to_date(args));
        if can_vote && log_is_up_to_date {
            if self.persist_hard_state(self.current_term, Some(args.candidate_id)).is_err() {
                return RequestVoteReply { term: self.current_term, vote_granted: false };
            }
            self.voted_for = Some(args.candidate_id);
            self.reset_election_timer();
            assert(self@ =~= NodeState {
                voted_for: Some(args.candidate_id),
                ..current
            }.timer_reset());
            return RequestVoteReply { term: self.current_term, vote_granted: true };
        }
        RequestVoteReply { term: self.current_term, vote_granted: false }
    }

    /// Builds the request for one peer from its next index.
    pub fn generate_append_entries_args(&self, id: NodeId) -> (args: AppendEntriesArgs)
        requires
            self@.next_index.contains_key(id),
            1 <= self@.next_index[id] <= self@.log.len(),
        ensures
            args@ == self@.append_request(id),
    {
        let next: u64 = *self.next_index.get(&id).unwrap();
        assert(next <= self.log.len());
        let args = AppendEntriesArgs {
            term: self.current_term,
            leader_id: self.node_id,
            prev_log_index: next - 1,
            prev_log_term: self.log[(next - 1) as usize].term,
            entries: clone_suffix(self.log.as_slice(), next as usize),
            leader_commit: self.commit_index,
        };
        assert(args@ =~= self@.append_request(id));
        args
    }

    /// Sends one peer what it lacks.
    pub fn call_append_entries(&mut self, id: NodeId)
        requires
            old(self)@.role == Role::Leader ==> old(self)@.next_index.contains_key(id) && 1 <= old(
                self,
            )@.next_index[id] <= old(self)@.log.len(),
        ensures
            final(self).storage == old(self).storage,
            final(self)@ == (if old(self)@.role == Role::Leader {
                NodeState {
                    outbox: OutboxView {
                        append_requests: old(self)@.outbox.append_requests.push(
                            (id, old(self)@.append_request(id)),
                        ),
                        ..old(self)@.outbox
                    },
                    ..old(self)@
                }
            } else {
                old(self)@
            }),
    {
        if self.role != Role::Leader {
            return;
        }
        let args = self.generate_append_entries_args(id);
        self.outbox.append_requests.push((id, args));
        proof {
            assert(self@.outbox.append_requests =~= old(self)@.outbox.append_requests.push(
                (id, args@),
            ));
            assert(self@.outbox =~= OutboxView {
                append_requests: old(self)@.outbox.append_requests.push((id, args@)),
                ..old(self)@.outbox
            });
        }
    }

    /// Sends every peer what it lacks, by its own next index.
    pub fn broadcast_append_entries(&mut self)
        requires
            old(self)@.wf(),
            old(self)@.role == Role::Leader ==> old(self)@.can_replicate(),
        ensures
            final(self)@ == old(self)@.broadcasted(),
            final(self).storage == old(self).storage,
    {
        if self.role != Role::Leader {
            return;
        }
        let ghost start = self@;
        let mut i: usize = 0;
        assert(start.outbox.append_requests + start.append_requests(0)
            =~= start.outbox.append_requests);
        while i < self.members.len()
            invariant
                start == old(self)@,
                start.wf(),
                start.can_replicate(),
                i <= self.members@.len(),
                self.storage == old(self).storage,
                self.role == Role::Leader,
                self@ == (NodeState {
                    outbox: OutboxView {
                        append_requests: start.outbox.append_requests + start.append_requests(
                            i as nat,
                        ),
                        ..start.outbox
                    },
                    ..start
                }),
            decreases self.members@.len() - i,
        {
            let id: NodeId = self.members[i];
            let ghost before = self@;
            if id != self.node_id {
                assert(start.members.contains(id));
                assert(start.is_peer(id));
                assert(start.next_index.contains_key(id));
                self.call_append_entries(id);
                proof {
                    assert(before.append_request(id) == start.append_request(id));
                    assert(self@.outbox.append_requests =~= start.outbox.append_requests
                        + start.append_requests((i + 1) as nat));
                }
            }
            i = i + 1;
        }
    }

    /// Takes a client's command. Only a leader does: it appends the command to its own log and sends
    /// it out; the command is committed when a majority holds it.
    pub fn append_command(&mut self, command: Vec<u8>) -> (result: AppendResult)
        requires
            old(self).usable(),
            old(self)@.role == Role::Leader ==> old(self)@.next_indexes_within(
                old(self)@.log.len() as int + 1,
            ),
        ensures
            final(self).usable(),
            old(self).storage_kept(final(self)),
            old(self).command_durable(final(self), result is Accepted),
            ({
                let step = old(self).step_to(final(self));
                step.command_taken(command@, result) || step.command_not_persisted(command@, result)
            }),
            old(self).storage.reliable() ==> old(self).step_to(final(self)).command_taken(
                command@,
                result,
            ),
    {
        if self.role != Role::Leader {
            return AppendResult::NotLeader;
        }
        let ghost new_entry = Entry { term: self.current_term, command: command@ };
        let entry = LogEntry { term: self.current_term, command };
        let mut entries: Vec<LogEntry> = Vec::new();
        entries.push(entry);
        assert(entries_of(entries@) =~= seq![new_entry]);
        let ghost stored = self.storage.state().log;
        assert(stored + seq![new_entry] =~= stored.push(new_entry));
        if self.append_persistent_entries(entries.as_slice()).is_err() {
            return AppendResult::PersistentError;
        }
        let index: u64 = self.log.len() as u64;
        let ghost before = self.log@;
        self.log.append(&mut entries);
        proof {
            assert(entries_of(self.log@) =~= entries_of(before).push(new_entry));
            assert(self@ =~= NodeState { log: old(self)@.log.push(new_entry), ..old(self)@ });
            assert(self@.log.len() == self.log.len());
        }
        self.broadcast_append_entries();
        AppendResult::Accepted { index, term: self.current_term }
    }

    /// Takes a client's command and says whether it was accepted.
    pub fn on_append_log(&mut self, command: Vec<u8>) -> (accepted: bool)
        requires
            old(self).usable(),
            old(self)@.role == Role::Leader ==> old(self)@.next_indexes_within(
                old(self)@.log.len() as int + 1,
            ),
        ensures
            final(self).usable(),
            old(self).storage_kept(final(self)),
            old(self).command_durable(final(self), accepted),
            ({
                let step = old(self).step_to(final(self));
                if accepted {
                    step.command_taken(
                        command@,
                        AppendResult::Accepted {
                            index: old(self)@.log.len() as u64,
                            term: old(self)@.current_term,
                        },
                    )
                } else {
                    step.command_taken(command@, AppendResult::NotLeader)
                        || step.command_not_persisted(command@, AppendResult::PersistentError)
                }
            }),
            old(self)@.role == Role::Leader && old(self).storage.reliable() ==> accepted,
    {
        let result = self.append_command(command);
        match result {
            AppendResult::Accepted { .. } => true,
            _ => false,
        }
    }

    /// Stands for election: a new term, a vote for itself, and a call for the votes of the others.
    pub fn become_candidate(&mut self)
        requires
            old(self).usable(),
            old(self)@.current_term < u64::MAX,
        ensures
            final(self).usable(),
            old(self).storage_kept(final(self)),
            old(self).term_durable(final(self)),
            ({
                let step = old(self).step_to(final(self));
                step.stood() || step.candidacy_not_persisted()
            }),
            old(self).storage.reliable() ==> old(self).step_to(final(self)).stood(),
    {
        self.reset_election_timer();
        let term: u64 = self.current_term + 1;
        if self.persist_hard_state(term, Some(self.node_id)).is_err() {
            return;
        }
        self.role = Role::Candidate;
        self.current_term = term;
        self.voted_for = Some(self.node_id);
        let last: usize = self.log.len() - 1;
        let election = Election {
            args: RequestVoteArgs {
                term,
                candidate_id: self.node_id,
                last_log_index: last as u64,
                last_log_term: self.log[last].term,
            },
            majority: majority(self.members.len()),
        };
        self.outbox.elections.push(election);
        proof {
            assert(election == old(self)@.election());
            assert(self@ =~= old(self)@.candidacy(true));
        }
    }

    /// Steps down to follower; a newer term also frees the vote.
    pub fn become_follower(&mut self, term: u64)
        requires
            old(self).usable(),
        ensures
            final(self).usable(),
            old(self).storage_kept(final(self)),
            old(self).newer_term_durable(term, final(self)),
            ({
                let step = old(self).step_to(final(self));
                step.followed(term) || step.step_down_not_persisted(term)
            }),
            old(self).storage.reliable() ==> old(self).step_to(final(self)).followed(term),
    {
        if term > self.current_term {
            if self.refresh_term(term).is_err() {
                return;
            }
        }
        self.role = Role::Follower;
        assert(self@ =~= old(self)@.stepped_down(term, true));
    }

    /// Takes the lead after a majority of votes; only a candidate can.
    pub fn become_leader(&mut self)
        requires
            old(self).usable(),
        ensures
            final(self).usable(),
            final(self).storage == old(self).storage,
            final(self)@ == old(self)@.promoted(),
    {
        if self.role == Role::Leader || self.role == Role::Follower {
            return;
        }
        self.role = Role::Leader;
        let len: u64 = self.log.len() as u64;
        self.next_index = peer_map(self.node_id, &self.members, len);
        self.match_index = peer_map(self.node_id, &self.members, 0);
        self.broadcast_append_entries();
    }

    /// On a heartbeat tick a leader sends what its peers lack, or nothing but the heartbeat.
    pub fn on_heartbeat(&mut self)
        requires
            old(self)@.wf(),
            old(self)@.role == Role::Leader ==> old(self)@.can_replicate(),
        ensures
            final(self)@ == old(self)@.broadcasted(),
            final(self).storage == old(self).storage,
    {
        if self.role != Role::Leader {
            return;
        }
        self.broadcast_append_entries();
    }

    /// Passes what a round of votes came to on to the node itself, unless it won an earlier term.
    pub fn on_vote_result(&mut self, success: bool, new_term: u64)
        ensures
            final(self)@ == old(self)@.on_vote_result(success, new_term),
            final(self).storage == old(self).storage,
    {
        if self.role != Role::Candidate {
            return;
        }
        if success {
            if new_term != self.current_term {
                return;
            }
            self.outbox.events.push(Event::ReceiveEnoughVotes);
        } else {
            self.outbox.events.push(Event::ShouldBeFollower(new_term));
        }
        assert(self@ =~= old(self)@.on_vote_result(success, new_term));
    }

    /// Counts the peers whose log is known to reach an index.
    pub fn count_replicas(&self, index: u64) -> (count: usize)
        ensures
            count == self@.replicas(index as int).len(),
    {
        let peers = map_keys(&self.match_index);
        let ghost reaches = |id: NodeId| self.match_index@[id] >= index;
        let mut count: usize = 0;
        let mut i: usize = 0;
        assert(peers@.take(0).to_set().filter(reaches) =~= Set::empty());
        while i < peers.len()
            invariant
                i <= peers@.len(),
                peers@.no_duplicates(),
                peers@.to_set() == self.match_index@.dom(),
                reaches == (|id: NodeId| self.match_index@[id] >= index),
                count <= i,
                peers@.take(i as int).to_set().filter(reaches).finite(),
                count == peers@.take(i as int).to_set().filter(reaches).len(),
            decreases peers@.len() - i,
        {
            let id: NodeId = peers[i];
            let ghost seen = peers@.take(i as int);
            proof {
                assert(peers@.to_set().contains(id));
                assert(self.match_index@.contains_key(id));
                assert(!seen.contains(id));
                let next = peers@.take(i + 1);
                assert(next =~= seen.push(id));
                assert forall|k: NodeId| next.contains(k) <==> seen.contains(k) || k == id by {
                    lemma_push_contains(seen, id, k);
                }
                if reaches(id) {
                    assert(next.to_set().filter(reaches) =~= seen.to_set().filter(reaches).insert(
                        id,
                    ));
                } else {
                    assert(next.to_set().filter(reaches) =~= seen.to_set().filter(reaches));
                }
            }
            if *self.match_index.get(&id).unwrap() >= index {
                count = count + 1;
            }
            i = i + 1;
        }
        assert(peers@.take(i as int) =~= peers@);
        assert(self@.replicas(index as int) =~= peers@.to_set().filter(reaches));
        count
    }

    /// Moves the commit index of a leader up to the highest entry of its own term that a majority
    /// holds.
    pub fn advance_commit_index(&mut self)
        requires
            old(self)@.wf(),
        ensures
            final(self)@ == old(self)@.commit_advanced(),
            final(self).storage == old(self).storage,
    {
        let ghost start = self@;
        let majority: usize = majority(self.members.len());
        let end: usize = self.log.len();
        if self.commit_index >= end as u64 {
            return;
        }
        let mut index: usize = self.commit_index as usize + 1;
        while index < end
            invariant
                start == old(self)@,
                start.wf(),
                end == start.log.len(),
                start.commit_index < index <= end,
                majority == start.majority(),
                self.storage == old(self).storage,
                self@ == (NodeState {
                    commit_index: start.commit_target(index as int) as u64,
                    ..start
                }),
            decreases end - index,
        {
            if self.log[index].term == self.current_term {
                let replicas: usize = self.count_replicas(index as u64);
                assert(self@.replicas(index as int) =~= start.replicas(index as int));
                if replicas >= majority - 1 {
                    self.commit_index = index as u64;
                }
            }
            index = index + 1;
        }
    }

    /// Handles a follower's answer: a newer term ends the lead, success moves its progress and the
    /// commit index, failure steps its next index back for another try.
    pub fn on_append_entries_reply(&mut self, reply: AppendEntriesReply)
        requires
            old(self).usable(),
            reply.term == old(self)@.current_term && old(self)@.role == Role::Leader ==> {
                &&& old(self)@.is_peer(reply.node_id)
                &&& reply.success ==> reply.match_index < u64::MAX
            },
        ensures
            final(self).usable(),
            old(self).storage_kept(final(self)),
            old(self).newer_term_durable(reply.term, final(self)),
            ({
                let step = old(self).step_to(final(self));
                step.reply_taken(reply) || step.reply_not_persisted(reply)
            }),
            old(self).storage.reliable() ==> old(self).step_to(final(self)).reply_taken(reply),
    {
        if reply.term < self.current_term {
            return;
        }
        if reply.term > self.current_term {
            if self.refresh_term(reply.term).is_err() {
                return;
            }
            return;
        }
        if self.role != Role::Leader {
            return;
        }
        assert(self@.next_index.contains_key(reply.node_id));
        assert(self@.match_index.contains_key(reply.node_id));
        if reply.success {
            self.match_index.insert(reply.node_id, reply.match_index);
            self.next_index.insert(reply.node_id, reply.match_index + 1);
            let ghost noted = self@;
            proof {
                assert(noted.wf());
                noted.lemma_commit_target(noted.log.len() as int);
            }
            self.advance_commit_index();
            self.apply_committed();
        } else {
            let next: u64 = *self.next_index.get(&reply.node_id).unwrap();
            if next > 1 {
                self.next_index.insert(reply.node_id, next - 1);
            }
        }
    }

    /// Handles a leader's snapshot: a newer term is adopted and its sender followed, and the answer
    /// tells the leader the term. The snapshot itself is not installed.
    pub fn handle_install_snapshot(&mut self, args: InstallSnapshotArgs) -> (reply:
        InstallSnapshotReply)
        requires
            old(self).usable(),
        ensures
            final(self).usable(),
            old(self).storage_kept(final(self)),
            old(self).newer_term_durable(args.term, final(self)),
            ({
                let step = old(self).step_to(final(self));
                step.snapshot_answered(args.term, reply) || step.snapshot_not_persisted(
                    args.term,
                    reply,
                )
            }),
            old(self).storage.reliable() ==> old(self).step_to(final(self)).snapshot_answered(
                args.term,
                reply,
            ),
    {
        if args.term < self.current_term {
            return InstallSnapshotReply { node_id: self.node_id, term: self.current_term };
        }
        if args.term > self.current_term {
            if self.refresh_term(args.term).is_err() {
                return InstallSnapshotReply { node_id: self.node_id, term: self.current_term };
            }
        }
        self.role = Role::Follower;
        self.reset_election_timer();
        assert(self@ =~= old(self)@.led_in(args.term));
        InstallSnapshotReply { node_id: self.node_id, term: self.current_term }
    }

    /// Handles a follower's answer to a snapshot: a newer term ends the lead.
    pub fn on_install_snapshot_reply(&mut self, reply: InstallSnapshotReply)
        requires
            old(self).usable(),
        ensures
            final(self).usable(),
            old(self).storage_kept(final(self)),
            old(self).newer_term_durable(reply.term, final(self)),
            ({
                let step = old(self).step_to(final(self));
                step.snapshot_reply_taken(reply.term) || step.snapshot_reply_not_persisted(
                    reply.term,
                )
            }),
            old(self).storage.reliable() ==> old(self).step_to(final(self)).snapshot_reply_taken(
                reply.term,
            ),
    {
        if reply.term > self.current_term {
            if self.refresh_term(reply.term).is_err() {
                return;
            }
        }
    }

    /// Whether a request can be built for every peer from a log of length `len`.
    fn next_indexes_within(&self, len: u64) -> (within: bool)
        ensures
            within == self@.next_indexes_within(len as int),
    {
        let peers = map_keys(&self.next_index);
        let mut i: usize = 0;
        while i < peers.len()
            invariant
                i <= peers@.len(),
                peers@.to_set() == self.next_index@.dom(),
                forall|j: int|
                    0 <= j < i ==> 1 <= self.next_index@[#[trigger] peers@[j]] <= len,
            decreases peers@.len() - i,
        {
            let id: NodeId = peers[i];
            assert(peers@.to_set().contains(id));
            assert(self.next_index@.contains_key(id));
            let next: u64 = *self.next_index.get(&id).unwrap();
            if next < 1 || next > len {
                assert(self@.next_index.contains_key(id));
                return false;
            }
            i = i + 1;
        }
        assert forall|id: NodeId| #[trigger] self@.next_index.contains_key(id) implies 1
            <= self@.next_index[id] <= len by {
            assert(peers@.to_set().contains(id));
            assert(peers@.contains(id));
        }
        true
    }

    /// Whether the node can take an event.
    pub fn admits(&self, event: &Event) -> (admitted: bool)
        requires
            self@.wf(),
        ensures
            admitted == self@.admits(*event),
    {
        match event {
            Event::ElectionTimeout => self.role == Role::Leader || self.current_term < u64::MAX,
            Event::Heartbeat => self.role != Role::Leader || self.next_indexes_within(
                self.log.len() as u64,
            ),
            Event::NewLogEntries(_) => {
                if self.role != Role::Leader {
                    true
                } else {
                    let len: u64 = self.log.len() as u64;
                    if len < u64::MAX {
                        self.next_indexes_within(len + 1)
                    } else {
                        self.next_indexes_within(len)
                    }
                }
            },
            Event::AppendEntriesReply(reply) => {
                if reply.term != self.current_term || self.role != Role::Leader {
                    true
                } else {
                    assert(self@.next_index.contains_key(reply.node_id) <==> self@.is_peer(
                        reply.node_id,
                    ));
                    self.next_index.contains_key(&reply.node_id) && (!reply.success
                        || reply.match_index < u64::MAX)
                }
            },
            _ => true,
        }
    }

    /// Handles one event: every change of the node goes through here.
    ///
    /// A node installs no snapshots and folds no log into one: of a snapshot that a leader sends or a
    /// follower answers only the term counts, and one that the state machine offers is turned down.
    pub fn handle_event(&mut self, event: Event) -> (answer: Answer)
        requires
            old(self).usable(),
            old(self)@.admits(event),
        ensures
            final(self).usable(),
            old(self).storage_kept(final(self)),
            old(self).event_handled(event, final(self), answer),
            old(self).storage.reliable() && (event matches Event::AppendEntries(args) ==> old(
                self,
            )@.writes_within(args@, old(self).storage.state().log.len())) ==> old(
                self,
            ).event_persisted(event, final(self), answer),
    {
        match event {
            Event::AppendEntries(args) => Answer::AppendEntries(self.handle_append_entries(args)),
            Event::RequestVote(args) => Answer::RequestVote(self.handle_request_vote(args)),
            Event::Apply => {
                self.apply_committed();
                Answer::Silent
            },
            Event::ElectionTimeout => {
                if self.role != Role::Leader {
                    self.become_candidate();
                }
                Answer::Silent
            },
            Event::VoteResult(success, new_term) => {
                self.on_vote_result(success, new_term);
                Answer::Silent
            },
            Event::ReceiveEnoughVotes => {
                self.become_leader();
                Answer::Silent
            },
            Event::ShouldBeFollower(term) => {
                self.become_follower(term);
                Answer::Silent
            },
            Event::Heartbeat => {
                self.on_heartbeat();
                Answer::Silent
            },
            Event::NewLogEntries(command) => Answer::Command(self.append_command(command)),
            Event::GetInfo => Answer::Info(self.snapshot()),
            Event::AppendEntriesReply(reply) => {
                self.on_append_entries_reply(reply);
                Answer::Silent
            },
            Event::InstallSnapshot(args) => Answer::InstallSnapshot(
                self.handle_install_snapshot(args),
            ),
            Event::InstallSnapshotReply(reply) => {
                self.on_install_snapshot_reply(reply);
                Answer::Silent
            },
            Event::CreateSnapshot(_, _) => Answer::Compacted(false),
        }
    }

    /// An event of which everything that had to be persisted was.
    pub open spec fn event_persisted(&self, event: Event, next: &Self, answer: Answer) -> bool {
        let step = self.step_to(next);
        match event {
            Event::AppendEntries(args) => answer matches Answer::AppendEntries(reply)
                && step.appended(args@, reply),
            Event::RequestVote(args) => answer matches Answer::RequestVote(reply)
                && step.vote_answered(args, reply),
            Event::NewLogEntries(command) => answer matches Answer::Command(result)
                && step.command_taken(command@, result),
            Event::GetInfo => answer matches Answer::Info(info) && {
                &&& info.node_id == self@.node_id
                &&& info.role == self@.role
                &&& info.current_term == self@.current_term
                &&& info.commit_index == self@.commit_index
                &&& info.last_applied == self@.last_applied
                &&& info.log_len == self@.log.len()
                &&& next == self
            },
            Event::ElectionTimeout if self@.role != Role::Leader => step.stood() && answer
                == Answer::Silent,
            Event::ShouldBeFollower(term) => step.followed(term) && answer == Answer::Silent,
            Event::AppendEntriesReply(reply) => step.reply_taken(reply) && answer == Answer::Silent,
            Event::InstallSnapshot(args) => answer matches Answer::InstallSnapshot(reply)
                && step.snapshot_answered(args.term, reply),
            Event::InstallSnapshotReply(reply) => step.snapshot_reply_taken(reply.term) && answer
                == Answer::Silent,
            Event::CreateSnapshot(_, _) => next == self && answer == Answer::Compacted(false),
            _ => {
                &&& step.next_node == step.node.unpersisted(event)
                &&& step.next_saved == step.saved
                &&& answer == Answer::Silent
            },
        }
    }

    /// An event of which something that had to be persisted was not.
    pub open spec fn event_not_persisted(&self, event: Event, next: &Self, answer: Answer) -> bool {
        let step = self.step_to(next);
        match event {
            Event::AppendEntries(args) => answer matches Answer::AppendEntries(reply)
                && step.append_not_persisted(args@, reply),
            Event::RequestVote(args) => answer matches Answer::RequestVote(reply)
                && step.vote_not_persisted(args, reply),
            Event::NewLogEntries(command) => answer matches Answer::Command(result)
                && step.command_not_persisted(command@, result),
            Event::ElectionTimeout => self@.role != Role::Leader && step.candidacy_not_persisted()
                && answer == Answer::Silent,
            Event::ShouldBeFollower(term) => step.step_down_not_persisted(term) && answer
                == Answer::Silent,
            Event::AppendEntriesReply(reply) => step.reply_not_persisted(reply) && answer
                == Answer::Silent,
            Event::InstallSnapshot(args) => answer matches Answer::InstallSnapshot(reply)
                && step.snapshot_not_persisted(args.term, reply),
            Event::InstallSnapshotReply(reply) => step.snapshot_reply_not_persisted(reply.term)
                && answer == Answer::Silent,
            _ => false,
        }
    }

    /// What an event comes to, whether or not it could be persisted.
    pub open spec fn event_handled(&self, event: Event, next: &Self, answer: Answer) -> bool {
        &&& self.event_durable(event, next, answer)
        &&& self.event_persisted(event, next, answer) || self.event_not_persisted(
            event,
            next,
            answer,
        )
    }
}

} // verus!
