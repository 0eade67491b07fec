//! A node as a mathematical value, and what every event makes of it.
//!
//! Where an event has to be persisted first, the step takes whether that succeeded as an argument.
use crate::events::event::Event;
use crate::result::AppendResult;
use crate::rpc::append_entries::{AppendEntriesReply, AppendEntriesView};
use crate::rpc::install_snapshot::InstallSnapshotReply;
use crate::rpc::request_vote::{RequestVoteArgs, RequestVoteReply};
use crate::ruft::role::Role;
use crate::storage::{replaced_suffix, HardState, SavedState};
use crate::utilis::types::{Entry, NodeId};
use vstd::prelude::*;

verus! {

/// A committed command on its way to the state machine.
#[verifier::ext_equal]
pub struct ApplyView {
    pub index: u64,
    pub data: Seq<u8>,
}

/// A round of votes that a candidate starts: what it asks, and how many votes make a majority, its
/// own included.
#[derive(Clone, Copy, Debug, PartialEq, Eq, Structural)]
pub struct Election {
    pub args: RequestVoteArgs,
    pub majority: usize,
}

/// What a node wants done.
#[verifier::ext_equal]
pub struct OutboxView {
    /// Committed commands, in log order.
    pub applied: Seq<ApplyView>,
    /// Events that the node sends to itself.
    pub events: Seq<Event>,
    /// AppendEntries calls by their target.
    pub append_requests: Seq<(NodeId, AppendEntriesView)>,
    /// Elections to hold.
    pub elections: Seq<Election>,
    /// The election timer starts over.
    pub timer_reset: bool,
}

/// One node, without its storage.
#[verifier::ext_equal]
pub struct NodeState {
    pub node_id: NodeId,
    pub members: Seq<NodeId>,
    pub role: Role,
    pub current_term: u64,
    pub voted_for: Option<NodeId>,
    pub log: Seq<Entry>,
    pub commit_index: u64,
    pub last_applied: u64,
    pub next_index: Map<NodeId, u64>,
    pub match_index: Map<NodeId, u64>,
    pub outbox: OutboxView,
}

impl NodeState {
    /// The cluster members other than this node.
    pub open spec fn is_peer(self, id: NodeId) -> bool {
        self.members.contains(id) && id != self.node_id
    }

    /// What holds of a node between events: the log has its sentinel, the commit index lies in the
    /// log, what is committed is applied, and replication is tracked for the peers and for nobody else.
    pub open spec fn wf(self) -> bool {
        &&& 1 <= self.log.len() <= u64::MAX
        &&& self.commit_index < self.log.len()
        &&& self.commit_index <= self.last_applied
        &&& forall|id: NodeId| #[trigger] self.next_index.contains_key(id) <==> self.is_peer(id)
        &&& forall|id: NodeId| #[trigger] self.match_index.contains_key(id) <==> self.is_peer(id)
    }

    /// The next index of every peer lies in a log of length `len`, or one past its end.
    pub open spec fn next_indexes_within(self, len: int) -> bool {
        forall|id: NodeId| #[trigger]
            self.next_index.contains_key(id) ==> 1 <= self.next_index[id] <= len
    }

    /// A request can be built for every peer.
    pub open spec fn can_replicate(self) -> bool {
        self.next_indexes_within(self.log.len() as int)
    }

    /// The index of the last log entry.
    pub open spec fn last_log_index(self) -> int {
        self.log.len() - 1
    }

    /// How many nodes, this one included, make a majority.
    pub open spec fn majority(self) -> nat {
        majority_of(self.members.len())
    }

    /// The term, the vote and the log agree with what is stored.
    pub open spec fn synced_with(self, saved: SavedState) -> bool {
        &&& saved.hard_state == HardState {
            current_term: self.current_term,
            voted_for: self.voted_for,
        }
        &&& saved.log == self.log
    }
}

/// A majority among `members` members.
pub open spec fn majority_of(members: nat) -> nat {
    members / 2 + 1
}

/// A map that gives every peer the same value.
pub open spec fn for_every_peer(node_id: NodeId, members: Seq<NodeId>, value: u64) -> Map<
    NodeId,
    u64,
> {
    Map::new(|id: NodeId| members.contains(id) && id != node_id, |id: NodeId| value)
}

/// An outbox with nothing in it.
pub open spec fn empty_outbox() -> OutboxView {
    OutboxView {
        applied: Seq::empty(),
        events: Seq::empty(),
        append_requests: Seq::empty(),
        elections: Seq::empty(),
        timer_reset: false,
    }
}

/// A node that starts from what its storage holds: a follower that knows of nothing committed.
pub open spec fn restored(node_id: NodeId, members: Seq<NodeId>, saved: SavedState) -> NodeState {
    NodeState {
        node_id,
        members,
        role: Role::Follower,
        current_term: saved.hard_state.current_term,
        voted_for: saved.hard_state.voted_for,
        log: saved.log,
        commit_index: 0,
        last_applied: 0,
        next_index: for_every_peer(node_id, members, saved.log.len() as u64),
        match_index: for_every_peer(node_id, members, 0),
        outbox: empty_outbox(),
    }
}

/// Storage with another term and vote.
pub open spec fn hard_state_saved(
    saved: SavedState,
    current_term: u64,
    voted_for: Option<NodeId>,
) -> SavedState {
    SavedState { hard_state: HardState { current_term, voted_for }, ..saved }
}

/// Storage with another log.
pub open spec fn log_saved(saved: SavedState, log: Seq<Entry>) -> SavedState {
    SavedState { log, ..saved }
}

/// What a write followed by a flush leaves behind: a write that failed may have been made and not
/// flushed.
pub open spec fn write_outcome(
    before: SavedState,
    written: SavedState,
    after: SavedState,
    ok: bool,
) -> bool {
    after == written || (!ok && after == before)
}

impl NodeState {
    /// The election timer starts over.
    pub open spec fn timer_reset(self) -> NodeState {
        NodeState { outbox: OutboxView { timer_reset: true, ..self.outbox }, ..self }
    }

    /// A new term is adopted: back to follower, with the vote free again.
    pub open spec fn refreshed(self, term: u64) -> NodeState {
        NodeState { current_term: term, role: Role::Follower, voted_for: None, ..self }
    }

    /// A term is adopted where it is newer.
    pub open spec fn caught_up(self, term: u64) -> NodeState {
        if term > self.current_term {
            self.refreshed(term)
        } else {
            self
        }
    }

    /// The commands of the entries from `first` to `last`, as the state machine gets them.
    pub open spec fn commands(self, first: int, last: int) -> Seq<ApplyView> {
        Seq::new(
            (last - first + 1) as nat,
            |i: int|
                ApplyView { index: (first + i) as u64, data: self.log[first + i].command },
        )
    }

    /// What is committed is handed to the state machine, in log order.
    pub open spec fn committed_applied(self) -> NodeState {
        if self.commit_index > self.last_applied {
            NodeState {
                last_applied: self.commit_index,
                outbox: OutboxView {
                    applied: self.outbox.applied + self.commands(
                        self.last_applied + 1,
                        self.commit_index as int,
                    ),
                    ..self.outbox
                },
                ..self
            }
        } else {
            self
        }
    }

    /// The request for one peer: everything from its next index on.
    pub open spec fn append_request(self, id: NodeId) -> AppendEntriesView {
        let next = self.next_index[id];
        AppendEntriesView {
            term: self.current_term,
            leader_id: self.node_id,
            prev_log_index: (next - 1) as u64,
            prev_log_term: self.log[next - 1].term,
            entries: self.log.skip(next as int),
            leader_commit: self.commit_index,
        }
    }

    /// The requests for the first `n` members, in their order, this node left out.
    pub open spec fn append_requests(self, n: nat) -> Seq<(NodeId, AppendEntriesView)>
        decreases n,
    {
        if n == 0 {
            Seq::empty()
        } else {
            let id = self.members[n - 1];
            let before = self.append_requests((n - 1) as nat);
            if id == self.node_id {
                before
            } else {
                before.push((id, self.append_request(id)))
            }
        }
    }

    /// A leader sends every peer what it lacks; nobody else sends anything.
    pub open spec fn broadcasted(self) -> NodeState {
        if self.role == Role::Leader {
            NodeState {
                outbox: OutboxView {
                    append_requests: self.outbox.append_requests + self.append_requests(
                        self.members.len(),
                    ),
                    ..self.outbox
                },
                ..self
            }
        } else {
            self
        }
    }
}

/// The entry before the new ones is in `log` and has the right term.
pub open spec fn previous_matches(log: Seq<Entry>, index: u64, term: u64) -> bool {
    index < log.len() && log[index as int].term == term
}

/// The new entry at `offset` is not in `log`: there is none at its index, or one of another term.
pub open spec fn conflicts_at(
    log: Seq<Entry>,
    first_new: int,
    entries: Seq<Entry>,
    offset: int,
) -> bool {
    first_new + offset >= log.len() || log[first_new + offset].term != entries[offset].term
}

/// The offset of the first conflict from `offset` on, or the number of entries if there is none.
pub open spec fn first_conflict(
    log: Seq<Entry>,
    first_new: int,
    entries: Seq<Entry>,
    offset: int,
) -> int
    decreases entries.len() - offset,
{
    if offset >= entries.len() || conflicts_at(log, first_new, entries, offset) {
        offset
    } else {
        first_conflict(log, first_new, entries, offset + 1)
    }
}

/// The offset at which a leader's entries take over, or their number if all are there.
pub open spec fn takeover(log: Seq<Entry>, args: AppendEntriesView) -> int {
    first_conflict(log, args.prev_log_index + 1, args.entries, 0)
}

/// `log` after a leader's entries: unchanged where all are there, else cut at the first conflict.
pub open spec fn merged(log: Seq<Entry>, args: AppendEntriesView) -> Seq<Entry> {
    let offset = takeover(log, args);
    if offset < args.entries.len() {
        replaced_suffix(log, args.prev_log_index + 1 + offset, args.entries.skip(offset))
    } else {
        log
    }
}

impl NodeState {
    /// An AppendEntries that is turned down.
    pub open spec fn append_refused(self) -> AppendEntriesReply {
        AppendEntriesReply {
            node_id: self.node_id,
            term: self.current_term,
            success: false,
            match_index: 0,
        }
    }

    /// An AppendEntries whose entries are in place. What it compared reaches as far as its last entry;
    /// of whatever the log holds behind that, the leader is told nothing.
    pub open spec fn append_accepted(self, args: AppendEntriesView) -> AppendEntriesReply {
        AppendEntriesReply {
            node_id: self.node_id,
            term: self.current_term,
            success: true,
            match_index: (args.prev_log_index + args.entries.len()) as u64,
        }
    }

    /// The commit index follows the leader's, and never passes the end of the log.
    pub open spec fn commit_followed(self, leader_commit: u64) -> NodeState {
        let known = if leader_commit > self.commit_index {
            leader_commit
        } else {
            self.commit_index
        };
        let commit_index = if known <= self.last_log_index() {
            known
        } else {
            self.last_log_index() as u64
        };
        NodeState { commit_index, ..self }.committed_applied()
    }

    /// The leader of a term that is not stale is followed, and the election put off.
    pub open spec fn led_in(self, term: u64) -> NodeState {
        NodeState { role: Role::Follower, ..self.caught_up(term) }.timer_reset()
    }

    /// A leader's entries are to be written into the log.
    pub open spec fn append_writes(self, args: AppendEntriesView) -> bool {
        &&& args.term >= self.current_term
        &&& previous_matches(self.log, args.prev_log_index, args.prev_log_term)
        &&& takeover(self.log, args) < args.entries.len()
    }

    /// What a leader's entries replace begins inside a stored log of length `stored`, or at its end.
    pub open spec fn writes_within(self, args: AppendEntriesView, stored: nat) -> bool {
        self.append_writes(args) ==> args.prev_log_index + 1 + takeover(self.log, args) <= stored
    }

    /// An AppendEntries, given whether a newer term and the entries could be persisted.
    pub open spec fn on_append_entries(
        self,
        args: AppendEntriesView,
        term_persisted: bool,
        entries_persisted: bool,
    ) -> (NodeState, AppendEntriesReply) {
        let led = self.led_in(args.term);
        if args.term < self.current_term {
            (self, self.append_refused())
        } else if args.term > self.current_term && !term_persisted {
            (self, self.append_refused())
        } else if !previous_matches(self.log, args.prev_log_index, args.prev_log_term) {
            (led, led.append_refused())
        } else if self.append_writes(args) && !entries_persisted {
            (led, led.append_refused())
        } else {
            let grown = NodeState { log: merged(self.log, args), ..led };
            let done = grown.commit_followed(args.leader_commit);
            (done, done.append_accepted(args))
        }
    }

    /// What an AppendEntries stores of a newer term.
    pub open spec fn term_stored(self, saved: SavedState, term: u64) -> SavedState {
        if term > self.current_term {
            hard_state_saved(saved, term, None)
        } else {
            saved
        }
    }

    /// What an AppendEntries stores when all of it can be stored.
    pub open spec fn append_stored(self, saved: SavedState, args: AppendEntriesView) -> SavedState {
        if args.term < self.current_term {
            saved
        } else if self.append_writes(args) {
            let offset = takeover(self.log, args);
            log_saved(
                self.term_stored(saved, args.term),
                replaced_suffix(
                    saved.log,
                    args.prev_log_index + 1 + offset,
                    args.entries.skip(offset),
                ),
            )
        } else {
            self.term_stored(saved, args.term)
        }
    }

    /// The candidate's log is at least as fresh as this one: by the last term, then by the length.
    pub open spec fn log_is_up_to_date(self, args: RequestVoteArgs) -> bool {
        let last_term = self.log.last().term;
        ||| args.last_log_term > last_term
        ||| args.last_log_term == last_term && args.last_log_index >= self.last_log_index()
    }

    /// The vote of the term is free, or is the candidate's already.
    pub open spec fn can_vote_for(self, candidate: NodeId) -> bool {
        self.voted_for is None || self.voted_for == Some(candidate)
    }

    /// The candidate gets the vote, if the vote can be persisted.
    pub open spec fn grants(self, args: RequestVoteArgs) -> bool {
        &&& args.term >= self.current_term
        &&& self.caught_up(args.term).can_vote_for(args.candidate_id)
        &&& self.log_is_up_to_date(args)
    }

    /// A RequestVote, given whether a newer term and the vote could be persisted.
    pub open spec fn on_request_vote(
        self,
        args: RequestVoteArgs,
        term_persisted: bool,
        vote_persisted: bool,
    ) -> (NodeState, RequestVoteReply) {
        if args.term < self.current_term || (args.term > self.current_term && !term_persisted) {
            (self, RequestVoteReply { term: self.current_term, vote_granted: false })
        } else {
            let current = self.caught_up(args.term);
            if self.grants(args) && vote_persisted {
                (
                    NodeState { voted_for: Some(args.candidate_id), ..current }.timer_reset(),
                    RequestVoteReply { term: args.term, vote_granted: true },
                )
            } else {
                (current, RequestVoteReply { term: args.term, vote_granted: false })
            }
        }
    }

    /// What a RequestVote stores when all of it can be stored.
    pub open spec fn vote_stored(self, saved: SavedState, args: RequestVoteArgs) -> SavedState {
        if self.grants(args) {
            hard_state_saved(saved, args.term, Some(args.candidate_id))
        } else if args.term > self.current_term {
            hard_state_saved(saved, args.term, None)
        } else {
            saved
        }
    }

    /// A client's command, given whether the entry could be persisted.
    pub open spec fn on_command(self, command: Seq<u8>, persisted: bool) -> (
        NodeState,
        AppendResult,
    ) {
        if self.role != Role::Leader {
            (self, AppendResult::NotLeader)
        } else if !persisted {
            (self, AppendResult::PersistentError)
        } else {
            let entry = Entry { term: self.current_term, command };
            let grown = NodeState { log: self.log.push(entry), ..self };
            (
                grown.broadcasted(),
                AppendResult::Accepted { index: self.log.len() as u64, term: self.current_term },
            )
        }
    }

    /// The call for votes of a node that becomes a candidate.
    pub open spec fn election(self) -> Election {
        Election {
            args: RequestVoteArgs {
                term: (self.current_term + 1) as u64,
                candidate_id: self.node_id,
                last_log_index: self.last_log_index() as u64,
                last_log_term: self.log.last().term,
            },
            majority: self.majority() as usize,
        }
    }

    /// A node stands for election, given whether its vote for itself could be persisted.
    pub open spec fn candidacy(self, persisted: bool) -> NodeState {
        let waiting = self.timer_reset();
        if persisted {
            NodeState {
                role: Role::Candidate,
                current_term: (self.current_term + 1) as u64,
                voted_for: Some(self.node_id),
                outbox: OutboxView {
                    elections: self.outbox.elections.push(self.election()),
                    ..waiting.outbox
                },
                ..waiting
            }
        } else {
            waiting
        }
    }

    /// A node steps down, given whether a newer term could be persisted.
    pub open spec fn stepped_down(self, term: u64, persisted: bool) -> NodeState {
        if term > self.current_term && !persisted {
            self
        } else {
            NodeState { role: Role::Follower, ..self.caught_up(term) }
        }
    }

    /// A candidate takes the lead and assumes that every peer has its whole log.
    pub open spec fn promoted(self) -> NodeState {
        if self.role == Role::Candidate {
            NodeState {
                role: Role::Leader,
                next_index: for_every_peer(self.node_id, self.members, self.log.len() as u64),
                match_index: for_every_peer(self.node_id, self.members, 0),
                ..self
            }.broadcasted()
        } else {
            self
        }
    }

    /// The peers whose log is known to reach `index`.
    pub open spec fn replicas(self, index: int) -> Set<NodeId> {
        self.match_index.dom().filter(|id: NodeId| self.match_index[id] >= index)
    }

    /// A leader may commit `index`: the entry is of its own term and a majority holds it.
    pub open spec fn committable(self, index: int) -> bool {
        &&& self.log[index].term == self.current_term
        &&& 1 + self.replicas(index).len() >= self.majority()
    }

    /// The highest committable index below `end`, or the commit index if there is none above it.
    pub open spec fn commit_target(self, end: int) -> int
        decreases end,
    {
        if end <= self.commit_index + 1 || end <= 0 {
            self.commit_index as int
        } else if self.committable(end - 1) {
            end - 1
        } else {
            self.commit_target(end - 1)
        }
    }

    /// What the commit index moves to is the highest committable index above it and below `end`, and
    /// stays where it is if there is none.
    pub proof fn lemma_commit_target(self, end: int)
        requires
            0 <= end,
        ensures
            self.commit_target(end) >= self.commit_index,
            self.commit_target(end) > self.commit_index ==> self.commit_target(end) < end
                && self.committable(self.commit_target(end)),
            forall|index: int|
                self.commit_index < index < end && #[trigger] self.committable(index) ==> index
                    <= self.commit_target(end),
        decreases end,
    {
        if end > self.commit_index + 1 && !self.committable(end - 1) {
            self.lemma_commit_target(end - 1);
        }
    }

    /// The commit index moves up to the highest committable index.
    pub open spec fn commit_advanced(self) -> NodeState {
        NodeState { commit_index: self.commit_target(self.log.len() as int) as u64, ..self }
    }

    /// A follower's answer, given whether a newer term could be persisted.
    pub open spec fn on_append_reply(self, reply: AppendEntriesReply, persisted: bool) -> NodeState {
        if reply.term > self.current_term {
            if persisted {
                self.refreshed(reply.term)
            } else {
                self
            }
        } else if reply.term < self.current_term || self.role != Role::Leader {
            self
        } else if reply.success {
            NodeState {
                match_index: self.match_index.insert(reply.node_id, reply.match_index),
                next_index: self.next_index.insert(
                    reply.node_id,
                    (reply.match_index + 1) as u64,
                ),
                ..self
            }.commit_advanced().committed_applied()
        } else if self.next_index[reply.node_id] > 1 {
            NodeState {
                next_index: self.next_index.insert(
                    reply.node_id,
                    (self.next_index[reply.node_id] - 1) as u64,
                ),
                ..self
            }
        } else {
            self
        }
    }

    /// A leader's snapshot, given whether a newer term could be persisted: its term is taken over and
    /// its sender followed. The snapshot itself is not installed.
    pub open spec fn on_install_snapshot(self, term: u64, persisted: bool) -> (
        NodeState,
        InstallSnapshotReply,
    ) {
        if term < self.current_term || (term > self.current_term && !persisted) {
            (self, InstallSnapshotReply { node_id: self.node_id, term: self.current_term })
        } else {
            (self.led_in(term), InstallSnapshotReply { node_id: self.node_id, term })
        }
    }

    /// A follower's answer to a snapshot, given whether a newer term could be persisted: a newer term
    /// ends the lead.
    pub open spec fn on_snapshot_reply(self, term: u64, persisted: bool) -> NodeState {
        if persisted {
            self.caught_up(term)
        } else {
            self
        }
    }

    /// The events that persist nothing.
    pub open spec fn unpersisted(self, event: Event) -> NodeState {
        match event {
            Event::Apply => self.committed_applied(),
            Event::VoteResult(success, new_term) => self.on_vote_result(success, new_term),
            Event::ReceiveEnoughVotes => self.promoted(),
            Event::Heartbeat => self.broadcasted(),
            _ => self,
        }
    }

    /// What a round of votes came to is passed on to the node itself. A majority of an earlier term
    /// says nothing of the present candidacy.
    pub open spec fn on_vote_result(self, success: bool, new_term: u64) -> NodeState {
        if self.role != Role::Candidate || (success && new_term != self.current_term) {
            self
        } else {
            let event = if success {
                Event::ReceiveEnoughVotes
            } else {
                Event::ShouldBeFollower(new_term)
            };
            NodeState {
                outbox: OutboxView { events: self.outbox.events.push(event), ..self.outbox },
                ..self
            }
        }
    }
}

impl NodeState {
    /// The node can take the event: terms have room to grow, a peer's next index lies in the log
    /// when a request is built from it, and an answer to replication comes from a peer.
    pub open spec fn admits(self, event: Event) -> bool {
        match event {
            Event::ElectionTimeout => self.role != Role::Leader ==> self.current_term < u64::MAX,
            Event::Heartbeat => self.role == Role::Leader ==> self.can_replicate(),
            Event::NewLogEntries(_) => self.role == Role::Leader ==> self.next_indexes_within(
                self.log.len() as int + 1,
            ),
            Event::AppendEntriesReply(reply) => {
                reply.term == self.current_term && self.role == Role::Leader ==> {
                    &&& self.is_peer(reply.node_id)
                    &&& reply.success ==> reply.match_index < u64::MAX
                }
            },
            _ => true,
        }
    }
}

/// A step: the node and its storage before an event, and after it.
pub struct Step {
    pub node: NodeState,
    pub saved: SavedState,
    pub next_node: NodeState,
    pub next_saved: SavedState,
}

impl Step {
    /// An AppendEntries of which everything that had to be persisted was.
    pub open spec fn appended(self, args: AppendEntriesView, reply: AppendEntriesReply) -> bool {
        &&& (self.next_node, reply) == self.node.on_append_entries(args, true, true)
        &&& self.next_saved == self.node.append_stored(self.saved, args)
    }

    /// An AppendEntries whose newer term, or whose entries, could not be persisted.
    pub open spec fn append_not_persisted(
        self,
        args: AppendEntriesView,
        reply: AppendEntriesReply,
    ) -> bool {
        let with_term = self.node.term_stored(self.saved, args.term);
        ||| {
            &&& args.term > self.node.current_term
            &&& (self.next_node, reply) == self.node.on_append_entries(args, false, false)
            &&& write_outcome(self.saved, with_term, self.next_saved, false)
        }
        ||| {
            &&& self.node.append_writes(args)
            &&& (self.next_node, reply) == self.node.on_append_entries(args, true, false)
            &&& write_outcome(
                with_term,
                self.node.append_stored(self.saved, args),
                self.next_saved,
                false,
            )
        }
    }

    /// A RequestVote of which everything that had to be persisted was.
    pub open spec fn vote_answered(self, args: RequestVoteArgs, reply: RequestVoteReply) -> bool {
        &&& (self.next_node, reply) == self.node.on_request_vote(args, true, true)
        &&& self.next_saved == self.node.vote_stored(self.saved, args)
    }

    /// A RequestVote whose newer term, or whose vote, could not be persisted.
    pub open spec fn vote_not_persisted(
        self,
        args: RequestVoteArgs,
        reply: RequestVoteReply,
    ) -> bool {
        let with_term = self.node.term_stored(self.saved, args.term);
        ||| {
            &&& args.term > self.node.current_term
            &&& (self.next_node, reply) == self.node.on_request_vote(args, false, false)
            &&& write_outcome(self.saved, with_term, self.next_saved, false)
        }
        ||| {
            &&& self.node.grants(args)
            &&& (self.next_node, reply) == self.node.on_request_vote(args, true, false)
            &&& write_outcome(
                with_term,
                self.node.vote_stored(self.saved, args),
                self.next_saved,
                false,
            )
        }
    }

    /// A client's command that was persisted, or that only a leader would have to persist.
    pub open spec fn command_taken(self, command: Seq<u8>, result: AppendResult) -> bool {
        &&& (self.next_node, result) == self.node.on_command(command, true)
        &&& self.next_saved == self.node.command_stored(self.saved, command)
    }

    /// A client's command that the leader could not persist.
    pub open spec fn command_not_persisted(self, command: Seq<u8>, result: AppendResult) -> bool {
        &&& self.node.role == Role::Leader
        &&& (self.next_node, result) == self.node.on_command(command, false)
        &&& write_outcome(
            self.saved,
            self.node.command_stored(self.saved, command),
            self.next_saved,
            false,
        )
    }

    /// A candidacy that was persisted.
    pub open spec fn stood(self) -> bool {
        &&& self.next_node == self.node.candidacy(true)
        &&& self.next_saved == self.node.candidacy_stored(self.saved)
    }

    /// A candidacy that could not be persisted.
    pub open spec fn candidacy_not_persisted(self) -> bool {
        &&& self.next_node == self.node.candidacy(false)
        &&& write_outcome(
            self.saved,
            self.node.candidacy_stored(self.saved),
            self.next_saved,
            false,
        )
    }

    /// A step down whose term was persisted, where it was newer.
    pub open spec fn followed(self, term: u64) -> bool {
        &&& self.next_node == self.node.stepped_down(term, true)
        &&& self.next_saved == self.node.term_stored(self.saved, term)
    }

    /// A step down whose newer term could not be persisted.
    pub open spec fn step_down_not_persisted(self, term: u64) -> bool {
        &&& term > self.node.current_term
        &&& self.next_node == self.node.stepped_down(term, false)
        &&& write_outcome(
            self.saved,
            self.node.term_stored(self.saved, term),
            self.next_saved,
            false,
        )
    }

    /// A leader's snapshot of which a newer term, where there was one, was persisted.
    pub open spec fn snapshot_answered(self, term: u64, reply: InstallSnapshotReply) -> bool {
        &&& (self.next_node, reply) == self.node.on_install_snapshot(term, true)
        &&& self.next_saved == self.node.term_stored(self.saved, term)
    }

    /// A leader's snapshot whose newer term could not be persisted.
    pub open spec fn snapshot_not_persisted(self, term: u64, reply: InstallSnapshotReply) -> bool {
        &&& term > self.node.current_term
        &&& (self.next_node, reply) == self.node.on_install_snapshot(term, false)
        &&& write_outcome(
            self.saved,
            self.node.term_stored(self.saved, term),
            self.next_saved,
            false,
        )
    }

    /// A follower's answer to a snapshot of which a newer term, where there was one, was persisted.
    pub open spec fn snapshot_reply_taken(self, term: u64) -> bool {
        &&& self.next_node == self.node.on_snapshot_reply(term, true)
        &&& self.next_saved == self.node.term_stored(self.saved, term)
    }

    /// A follower's answer to a snapshot whose newer term could not be persisted.
    pub open spec fn snapshot_reply_not_persisted(self, term: u64) -> bool {
        &&& term > self.node.current_term
        &&& self.next_node == self.node.on_snapshot_reply(term, false)
        &&& write_outcome(
            self.saved,
            self.node.term_stored(self.saved, term),
            self.next_saved,
            false,
        )
    }

    /// A follower's answer of which a newer term, where there was one, was persisted.
    pub open spec fn reply_taken(self, reply: AppendEntriesReply) -> bool {
        &&& self.next_node == self.node.on_append_reply(reply, true)
        &&& self.next_saved == self.node.term_stored(self.saved, reply.term)
    }

    /// A follower's answer whose newer term could not be persisted.
    pub open spec fn reply_not_persisted(self, reply: AppendEntriesReply) -> bool {
        &&& reply.term > self.node.current_term
        &&& self.next_node == self.node.on_append_reply(reply, false)
        &&& write_outcome(
            self.saved,
            self.node.term_stored(self.saved, reply.term),
            self.next_saved,
            false,
        )
    }
}

impl NodeState {
    /// What a leader stores of a client's command.
    pub open spec fn command_stored(self, saved: SavedState, command: Seq<u8>) -> SavedState {
        if self.role == Role::Leader {
            log_saved(saved, saved.log.push(Entry { term: self.current_term, command }))
        } else {
            saved
        }
    }

    /// What a node stores when it stands for election.
    pub open spec fn candidacy_stored(self, saved: SavedState) -> SavedState {
        hard_state_saved(saved, (self.current_term + 1) as u64, Some(self.node_id))
    }
}

} // verus!
