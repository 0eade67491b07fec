//! What holds of a node whatever events it is driven by.
use crate::events::event::Event;
use crate::result::AppendResult;
use crate::rpc::append_entries::{AppendEntriesArgs, AppendEntriesReply, AppendEntriesView};
use crate::rpc::request_vote::{RequestVoteArgs, RequestVoteReply};
use crate::ruft::model::{
    conflicts_at, first_conflict, majority_of, merged, restored, takeover, NodeState,
};
use crate::ruft::node::{Answer, Ruft};
use crate::ruft::role::Role;
use crate::storage::{SavedState, Storage};
use crate::utilis::types::{Entry, NodeId};
use vstd::prelude::*;

verus! {

/// No event takes a node back to an older term.
pub proof fn lemma_term_never_decreases<S: Storage>(
    before: Ruft<S>,
    event: Event,
    after: Ruft<S>,
    answer: Answer,
)
    requires
        before@.wf(),
        before@.admits(event),
        before.event_handled(event, &after, answer),
    ensures
        after@.current_term >= before@.current_term,
{
}

/// A node that has voted in a term keeps to that vote for as long as the term lasts.
pub proof fn lemma_one_vote_per_term<S: Storage>(
    before: Ruft<S>,
    event: Event,
    after: Ruft<S>,
    answer: Answer,
)
    requires
        before@.wf(),
        before@.admits(event),
        before.event_handled(event, &after, answer),
        after@.current_term == before@.current_term,
        before@.voted_for is Some,
    ensures
        after@.voted_for == before@.voted_for,
{
}

/// A vote is granted only to a candidate whose log is at least as fresh, and only after the vote is
/// stored and durable.
pub proof fn lemma_granted_vote_is_fresh_and_stored<S: Storage>(
    before: Ruft<S>,
    event: Event,
    after: Ruft<S>,
    reply: RequestVoteReply,
)
    requires
        before@.wf(),
        before.event_handled(event, &after, Answer::RequestVote(reply)),
        reply.vote_granted,
    ensures
        event matches Event::RequestVote(args) && {
            &&& before@.log_is_up_to_date(args)
            &&& after@.current_term == args.term == reply.term
            &&& after@.voted_for == Some(args.candidate_id)
            &&& after.storage.state().hard_state.current_term == args.term
            &&& after.storage.state().hard_state.voted_for == Some(args.candidate_id)
            &&& after.storage.flushed()
        },
{
}

/// Whatever is answered with a yes is stored and durable before it is answered, so that it is there
/// after a crash: entries that are acknowledged, votes that are granted, commands that are accepted.
pub proof fn lemma_answers_are_stored_first<S: Storage>(
    before: Ruft<S>,
    event: Event,
    after: Ruft<S>,
    answer: Answer,
)
    requires
        before@.wf(),
        before@.admits(event),
        before@.synced_with(before.storage.state()),
        before.storage.flushed(),
        before.event_handled(event, &after, answer),
        match answer {
            Answer::AppendEntries(reply) => reply.success,
            Answer::RequestVote(reply) => reply.vote_granted,
            Answer::Command(result) => result is Accepted,
            _ => false,
        },
    ensures
        after@.synced_with(after.storage.state()),
        after.storage.flushed(),
{
}

/// As long as nothing fails to be stored, storage holds what the node holds, and all of it is
/// durable.
pub proof fn lemma_storage_keeps_up<S: Storage>(
    before: Ruft<S>,
    event: Event,
    after: Ruft<S>,
    answer: Answer,
)
    requires
        before@.wf(),
        before@.admits(event),
        before@.synced_with(before.storage.state()),
        before.storage.flushed(),
        before.event_durable(event, &after, answer),
        before.event_persisted(event, &after, answer),
    ensures
        after@.synced_with(after.storage.state()),
        after.storage.flushed(),
{
}

/// A node that is started again from storage has the term, the vote and the log that it had.
pub proof fn lemma_restart_restores(node: NodeState, saved: SavedState)
    requires
        node.synced_with(saved),
    ensures
        ({
            let again = restored(node.node_id, node.members, saved);
            &&& again.current_term == node.current_term
            &&& again.voted_for == node.voted_for
            &&& again.log == node.log
            &&& again.synced_with(saved)
            &&& again.role == Role::Follower
            &&& again.commit_index == 0
        }),
{
}

/// A leader never removes or changes an entry of its own log; it only appends.
pub proof fn lemma_leader_only_appends<S: Storage>(
    before: Ruft<S>,
    event: Event,
    after: Ruft<S>,
    answer: Answer,
)
    requires
        before@.wf(),
        before@.admits(event),
        before.event_handled(event, &after, answer),
        before@.role == Role::Leader,
        after@.role == Role::Leader,
    ensures
        before@.log.is_prefix_of(after@.log),
{
}

/// Only the entries of a leader and the commands of clients change a log, and commands are only ever
/// added at its end.
pub proof fn lemma_log_changes<S: Storage>(
    before: Ruft<S>,
    event: Event,
    after: Ruft<S>,
    answer: Answer,
)
    requires
        before@.wf(),
        before@.admits(event),
        before.event_handled(event, &after, answer),
        !(event is AppendEntries),
    ensures
        before@.log.is_prefix_of(after@.log),
        !(event is NewLogEntries) ==> after@.log == before@.log,
        after@.log.len() <= before@.log.len() + 1,
{
}

/// Only a leader takes commands, and a refused command changes nothing.
pub proof fn lemma_only_leader_takes_commands<S: Storage>(
    before: Ruft<S>,
    command: Vec<u8>,
    after: Ruft<S>,
    answer: Answer,
)
    requires
        before@.wf(),
        before.event_handled(Event::NewLogEntries(command), &after, answer),
        before@.role != Role::Leader,
    ensures
        answer == Answer::Command(AppendResult::NotLeader),
        after@ == before@,
        after.storage.state() == before.storage.state(),
{
}

/// A message of an older term changes nothing.
pub proof fn lemma_stale_terms_are_ignored<S: Storage>(
    before: Ruft<S>,
    event: Event,
    after: Ruft<S>,
    answer: Answer,
)
    requires
        before@.wf(),
        before@.admits(event),
        before.event_handled(event, &after, answer),
        match event {
            Event::AppendEntries(args) => args.term < before@.current_term,
            Event::RequestVote(args) => args.term < before@.current_term,
            Event::AppendEntriesReply(reply) => reply.term < before@.current_term,
            Event::InstallSnapshot(args) => args.term < before@.current_term,
            Event::InstallSnapshotReply(reply) => reply.term < before@.current_term,
            _ => false,
        },
    ensures
        after@ == before@,
        after.storage.state() == before.storage.state(),
        answer matches Answer::AppendEntries(reply) ==> !reply.success && reply.term
            == before@.current_term,
        answer matches Answer::RequestVote(reply) ==> !reply.vote_granted && reply.term
            == before@.current_term,
        answer matches Answer::InstallSnapshot(reply) ==> reply.term == before@.current_term,
{
}

/// A message of a newer term, once stored, makes any node a follower in that term.
pub proof fn lemma_newer_term_makes_follower<S: Storage>(
    before: Ruft<S>,
    event: Event,
    after: Ruft<S>,
    answer: Answer,
    term: u64,
)
    requires
        before@.wf(),
        before@.admits(event),
        before.event_persisted(event, &after, answer),
        term > before@.current_term,
        match event {
            Event::AppendEntries(args) => args.term == term,
            Event::RequestVote(args) => args.term == term,
            Event::AppendEntriesReply(reply) => reply.term == term,
            Event::InstallSnapshot(args) => args.term == term,
            Event::InstallSnapshotReply(reply) => reply.term == term,
            Event::ShouldBeFollower(t) => t == term,
            _ => false,
        },
    ensures
        after@.role == Role::Follower,
        after@.current_term == term,
        after.storage.state().hard_state.current_term == term,
{
}

/// Nobody takes the lead but a candidate that is told of its majority.
pub proof fn lemma_only_candidates_take_the_lead<S: Storage>(
    before: Ruft<S>,
    event: Event,
    after: Ruft<S>,
    answer: Answer,
)
    requires
        before@.wf(),
        before@.admits(event),
        before.event_handled(event, &after, answer),
        before@.role != Role::Leader,
        after@.role == Role::Leader,
    ensures
        before@.role == Role::Candidate,
        event is ReceiveEnoughVotes,
        after@.current_term == before@.current_term,
        after@.log == before@.log,
        after@.can_replicate(),
{
}

/// A node hands its state machine every index once and in log order: what an event adds are the
/// commands that follow the last one handed over, without a gap.
pub proof fn lemma_applied_in_log_order<S: Storage>(
    before: Ruft<S>,
    event: Event,
    after: Ruft<S>,
    answer: Answer,
)
    requires
        before@.wf(),
        after@.wf(),
        before@.admits(event),
        before.event_handled(event, &after, answer),
    ensures
        after@.last_applied >= before@.last_applied,
        after@.outbox.applied == before@.outbox.applied + after@.commands(
            before@.last_applied + 1,
            after@.last_applied as int,
        ),
        after@.last_applied > before@.last_applied ==> after@.last_applied == after@.commit_index
            && after@.commit_index < after@.log.len(),
{
    if after@.last_applied == before@.last_applied {
        assert(after@.commands(before@.last_applied + 1, after@.last_applied as int)
            =~= Seq::empty());
        assert(before@.outbox.applied + Seq::empty() =~= before@.outbox.applied);
    }
    if let Event::AppendEntriesReply(reply) = event {
        before@.lemma_reply_commit(reply);
    }
}

impl NodeState {
    /// A leader that has noted a follower's progress.
    pub open spec fn progress_noted(self, reply: AppendEntriesReply) -> NodeState {
        NodeState {
            match_index: self.match_index.insert(reply.node_id, reply.match_index),
            next_index: self.next_index.insert(reply.node_id, (reply.match_index + 1) as u64),
            ..self
        }
    }

    proof fn lemma_reply_commit(self, reply: AppendEntriesReply)
        requires
            self.wf(),
        ensures
            ({
                let noted = self.progress_noted(reply);
                let target = noted.commit_target(noted.log.len() as int);
                &&& target >= self.commit_index
                &&& target > self.commit_index ==> target < self.log.len() && noted.committable(
                    target,
                )
            }),
    {
        let noted = self.progress_noted(reply);
        noted.lemma_commit_target(noted.log.len() as int);
    }
}

/// A leader commits only what a majority, itself included, is known to hold, and only entries of its
/// own term.
pub proof fn lemma_leader_commits_by_majority<S: Storage>(
    before: Ruft<S>,
    event: Event,
    after: Ruft<S>,
    answer: Answer,
)
    requires
        before@.wf(),
        before@.admits(event),
        before.event_handled(event, &after, answer),
        before@.role == Role::Leader,
        after@.role == Role::Leader,
        after@.commit_index != before@.commit_index,
    ensures
        before@.commit_index < after@.commit_index < after@.log.len(),
        after@.log[after@.commit_index as int].term == after@.current_term,
        1 + after@.replicas(after@.commit_index as int).len() >= after@.majority(),
{
    if let Event::AppendEntriesReply(reply) = event {
        before@.lemma_reply_commit(reply);
        let noted = before@.progress_noted(reply);
        let index = after@.commit_index as int;
        assert(after@.replicas(index) =~= noted.replicas(index));
    }
}

/// A leader's entries leave the committed part of a log alone.
pub open spec fn spares_committed(node: NodeState, args: AppendEntriesView) -> bool {
    node.append_writes(args) ==> args.prev_log_index + 1 + takeover(node.log, args)
        > node.commit_index
}

/// What is committed stays: the commit index never moves back, and the entries up to it do not
/// change, as long as no leader's entries conflict with a committed one.
pub proof fn lemma_committed_entries_stay<S: Storage>(
    before: Ruft<S>,
    event: Event,
    after: Ruft<S>,
    answer: Answer,
)
    requires
        before@.wf(),
        after@.wf(),
        before@.admits(event),
        before.event_handled(event, &after, answer),
        event matches Event::AppendEntries(args) ==> spares_committed(before@, args@),
    ensures
        after@.commit_index >= before@.commit_index,
        after@.log.take(before@.commit_index + 1) == before@.log.take(before@.commit_index + 1),
{
    let kept = before@.commit_index + 1;
    match event {
        Event::AppendEntriesReply(reply) => {
            before@.lemma_reply_commit(reply);
        },
        Event::AppendEntries(args) => {
            if before@.append_writes(args@) {
                lemma_first_conflict(
                    before@.log,
                    args.prev_log_index + 1,
                    args@.entries,
                    0,
                );
                assert(merged(before@.log, args@).take(kept) =~= before@.log.take(kept));
            }
        },
        _ => {},
    }
    assert(after@.log.take(kept) =~= before@.log.take(kept));
}

/// What the first conflict is: everything before it is in the log with the same term.
pub proof fn lemma_first_conflict(
    log: Seq<Entry>,
    first_new: int,
    entries: Seq<Entry>,
    offset: int,
)
    requires
        0 <= offset <= entries.len(),
        0 <= first_new,
        first_new + offset <= log.len(),
    ensures
        ({
            let k = first_conflict(log, first_new, entries, offset);
            &&& offset <= k <= entries.len()
            &&& first_new + k <= log.len()
            &&& k < entries.len() ==> conflicts_at(log, first_new, entries, k)
            &&& forall|i: int|
                offset <= i < k ==> #[trigger] log[first_new + i].term == entries[i].term
        }),
    decreases entries.len() - offset,
{
    if offset < entries.len() && !conflicts_at(log, first_new, entries, offset) {
        lemma_first_conflict(log, first_new, entries, offset + 1);
    }
}

/// An acknowledged AppendEntries leaves the log as it was up to the entry before the new ones, has
/// every new entry's term in place, and reports the index of the last new entry.
pub proof fn lemma_acknowledged_entries_are_in_place(
    before: NodeState,
    args: AppendEntriesView,
    after: NodeState,
    reply: AppendEntriesReply,
)
    requires
        before.wf(),
        after.wf(),
        (after, reply) == before.on_append_entries(args, true, true),
        reply.success,
    ensures
        args.prev_log_index < before.log.len(),
        after.log.take(args.prev_log_index + 1) == before.log.take(args.prev_log_index + 1),
        after.log[args.prev_log_index as int].term == args.prev_log_term,
        args.prev_log_index + args.entries.len() < after.log.len(),
        forall|i: int|
            0 <= i < args.entries.len() ==> #[trigger] after.log[args.prev_log_index + 1 + i].term
                == args.entries[i].term,
        reply.match_index == args.prev_log_index + args.entries.len(),
{
    let first_new = args.prev_log_index + 1;
    lemma_first_conflict(before.log, first_new, args.entries, 0);
    let k = takeover(before.log, args);
    assert(after.log == merged(before.log, args));
    assert(after.log.take(first_new) =~= before.log.take(first_new));
    assert(after.log[first_new - 1] == before.log[first_new - 1]);
    assert forall|i: int| 0 <= i < args.entries.len() implies #[trigger] after.log[first_new
        + i].term == args.entries[i].term by {
        if i < k {
            assert(before.log[first_new + i].term == args.entries[i].term);
        } else {
            assert(after.log[first_new + i] == args.entries.skip(k)[i - k]);
        }
    }
}

/// Two logs agree wherever they have an entry of the same index and term, and before it.
pub open spec fn logs_match(a: Seq<Entry>, b: Seq<Entry>) -> bool {
    forall|i: int|
        0 <= i < a.len() && i < b.len() && (#[trigger] a[i]).term == (#[trigger] b[i]).term
            ==> a.take(i + 1) == b.take(i + 1)
}

/// Replication copies: where the logs of a leader and a follower match, a request that the follower
/// acknowledges leaves it with the whole log of the leader, and what it reports is the leader's last
/// index.
pub proof fn lemma_replication_copies_leader_log(
    leader: NodeState,
    id: NodeId,
    before: NodeState,
    after: NodeState,
    reply: AppendEntriesReply,
)
    requires
        leader.wf(),
        leader.next_index.contains_key(id),
        1 <= leader.next_index[id] <= leader.log.len(),
        before.wf(),
        logs_match(leader.log, before.log),
        after.wf(),
        (after, reply) == before.on_append_entries(leader.append_request(id), true, true),
        reply.success,
    ensures
        leader.log.is_prefix_of(after.log),
        logs_match(leader.log, after.log),
        reply.match_index == leader.log.len() - 1,
        after.log == before.log || after.log == leader.log,
{
    let args = leader.append_request(id);
    let next = leader.next_index[id] as int;
    let k = takeover(before.log, args);
    lemma_first_conflict(before.log, next, args.entries, 0);
    lemma_acknowledged_entries_are_in_place(before, args, after, reply);
    let agreed = next + k;
    assert(leader.log.take(agreed) == before.log.take(agreed)) by {
        let i = agreed - 1;
        if k == 0 {
            assert(leader.log[i].term == before.log[i].term);
        } else {
            assert(before.log[next + (k - 1)].term == args.entries[k - 1].term);
            assert(args.entries[k - 1] == leader.log[i]);
        }
    }
    if k < args.entries.len() {
        assert(args.entries.skip(k) =~= leader.log.skip(agreed));
        assert(after.log =~= leader.log.take(agreed) + leader.log.skip(agreed));
        assert(after.log =~= leader.log);
    } else {
        assert(after.log == before.log);
        assert(agreed == leader.log.len());
        assert(leader.log =~= before.log.take(agreed));
    }
    assert(leader.log =~= after.log.take(leader.log.len() as int));
    assert forall|i: int|
        0 <= i < leader.log.len() && i < after.log.len() && (#[trigger] leader.log[i]).term == (
        #[trigger] after.log[i]).term implies leader.log.take(i + 1) == after.log.take(i + 1) by {
        assert(leader.log.take(i + 1) =~= after.log.take(i + 1));
    }
}

/// A request that starts at the entry after one that leader and follower have in common, in a term
/// that is not stale for the follower, is acknowledged.
pub proof fn lemma_matching_request_is_acknowledged(
    leader: NodeState,
    id: NodeId,
    before: NodeState,
)
    requires
        leader.wf(),
        1 <= leader.next_index[id] <= leader.log.len(),
        before.wf(),
        leader.current_term >= before.current_term,
        leader.next_index[id] <= before.log.len(),
        leader.log[leader.next_index[id] - 1].term == before.log[leader.next_index[id] - 1].term,
    ensures
        before.on_append_entries(leader.append_request(id), true, true).1.success,
{
}

/// Logs that match those of a leader and of a follower match what replication makes of the
/// follower's.
pub proof fn lemma_replication_keeps_logs_matching(
    leader: NodeState,
    id: NodeId,
    before: NodeState,
    after: NodeState,
    reply: AppendEntriesReply,
    other: Seq<Entry>,
)
    requires
        leader.wf(),
        leader.next_index.contains_key(id),
        1 <= leader.next_index[id] <= leader.log.len(),
        before.wf(),
        logs_match(leader.log, before.log),
        logs_match(other, leader.log),
        logs_match(other, before.log),
        after.wf(),
        (after, reply) == before.on_append_entries(leader.append_request(id), true, true),
    ensures
        logs_match(other, after.log),
{
    if reply.success {
        lemma_replication_copies_leader_log(leader, id, before, after, reply);
    }
}

/// A command that a leader appends leaves its log matching any other, unless the other already has an
/// entry of the leader's term at that index, which only another leader of the term could have written.
pub proof fn lemma_command_keeps_logs_matching(
    leader: NodeState,
    command: Seq<u8>,
    other: Seq<Entry>,
)
    requires
        leader.wf(),
        leader.role == Role::Leader,
        logs_match(other, leader.log),
        leader.log.len() < other.len() ==> other[leader.log.len() as int].term
            != leader.current_term,
    ensures
        logs_match(other, leader.on_command(command, true).0.log),
{
    let log = leader.on_command(command, true).0.log;
    assert forall|i: int|
        0 <= i < other.len() && i < log.len() && (#[trigger] other[i]).term == (
        #[trigger] log[i]).term implies other.take(i + 1) == log.take(i + 1) by {
        assert(i < leader.log.len());
        assert(other[i].term == leader.log[i].term);
        assert(log.take(i + 1) =~= leader.log.take(i + 1));
    }
}

/// What a follower commits on a leader's word are entries of the leader: it never commits, and so
/// never applies, an entry of its own that the leader does not have.
pub proof fn lemma_follower_commits_leader_entries(
    leader: NodeState,
    id: NodeId,
    before: NodeState,
    after: NodeState,
    reply: AppendEntriesReply,
)
    requires
        leader.wf(),
        leader.next_index.contains_key(id),
        1 <= leader.next_index[id] <= leader.log.len(),
        before.wf(),
        after.wf(),
        logs_match(leader.log, before.log),
        (after, reply) == before.on_append_entries(leader.append_request(id), true, true),
        after.commit_index > before.commit_index,
    ensures
        after.commit_index <= leader.commit_index,
        after.log.take(after.commit_index + 1) == leader.log.take(after.commit_index + 1),
{
    lemma_replication_copies_leader_log(leader, id, before, after, reply);
    let kept = after.commit_index + 1;
    assert(leader.log =~= after.log.take(leader.log.len() as int));
    assert(after.log.take(kept) =~= leader.log.take(kept));
}

/// A reply answers a request that the leader itself built, when its log was as it is or shorter.
pub open spec fn answers_own_request(leader: NodeState, reply: AppendEntriesReply) -> bool {
    exists|sent: NodeState, id: NodeId, follower: NodeState, term: bool, entries: bool|
        {
            &&& sent.log.is_prefix_of(leader.log)
            &&& 1 <= sent.next_index[id] <= sent.log.len()
            &&& reply == (#[trigger] follower.on_append_entries(
                sent.append_request(id),
                term,
                entries,
            )).1
        }
}

/// What a leader is told of its own requests lies in its log.
pub proof fn lemma_own_requests_are_answered_within_the_log(
    leader: NodeState,
    reply: AppendEntriesReply,
)
    requires
        leader.wf(),
        answers_own_request(leader, reply),
    ensures
        reply.match_index < leader.log.len(),
{
    let (sent, id, follower, term, entries) = choose|
        sent: NodeState,
        id: NodeId,
        follower: NodeState,
        term: bool,
        entries: bool,
    |
        {
            &&& sent.log.is_prefix_of(leader.log)
            &&& 1 <= sent.next_index[id] <= sent.log.len()
            &&& reply == (#[trigger] follower.on_append_entries(
                sent.append_request(id),
                term,
                entries,
            )).1
        };
    assert(sent.log.len() <= leader.log.len());
}

/// A leader can build a request for every peer, and stays able to, as long as it is answered on its
/// own requests.
pub proof fn lemma_leader_stays_able_to_replicate<S: Storage>(
    before: Ruft<S>,
    event: Event,
    after: Ruft<S>,
    answer: Answer,
)
    requires
        before@.wf(),
        before@.admits(event),
        before.event_handled(event, &after, answer),
        before@.role == Role::Leader ==> before@.can_replicate(),
        event matches Event::AppendEntriesReply(reply) ==> answers_own_request(before@, reply),
    ensures
        after@.role == Role::Leader ==> after@.can_replicate(),
{
    if let Event::AppendEntriesReply(reply) = event {
        lemma_own_requests_are_answered_within_the_log(before@, reply);
    }
    if after@.role == Role::Leader {
        assert forall|id: NodeId| #[trigger] after@.next_index.contains_key(id) implies 1
            <= after@.next_index[id] <= after@.log.len() by {
            if before@.role != Role::Leader {
                assert(after@.next_index[id] == before@.log.len());
            } else if let Event::AppendEntriesReply(reply) = event {
                assert(reply.term == before@.current_term ==> before@.next_index.contains_key(
                    reply.node_id,
                ));
                assert(before@.next_index.contains_key(id));
            } else {
                assert(before@.next_index.contains_key(id));
            }
        }
    }
}

/// Every peer holds what the leader has noted of it; `logs` are the logs of the peers.
pub open spec fn noted_entries_held(leader: NodeState, logs: Map<NodeId, Seq<Entry>>) -> bool {
    forall|id: NodeId| #[trigger]
        leader.match_index.contains_key(id) ==> holds_up_to(
            leader,
            logs[id],
            leader.match_index[id] as int,
        )
}

/// `log` has the leader's entries up to `index`.
pub open spec fn holds_up_to(leader: NodeState, log: Seq<Entry>, index: int) -> bool {
    &&& 0 <= index < leader.log.len()
    &&& leader.log.take(index + 1).is_prefix_of(log)
}

/// A new leader has noted nothing but the sentinel, which every log starts with.
pub proof fn lemma_new_leader_has_noted_the_sentinel(
    candidate: NodeState,
    logs: Map<NodeId, Seq<Entry>>,
)
    requires
        candidate.wf(),
        candidate.role == Role::Candidate,
        forall|id: NodeId|
            candidate.is_peer(id) ==> (#[trigger] logs[id]).len() >= 1 && logs[id][0]
                == candidate.log[0],
    ensures
        noted_entries_held(candidate.promoted(), logs),
{
    let leader = candidate.promoted();
    assert forall|id: NodeId| #[trigger] leader.match_index.contains_key(id) implies holds_up_to(
        leader,
        logs[id],
        leader.match_index[id] as int,
    ) by {
        assert(candidate.is_peer(id));
        assert(leader.log.take(1) =~= logs[id].subrange(0, 1));
    }
}

/// What a leader has noted of its peers stays true, as long as a peer that reports an index holds the
/// leader's entries up to it, as every peer does whose log matches the leader's.
pub proof fn lemma_noted_entries_stay_held<S: Storage>(
    before: Ruft<S>,
    event: Event,
    after: Ruft<S>,
    answer: Answer,
    logs: Map<NodeId, Seq<Entry>>,
)
    requires
        before@.wf(),
        before@.admits(event),
        before.event_handled(event, &after, answer),
        before@.role == Role::Leader,
        after@.role == Role::Leader,
        noted_entries_held(before@, logs),
        event matches Event::AppendEntriesReply(reply) ==> reply.success ==> holds_up_to(
            before@,
            logs[reply.node_id],
            reply.match_index as int,
        ),
    ensures
        noted_entries_held(after@, logs),
{
    lemma_leader_only_appends(before, event, after, answer);
    assert forall|id: NodeId| #[trigger] after@.match_index.contains_key(id) implies holds_up_to(
        after@,
        logs[id],
        after@.match_index[id] as int,
    ) by {
        let index = after@.match_index[id] as int;
        if let Event::AppendEntriesReply(reply) = event {
            assert(reply.term == before@.current_term ==> before@.match_index.contains_key(
                reply.node_id,
            ));
        }
        assert(before@.match_index.contains_key(id));
        assert(holds_up_to(before@, logs[id], index));
        assert(after@.log.take(index + 1) =~= before@.log.take(index + 1));
    }
}

/// What a leader commits a majority holds: as many peers as make a majority with the leader have the
/// leader's log up to the commit index.
pub proof fn lemma_committed_entries_are_held_by_majority<S: Storage>(
    before: Ruft<S>,
    event: Event,
    after: Ruft<S>,
    answer: Answer,
    logs: Map<NodeId, Seq<Entry>>,
) -> (holders: Set<NodeId>)
    requires
        before@.wf(),
        before@.admits(event),
        before.event_handled(event, &after, answer),
        before@.role == Role::Leader,
        after@.role == Role::Leader,
        after@.commit_index != before@.commit_index,
        noted_entries_held(before@, logs),
        event matches Event::AppendEntriesReply(reply) ==> reply.success ==> holds_up_to(
            before@,
            logs[reply.node_id],
            reply.match_index as int,
        ),
    ensures
        1 + holders.len() >= after@.majority(),
        forall|id: NodeId| #[trigger]
            holders.contains(id) ==> after@.is_peer(id) && after@.log.take(
                after@.commit_index + 1,
            ).is_prefix_of(logs[id]),
{
    lemma_leader_commits_by_majority(before, event, after, answer);
    lemma_noted_entries_stay_held(before, event, after, answer, logs);
    let commit = after@.commit_index as int;
    let holders = after@.replicas(commit);
    assert forall|id: NodeId| #[trigger] holders.contains(id) implies after@.is_peer(id)
        && after@.log.take(commit + 1).is_prefix_of(logs[id]) by {
        assert(after@.match_index.contains_key(id));
        if let Event::AppendEntriesReply(reply) = event {
            assert(before@.match_index.contains_key(reply.node_id));
        }
        assert(before@.match_index.contains_key(id));
        let noted = after@.match_index[id] as int;
        assert(holds_up_to(after@, logs[id], noted));
        let held = after@.log.take(noted + 1);
        assert(after@.log.take(commit + 1) =~= held.take(commit + 1));
        assert(logs[id].subrange(0, commit + 1) =~= logs[id].subrange(0, noted + 1).take(
            commit + 1,
        ));
    }
    holders
}

/// After failures, a peer's next index steps back one at a time, to the first real entry and no
/// further; the request it then gets starts at the sentinel.
pub proof fn lemma_failed_reply_steps_back(leader: NodeState, reply: AppendEntriesReply)
    requires
        leader.wf(),
        leader.role == Role::Leader,
        reply.term == leader.current_term,
        !reply.success,
        leader.is_peer(reply.node_id),
        leader.next_index[reply.node_id] >= 1,
    ensures
        ({
            let after = leader.on_append_reply(reply, true);
            let next = leader.next_index[reply.node_id];
            &&& after.next_index[reply.node_id] == (if next > 1 {
                next - 1
            } else {
                1
            })
            &&& next <= 2 ==> after.append_request(reply.node_id).prev_log_index == 0
            &&& after.match_index == leader.match_index
            &&& after.commit_index == leader.commit_index
            &&& forall|id: NodeId|
                id != reply.node_id && #[trigger] leader.next_index.contains_key(id)
                    ==> after.next_index[id] == leader.next_index[id]
        }),
{
}

/// Any two majorities of the same members have a member in common.
pub proof fn lemma_majorities_intersect(
    members: Seq<NodeId>,
    a: Set<NodeId>,
    b: Set<NodeId>,
) -> (shared: NodeId)
    requires
        members.no_duplicates(),
        a.subset_of(members.to_set()),
        b.subset_of(members.to_set()),
        a.len() >= majority_of(members.len()),
        b.len() >= majority_of(members.len()),
    ensures
        a.contains(shared),
        b.contains(shared),
{
    members.unique_seq_to_set();
    let all = members.to_set();
    vstd::set_lib::lemma_len_subset(a, all);
    vstd::set_lib::lemma_len_subset(b, all);
    if a.disjoint(b) {
        vstd::set_lib::lemma_set_disjoint_lens(a, b);
        assert((a + b).subset_of(all));
        vstd::set_lib::lemma_len_subset(a + b, all);
        assert(false);
    }
    let shared = choose|id: NodeId| a.contains(id) && b.contains(id);
    assert(exists|id: NodeId| a.contains(id) && b.contains(id));
    shared
}

/// The `i`th state of a run became the next one by an event.
pub open spec fn one_event<S: Storage>(run: Seq<Ruft<S>>, i: int) -> bool {
    exists|event: Event, answer: Answer| #[trigger]
        run[i].event_handled(event, &run[i + 1], answer) && run[i]@.admits(event)
}

/// The states that a node goes through, one event after the other.
pub open spec fn is_run<S: Storage>(run: Seq<Ruft<S>>) -> bool {
    &&& forall|i: int| 0 <= i < run.len() ==> (#[trigger] run[i])@.wf()
    &&& forall|i: int| 0 <= i < run.len() - 1 ==> #[trigger] one_event(run, i)
}

/// Over any number of events terms only grow, and within a term a vote that was given stays given.
pub proof fn lemma_vote_lasts_for_the_term<S: Storage>(run: Seq<Ruft<S>>, i: int, j: int)
    requires
        is_run(run),
        0 <= i <= j < run.len(),
    ensures
        run[i]@.current_term <= run[j]@.current_term,
        run[i]@.current_term == run[j]@.current_term && run[i]@.voted_for is Some
            ==> run[j]@.voted_for == run[i]@.voted_for,
    decreases j - i,
{
    if i < j {
        lemma_vote_lasts_for_the_term(run, i, j - 1);
        let before = run[j - 1];
        let after = run[j];
        assert(one_event(run, j - 1));
        let (event, answer) = choose|event: Event, answer: Answer| #[trigger]
            before.event_handled(event, &after, answer) && before@.admits(event);
        lemma_term_never_decreases(before, event, after, answer);
        if after@.current_term == before@.current_term && before@.voted_for is Some {
            lemma_one_vote_per_term(before, event, after, answer);
        }
    }
}

/// In the course of a run a node had given its vote of a term to `candidate`.
pub open spec fn voted_for_in<S: Storage>(
    run: Seq<Ruft<S>>,
    term: u64,
    candidate: NodeId,
) -> bool {
    exists|i: int|
        0 <= i < run.len() && (#[trigger] run[i])@.current_term == term && run[i]@.voted_for
            == Some(candidate)
}

/// The members that gave their vote of a term to `candidate`.
pub open spec fn voters_for<S: Storage>(
    members: Seq<NodeId>,
    runs: Map<NodeId, Seq<Ruft<S>>>,
    term: u64,
    candidate: NodeId,
) -> Set<NodeId> {
    members.to_set().filter(|id: NodeId| voted_for_in(runs[id], term, candidate))
}

/// A node votes for one candidate at most in a term, whatever events it goes through.
pub proof fn lemma_one_candidate_per_term<S: Storage>(
    run: Seq<Ruft<S>>,
    term: u64,
    a: NodeId,
    b: NodeId,
)
    requires
        is_run(run),
        voted_for_in(run, term, a),
        voted_for_in(run, term, b),
    ensures
        a == b,
{
    let i = choose|i: int|
        0 <= i < run.len() && (#[trigger] run[i])@.current_term == term && run[i]@.voted_for
            == Some(a);
    let j = choose|j: int|
        0 <= j < run.len() && (#[trigger] run[j])@.current_term == term && run[j]@.voted_for
            == Some(b);
    if i <= j {
        lemma_vote_lasts_for_the_term(run, i, j);
    } else {
        lemma_vote_lasts_for_the_term(run, j, i);
    }
}

/// In a cluster at most one candidate gets a majority of the votes of a term, whatever events the
/// members go through, each at its own pace.
pub proof fn lemma_one_winner_per_term<S: Storage>(
    members: Seq<NodeId>,
    runs: Map<NodeId, Seq<Ruft<S>>>,
    term: u64,
    a: NodeId,
    b: NodeId,
)
    requires
        members.no_duplicates(),
        forall|id: NodeId| members.contains(id) ==> is_run(#[trigger] runs[id]),
        voters_for(members, runs, term, a).len() >= majority_of(members.len()),
        voters_for(members, runs, term, b).len() >= majority_of(members.len()),
    ensures
        a == b,
{
    let shared = lemma_majorities_intersect(
        members,
        voters_for(members, runs, term, a),
        voters_for(members, runs, term, b),
    );
    assert(members.contains(shared));
    lemma_one_candidate_per_term(runs[shared], term, a, b);
}

/// Whoever leads a term that is not stale is followed, by candidates and by leaders too, and puts the
/// next election off.
pub proof fn lemma_current_leader_is_followed<S: Storage>(
    before: Ruft<S>,
    args: AppendEntriesArgs,
    after: Ruft<S>,
    answer: Answer,
)
    requires
        before@.wf(),
        before.event_persisted(Event::AppendEntries(args), &after, answer),
        args.term >= before@.current_term,
    ensures
        after@.role == Role::Follower,
        after@.current_term == args.term,
        after@.outbox.timer_reset,
{
}

/// A heartbeat tick is nothing to anybody but a leader, and changes nothing but a leader's outbox.
pub proof fn lemma_heartbeat_only_sends<S: Storage>(
    before: Ruft<S>,
    after: Ruft<S>,
    answer: Answer,
)
    requires
        before@.wf(),
        before@.admits(Event::Heartbeat),
        before.event_handled(Event::Heartbeat, &after, answer),
    ensures
        before@.role != Role::Leader ==> after@ == before@,
        (NodeState { outbox: before@.outbox, ..after@ }) == before@,
        after.storage.state() == before.storage.state(),
{
}

/// A candidate that asks again in the same term gets the same answer.
pub proof fn lemma_vote_can_be_asked_for_again(
    before: NodeState,
    args: RequestVoteArgs,
    after: NodeState,
    reply: RequestVoteReply,
)
    requires
        before.wf(),
        (after, reply) == before.on_request_vote(args, true, true),
    ensures
        after.on_request_vote(args, true, true) == (after, reply),
{
}

/// An AppendEntries that arrives twice does no more than one that arrives once.
pub proof fn lemma_redelivery_changes_nothing(
    before: NodeState,
    args: AppendEntriesView,
    after: NodeState,
    reply: AppendEntriesReply,
)
    requires
        before.wf(),
        after.wf(),
        (after, reply) == before.on_append_entries(args, true, true),
    ensures
        after.on_append_entries(args, true, true) == (after, reply),
{
    if reply.success {
        lemma_acknowledged_entries_are_in_place(before, args, after, reply);
        let first_new = args.prev_log_index + 1;
        lemma_first_conflict(after.log, first_new, args.entries, 0);
        let k = takeover(after.log, args);
        if k < args.entries.len() {
            assert(after.log[first_new + k].term == args.entries[k].term);
        }
        let again = after.on_append_entries(args, true, true).0;
        assert(again =~= after);
    }
}

/// A candidate passes on a majority of its own term only.
pub proof fn lemma_only_a_win_of_the_term_is_passed_on<S: Storage>(
    before: Ruft<S>,
    success: bool,
    term: u64,
    after: Ruft<S>,
    answer: Answer,
)
    requires
        before@.wf(),
        before.event_handled(Event::VoteResult(success, term), &after, answer),
        after@.outbox.events == before@.outbox.events.push(Event::ReceiveEnoughVotes),
    ensures
        success,
        term == before@.current_term,
        before@.role == Role::Candidate,
{
    let queue = before@.outbox.events;
    let other = queue.push(Event::ShouldBeFollower(term));
    assert(other.last() == Event::ShouldBeFollower(term));
    assert(queue.push(Event::ReceiveEnoughVotes).last() == Event::ReceiveEnoughVotes);
    assert(queue.push(Event::ReceiveEnoughVotes).len() != queue.len());
}

/// A node leads a term with the majority of that term: it takes the lead on a majority that it was
/// handed and passed on to itself, and that majority is of the term that it leads, unless it went on
/// to another term in between.
pub proof fn lemma_leader_has_the_majority_of_its_term<S: Storage>(
    candidate: Ruft<S>,
    success: bool,
    term: u64,
    told: Ruft<S>,
    later: Ruft<S>,
    leader: Ruft<S>,
    answers: (Answer, Answer),
)
    requires
        candidate@.wf(),
        later@.wf(),
        candidate.event_handled(Event::VoteResult(success, term), &told, answers.0),
        told@.outbox.events == candidate@.outbox.events.push(Event::ReceiveEnoughVotes),
        later@.current_term == told@.current_term,
        later.event_handled(Event::ReceiveEnoughVotes, &leader, answers.1),
        leader@.role == Role::Leader,
    ensures
        success,
        leader@.current_term == term,
{
    lemma_only_a_win_of_the_term_is_passed_on(candidate, success, term, told, answers.0);
}

} // verus!
