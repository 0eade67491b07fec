//! What every event does, said of what a node holds before and after it.
//!
//! Each law names the fields that it speaks of, and leaves nothing to the functions by which a node is
//! modelled.
use crate::events::event::Event;
use crate::result::AppendResult;
use crate::rpc::append_entries::{AppendEntriesArgs, AppendEntriesReply, AppendEntriesView};
use crate::rpc::install_snapshot::InstallSnapshotReply;
use crate::rpc::request_vote::RequestVoteArgs;
use crate::ruft::laws::lemma_first_conflict;
use crate::ruft::model::{
    empty_outbox, majority_of, merged, restored, takeover, ApplyView, Election, NodeState,
    OutboxView,
};
use crate::ruft::node::{Answer, Outbox, Ruft};
use crate::ruft::role::Role;
use crate::storage::{HardState, SavedState, Storage};
use crate::utilis::types::{Entry, NodeId};
use vstd::prelude::*;

verus! {

/// A vote goes to a candidate whose term is not stale, whose last entry is of a later term or of the
/// same term and no earlier index, and who has no rival that got the vote of the term. Where storage
/// works, every such candidate gets it; no other candidate ever does.
pub proof fn lemma_vote_request<S: Storage>(
    before: Ruft<S>,
    args: RequestVoteArgs,
    after: Ruft<S>,
    answer: Answer,
)
    requires
        before@.wf(),
        before.event_handled(Event::RequestVote(args), &after, answer),
    ensures
        answer matches Answer::RequestVote(reply) && {
            let deserved = {
                &&& args.term >= before@.current_term
                &&& args.last_log_term > before@.log[before@.log.len() - 1].term || (
                args.last_log_term == before@.log[before@.log.len() - 1].term
                    && args.last_log_index >= before@.log.len() - 1)
                &&& args.term > before@.current_term || before@.voted_for is None
                    || before@.voted_for == Some(args.candidate_id)
            };
            &&& reply.vote_granted ==> deserved
            &&& before.event_persisted(Event::RequestVote(args), &after, answer) ==> (deserved
                <==> reply.vote_granted)
            &&& before.event_persisted(Event::RequestVote(args), &after, answer) ==> reply.term == (
            if args.term > before@.current_term {
                args.term
            } else {
                before@.current_term
            })
            &&& reply.term == after@.current_term
            &&& after@.current_term == before@.current_term || after@.current_term == args.term
            &&& reply.vote_granted ==> after@.current_term == args.term && after@.voted_for == Some(
                args.candidate_id,
            )
            &&& !reply.vote_granted ==> after@.voted_for == (if after@.current_term
                > before@.current_term {
                None
            } else {
                before@.voted_for
            })
            &&& after@.role == (if after@.current_term > before@.current_term {
                Role::Follower
            } else {
                before@.role
            })
            &&& after@.outbox.timer_reset == (before@.outbox.timer_reset || reply.vote_granted)
        },
        after@.current_term >= before@.current_term,
        after@ == (NodeState {
            current_term: after@.current_term,
            voted_for: after@.voted_for,
            role: after@.role,
            outbox: OutboxView { timer_reset: after@.outbox.timer_reset, ..before@.outbox },
            ..before@
        }),
        before.event_persisted(Event::RequestVote(args), &after, answer)
            && before@.synced_with(before.storage.state()) ==> after.storage.state() == (
        SavedState {
            hard_state: HardState {
                current_term: after@.current_term,
                voted_for: after@.voted_for,
            },
            ..before.storage.state()
        }),
{
}

/// A node that stands for election asks with its next term, its own id and the index and the term of
/// its own last entry, and needs more than half of the members.
pub proof fn lemma_election_timeout<S: Storage>(
    before: Ruft<S>,
    after: Ruft<S>,
    answer: Answer,
)
    requires
        before@.wf(),
        before@.admits(Event::ElectionTimeout),
        before.event_handled(Event::ElectionTimeout, &after, answer),
    ensures
        answer == Answer::Silent,
        before@.role == Role::Leader ==> after@ == before@ && after.storage.state()
            == before.storage.state(),
        before@.role != Role::Leader && before.event_persisted(
            Event::ElectionTimeout,
            &after,
            answer,
        ) ==> {
            let call = after@.outbox.elections[before@.outbox.elections.len() as int];
            &&& after@.outbox.elections.len() == before@.outbox.elections.len() + 1
            &&& after@.outbox.elections.take(before@.outbox.elections.len() as int)
                == before@.outbox.elections
            &&& call.args.term == before@.current_term + 1
            &&& call.args.candidate_id == before@.node_id
            &&& call.args.last_log_index == before@.log.len() - 1
            &&& call.args.last_log_term == before@.log[before@.log.len() - 1].term
            &&& call.majority == before@.members.len() / 2 + 1
            &&& after@ == (NodeState {
                role: Role::Candidate,
                current_term: (before@.current_term + 1) as u64,
                voted_for: Some(before@.node_id),
                outbox: OutboxView {
                    elections: after@.outbox.elections,
                    timer_reset: true,
                    ..before@.outbox
                },
                ..before@
            })
            &&& after.storage.state() == (SavedState {
                hard_state: HardState {
                    current_term: after@.current_term,
                    voted_for: after@.voted_for,
                },
                ..before.storage.state()
            })
        },
        before@.role != Role::Leader && !before.event_persisted(
            Event::ElectionTimeout,
            &after,
            answer,
        ) ==> after@ == (NodeState {
            outbox: OutboxView { timer_reset: true, ..before@.outbox },
            ..before@
        }),
{
    if before@.role != Role::Leader && before.event_persisted(
        Event::ElectionTimeout,
        &after,
        answer,
    ) {
        assert(before@.members.len() == before.members.len());
        assert(after@.outbox.elections.take(before@.outbox.elections.len() as int)
            =~= before@.outbox.elections);
    }
}

/// No event but an election timeout of a node that does not lead calls an election.
pub proof fn lemma_nothing_else_calls_an_election<S: Storage>(
    before: Ruft<S>,
    event: Event,
    after: Ruft<S>,
    answer: Answer,
)
    requires
        before@.wf(),
        before@.admits(event),
        before.event_handled(event, &after, answer),
        after@.outbox.elections != before@.outbox.elections,
    ensures
        event is ElectionTimeout,
        before@.role != Role::Leader,
{
}

/// A vote is never given to a candidate that has less than the voter: where a node stood for election
/// and a peer grants the vote that was asked for, the peer's last entry is not of a later term, and
/// where the terms are the same its log is not longer.
pub proof fn lemma_vote_goes_to_no_lesser_log<S: Storage>(
    candidate: Ruft<S>,
    stood: Ruft<S>,
    election: Election,
    voter: Ruft<S>,
    voted: Ruft<S>,
    answers: (Answer, Answer),
)
    requires
        candidate@.wf(),
        voter@.wf(),
        candidate@.admits(Event::ElectionTimeout),
        candidate.event_handled(Event::ElectionTimeout, &stood, answers.0),
        stood@.outbox.elections == candidate@.outbox.elections.push(election),
        voter.event_handled(Event::RequestVote(election.args), &voted, answers.1),
        answers.1 matches Answer::RequestVote(reply) && reply.vote_granted,
    ensures
        candidate@.log[candidate@.log.len() - 1].term >= voter@.log[voter@.log.len() - 1].term,
        candidate@.log[candidate@.log.len() - 1].term == voter@.log[voter@.log.len() - 1].term
            ==> candidate@.log.len() >= voter@.log.len(),
        voted@.voted_for == Some(candidate@.node_id),
        voted@.current_term == candidate@.current_term + 1,
{
    lemma_election_timeout(candidate, stood, answers.0);
    lemma_vote_request(voter, election.args, voted, answers.1);
    let calls = candidate@.outbox.elections;
    assert(calls.push(election)[calls.len() as int] == election);
    assert(calls.push(election).len() == calls.len() + 1);
}

/// What an AppendEntries is answered, and what it makes of the term, the role and the timer.
pub proof fn lemma_append_entries_reply<S: Storage>(
    before: Ruft<S>,
    args: AppendEntriesArgs,
    after: Ruft<S>,
    answer: Answer,
)
    requires
        before@.wf(),
        after@.wf(),
        before.event_handled(Event::AppendEntries(args), &after, answer),
    ensures
        answer matches Answer::AppendEntries(reply) && {
            let matches = {
                &&& args.term >= before@.current_term
                &&& args.prev_log_index < before@.log.len()
                &&& before@.log[args.prev_log_index as int].term == args.prev_log_term
            };
            &&& reply.success ==> matches
            &&& before.event_persisted(Event::AppendEntries(args), &after, answer) ==> (matches
                <==> reply.success)
            &&& reply.node_id == before@.node_id
            &&& reply.term == after@.current_term
            &&& reply.success ==> reply.match_index == args.prev_log_index + args.entries@.len()
            &&& !reply.success ==> reply.match_index == 0
            &&& !reply.success ==> after@.log == before@.log && after@.commit_index
                == before@.commit_index && after@.last_applied == before@.last_applied
                && after@.outbox.applied == before@.outbox.applied
        },
        after@.current_term == before@.current_term || after@.current_term == args.term,
        before.event_persisted(Event::AppendEntries(args), &after, answer) ==> after@.current_term
            == (if args.term > before@.current_term {
            args.term
        } else {
            before@.current_term
        }),
        after@.current_term >= before@.current_term,
        after@.voted_for == (if after@.current_term > before@.current_term {
            None
        } else {
            before@.voted_for
        }),
        after@.current_term != args.term ==> after@ == before@,
        after@.current_term == args.term ==> after@.role == Role::Follower
            && after@.outbox.timer_reset,
        after@ == (NodeState {
            current_term: after@.current_term,
            voted_for: after@.voted_for,
            role: after@.role,
            log: after@.log,
            commit_index: after@.commit_index,
            last_applied: after@.last_applied,
            outbox: OutboxView {
                applied: after@.outbox.applied,
                timer_reset: after@.outbox.timer_reset,
                ..before@.outbox
            },
            ..before@
        }),
{
    if args.prev_log_index < before@.log.len() {
        lemma_first_conflict(before@.log, args.prev_log_index + 1, args@.entries, 0);
        assert(args@.entries.len() == args.entries@.len());
    }
}

/// The first `n` new entries are in the log already, by their terms.
pub open spec fn present(log: Seq<Entry>, prev: int, entries: Seq<Entry>, n: int) -> bool {
    forall|i: int|
        0 <= i < n ==> prev + 1 + i < log.len() && (#[trigger] entries[i]).term == log[prev + 1
            + i].term
}

/// What an acknowledged AppendEntries makes of the log: it is left alone where every new entry is
/// there by its term; else everything before the first one that is not stays, and what follows is what
/// the leader sent.
pub proof fn lemma_acknowledged_log<S: Storage>(
    before: Ruft<S>,
    args: AppendEntriesArgs,
    after: Ruft<S>,
    reply: AppendEntriesReply,
)
    requires
        before@.wf(),
        after@.wf(),
        before.event_handled(
            Event::AppendEntries(args),
            &after,
            Answer::AppendEntries(reply),
        ),
        reply.success,
    ensures
        ({
            let prev = args.prev_log_index as int;
            let sent = args@.entries;
            &&& present(before@.log, prev, sent, sent.len() as int) ==> after@.log == before@.log
            &&& forall|k: int|
                0 <= k < sent.len() && #[trigger] present(before@.log, prev, sent, k) && (prev + 1
                    + k >= before@.log.len() || before@.log[prev + 1 + k].term != sent[k].term)
                    ==> {
                    &&& prev + 1 + k <= before@.log.len()
                    &&& after@.log.len() == prev + 1 + sent.len()
                    &&& forall|i: int| 0 <= i < prev + 1 + k ==> after@.log[i] == before@.log[i]
                    &&& forall|i: int| k <= i < sent.len() ==> after@.log[prev + 1 + i] == sent[i]
                }
            &&& forall|i: int| 0 <= i < sent.len() ==> (#[trigger] after@.log[prev + 1 + i]).term
                == sent[i].term
            &&& after@.log.len() > prev + sent.len()
        }),
        before@.synced_with(before.storage.state()) ==> after@.synced_with(after.storage.state()),
        after.storage.state().snapshot == before.storage.state().snapshot,
{
    let prev = args.prev_log_index as int;
    let sent = args@.entries;
    lemma_first_conflict(before@.log, prev + 1, sent, 0);
    let k0 = takeover(before@.log, args@);
    assert(after@.log == merged(before@.log, args@));
    if present(before@.log, prev, sent, sent.len() as int) && k0 < sent.len() {
        assert(sent[k0].term == before@.log[prev + 1 + k0].term);
    }
    assert forall|k: int|
        0 <= k < sent.len() && #[trigger] present(before@.log, prev, sent, k) && (prev + 1 + k
            >= before@.log.len() || before@.log[prev + 1 + k].term != sent[k].term) implies {
        &&& prev + 1 + k <= before@.log.len()
        &&& after@.log.len() == prev + 1 + sent.len()
        &&& forall|i: int| 0 <= i < prev + 1 + k ==> after@.log[i] == before@.log[i]
        &&& forall|i: int| k <= i < sent.len() ==> after@.log[prev + 1 + i] == sent[i]
    } by {
        if k0 < k {
            assert(sent[k0].term == before@.log[prev + 1 + k0].term);
        }
        if k < k0 {
            assert(before@.log[prev + 1 + k].term == sent[k].term);
        }
        assert(k == k0);
        assert forall|i: int| k <= i < sent.len() implies after@.log[prev + 1 + i] == sent[i] by {
            assert(sent.skip(k)[i - k] == sent[i]);
        }
    }
    assert forall|i: int| 0 <= i < sent.len() implies (#[trigger] after@.log[prev + 1 + i]).term
        == sent[i].term by {
        if i < k0 {
            assert(before@.log[prev + 1 + i].term == sent[i].term);
        } else {
            assert(sent.skip(k0)[i - k0] == sent[i]);
        }
    }
}

/// What an acknowledged AppendEntries commits: everything that the leader has committed and the log
/// holds, whatever the terms of the entries, and at once it is all handed to the state machine.
pub proof fn lemma_acknowledged_commit<S: Storage>(
    before: Ruft<S>,
    args: AppendEntriesArgs,
    after: Ruft<S>,
    reply: AppendEntriesReply,
)
    requires
        before@.wf(),
        after@.wf(),
        before.event_handled(
            Event::AppendEntries(args),
            &after,
            Answer::AppendEntries(reply),
        ),
        reply.success,
    ensures
        after@.commit_index < after@.log.len(),
        args.leader_commit < after@.log.len() ==> after@.commit_index >= args.leader_commit,
        args.leader_commit >= after@.log.len() ==> after@.commit_index == after@.log.len() - 1,
        before@.commit_index < after@.log.len() ==> after@.commit_index >= before@.commit_index,
        before@.commit_index >= after@.log.len() ==> after@.commit_index == after@.log.len() - 1,
        after@.commit_index <= args.leader_commit || after@.commit_index <= before@.commit_index,
        after@.last_applied == (if after@.commit_index > before@.last_applied {
            after@.commit_index
        } else {
            before@.last_applied
        }),
        handed_over(before@, after@),
{
    lemma_handed_over(before@, after@);
}

/// What was handed to the state machine between two states: one command for every index that
/// `last_applied` passed, in order, with its index and the command that the log has there.
pub open spec fn handed_over(before: NodeState, after: NodeState) -> bool {
    let old_queue = before.outbox.applied;
    let queue = after.outbox.applied;
    &&& after.last_applied >= before.last_applied
    &&& queue.len() == old_queue.len() + (after.last_applied - before.last_applied)
    &&& forall|i: int| 0 <= i < old_queue.len() ==> queue[i] == old_queue[i]
    &&& forall|index: int|
        before.last_applied < index <= after.last_applied ==> {
            let at = old_queue.len() + (index - before.last_applied - 1);
            &&& queue[at].index == index
            &&& queue[at].data == (#[trigger] after.log[index]).command
        }
}

proof fn lemma_handed_over(before: NodeState, after: NodeState)
    requires
        after.last_applied >= before.last_applied,
        after.outbox.applied == before.outbox.applied + after.commands(
            before.last_applied + 1,
            after.last_applied as int,
        ) || (after.last_applied == before.last_applied && after.outbox.applied
            == before.outbox.applied),
    ensures
        handed_over(before, after),
{
    let queue = after.outbox.applied;
    let old_queue = before.outbox.applied;
    assert forall|index: int| before.last_applied < index <= after.last_applied implies {
        let at = old_queue.len() + (index - before.last_applied - 1);
        &&& queue[at].index == index
        &&& queue[at].data == (#[trigger] after.log[index]).command
    } by {
        let k = index - before.last_applied - 1;
        assert(queue[old_queue.len() + k] == after.commands(
            before.last_applied + 1,
            after.last_applied as int,
        )[k]);
    }
}

/// Whatever the event, what it hands to the state machine are the commands of the log that follow the
/// last one handed over.
pub proof fn lemma_commands_are_handed_over<S: Storage>(
    before: Ruft<S>,
    event: Event,
    after: Ruft<S>,
    answer: Answer,
)
    requires
        before@.wf(),
        after@.wf(),
        before@.admits(event),
        before.event_handled(event, &after, answer),
    ensures
        handed_over(before@, after@),
        after@.last_applied >= after@.commit_index,
        after@.last_applied > before@.last_applied ==> after@.last_applied == after@.commit_index,
{
    crate::ruft::laws::lemma_applied_in_log_order(before, event, after, answer);
    lemma_handed_over(before@, after@);
}

/// The request for one peer: of this term and from this node, everything from the peer's next index
/// on, the index and the term of the entry before that, and how far is committed.
pub open spec fn is_request_for(
    leader: NodeState,
    id: NodeId,
    request: AppendEntriesView,
) -> bool {
    let next = leader.next_index[id] as int;
    &&& request.term == leader.current_term
    &&& request.leader_id == leader.node_id
    &&& request.prev_log_index == next - 1
    &&& request.prev_log_term == leader.log[next - 1].term
    &&& request.leader_commit == leader.commit_index
    &&& request.entries.len() == leader.log.len() - next
    &&& forall|i: int|
        0 <= i < request.entries.len() ==> #[trigger] request.entries[i] == leader.log[next + i]
}

/// Between two states of a node, one request for every member but itself was added to what goes out,
/// in the order of the members, each made from the later state.
pub open spec fn all_peers_called(before: NodeState, after: NodeState) -> bool {
    let old_calls = before.outbox.append_requests;
    let calls = after.outbox.append_requests;
    let added = calls.skip(old_calls.len() as int);
    &&& calls.len() >= old_calls.len()
    &&& calls.take(old_calls.len() as int) == old_calls
    &&& forall|id: NodeId|
        after.members.contains(id) && id != after.node_id ==> exists|i: int|
            0 <= i < added.len() && (#[trigger] added[i]).0 == id
    &&& forall|i: int|
        0 <= i < added.len() ==> after.members.contains((#[trigger] added[i]).0) && added[i].0
            != after.node_id && is_request_for(after, added[i].0, added[i].1)
    &&& added.map_values(|call: (NodeId, AppendEntriesView)| call.0) == after.members.filter(
        |id: NodeId| id != after.node_id,
    )
}

proof fn lemma_requests_of_members(node: NodeState, n: nat)
    requires
        node.wf(),
        node.can_replicate(),
        n <= node.members.len(),
    ensures
        ({
            let calls = node.append_requests(n);
            let some = node.members.take(n as int);
            &&& forall|id: NodeId|
                some.contains(id) && id != node.node_id ==> exists|i: int|
                    0 <= i < calls.len() && (#[trigger] calls[i]).0 == id
            &&& forall|i: int|
                0 <= i < calls.len() ==> some.contains((#[trigger] calls[i]).0) && calls[i].0
                    != node.node_id && is_request_for(node, calls[i].0, calls[i].1)
            &&& calls.map_values(|call: (NodeId, AppendEntriesView)| call.0) == some.filter(
                |id: NodeId| id != node.node_id,
            )
        }),
    decreases n,
{
    reveal(Seq::filter);
    let calls = node.append_requests(n);
    let some = node.members.take(n as int);
    let target = |call: (NodeId, AppendEntriesView)| call.0;
    if n == 0 {
        assert(calls.map_values(target) =~= Seq::empty());
    } else {
        let m = (n - 1) as nat;
        let fewer = node.append_requests(m);
        let id = node.members[n - 1];
        lemma_requests_of_members(node, m);
        assert(some.drop_last() =~= node.members.take(m as int));
        assert(some =~= node.members.take(m as int).push(id));
        assert(some.last() == id);
        assert(node.members.contains(id));
        if id != node.node_id {
            assert(node.is_peer(id));
            assert(node.next_index.contains_key(id));
            assert(is_request_for(node, id, node.append_request(id)));
            assert(calls[fewer.len() as int] == (id, node.append_request(id)));
            assert(calls.map_values(target) =~= fewer.map_values(target).push(id));
        }
        assert forall|other: NodeId| some.contains(other) && other != node.node_id implies exists|
            i: int,
        |
            0 <= i < calls.len() && (#[trigger] calls[i]).0 == other by {
            crate::utilis::collections::lemma_push_contains(
                node.members.take(m as int),
                id,
                other,
            );
            if other != id {
                let i = choose|i: int| 0 <= i < fewer.len() && (#[trigger] fewer[i]).0 == other;
                assert(calls[i] == fewer[i]);
            }
        }
        assert forall|i: int| 0 <= i < calls.len() implies some.contains((#[trigger] calls[i]).0)
            && calls[i].0 != node.node_id && is_request_for(node, calls[i].0, calls[i].1) by {
            if i < fewer.len() {
                assert(calls[i] == fewer[i]);
            }
            crate::utilis::collections::lemma_push_contains(
                node.members.take(m as int),
                id,
                calls[i].0,
            );
        }
    }
}

proof fn lemma_broadcast_calls_all(before: NodeState, ready: NodeState, after: NodeState)
    requires
        ready.wf(),
        ready.role == Role::Leader,
        ready.can_replicate(),
        ready.outbox.append_requests == before.outbox.append_requests,
        after == ready.broadcasted(),
    ensures
        all_peers_called(before, after),
{
    let old_calls = before.outbox.append_requests;
    let calls = after.outbox.append_requests;
    let n = ready.members.len();
    lemma_requests_of_members(ready, n);
    assert(ready.members.take(n as int) =~= ready.members);
    assert(calls.take(old_calls.len() as int) =~= old_calls);
    assert(calls.skip(old_calls.len() as int) =~= ready.append_requests(n));
    let added = calls.skip(old_calls.len() as int);
    assert forall|i: int| 0 <= i < added.len() implies is_request_for(
        after,
        (#[trigger] added[i]).0,
        added[i].1,
    ) by {
        assert(is_request_for(ready, added[i].0, added[i].1));
    }
}

/// On a heartbeat tick a leader sends every member but itself a request, and does nothing else; nobody
/// else does anything.
pub proof fn lemma_heartbeat<S: Storage>(before: Ruft<S>, after: Ruft<S>, answer: Answer)
    requires
        before@.wf(),
        before@.admits(Event::Heartbeat),
        before.event_handled(Event::Heartbeat, &after, answer),
    ensures
        answer == Answer::Silent,
        after.storage.state() == before.storage.state(),
        before@.role != Role::Leader ==> after@ == before@,
        before@.role == Role::Leader ==> all_peers_called(before@, after@),
        after@ == (NodeState {
            outbox: OutboxView {
                append_requests: after@.outbox.append_requests,
                ..before@.outbox
            },
            ..before@
        }),
{
    if before@.role == Role::Leader {
        lemma_broadcast_calls_all(before@, before@, after@);
    }
}

/// A leader that takes a command has it as the last entry of its log, with its own term, tells the
/// client where that is, and sends it to every other member at once. Storage gets the same entry.
pub proof fn lemma_command<S: Storage>(
    before: Ruft<S>,
    command: Vec<u8>,
    after: Ruft<S>,
    answer: Answer,
)
    requires
        before@.wf(),
        after@.wf(),
        before@.admits(Event::NewLogEntries(command)),
        before.event_handled(Event::NewLogEntries(command), &after, answer),
    ensures
        before@.role != Role::Leader ==> answer == Answer::Command(AppendResult::NotLeader)
            && after@ == before@ && after.storage.state() == before.storage.state(),
        before@.role == Role::Leader && !before.event_persisted(
            Event::NewLogEntries(command),
            &after,
            answer,
        ) ==> answer == Answer::Command(AppendResult::PersistentError) && after@ == before@,
        before@.role == Role::Leader && before.event_persisted(
            Event::NewLogEntries(command),
            &after,
            answer,
        ) ==> {
            let last = after@.log.len() - 1;
            &&& answer matches Answer::Command(result)
            &&& result matches AppendResult::Accepted { index, term }
            &&& index == last
            &&& term == before@.current_term
            &&& last == before@.log.len()
            &&& after@.log[last].term == before@.current_term
            &&& after@.log[last].command == command@
            &&& after@.log.take(last) == before@.log
            &&& all_peers_called(before@, after@)
            &&& after@ == (NodeState {
                log: after@.log,
                outbox: OutboxView {
                    append_requests: after@.outbox.append_requests,
                    ..before@.outbox
                },
                ..before@
            })
            &&& after.storage.state().log == before.storage.state().log.push(after@.log[last])
            &&& after.storage.state() == (SavedState {
                log: after.storage.state().log,
                ..before.storage.state()
            })
        },
{
    if before@.role == Role::Leader && before.event_persisted(
        Event::NewLogEntries(command),
        &after,
        answer,
    ) {
        let entry = Entry { term: before@.current_term, command: command@ };
        let grown = NodeState { log: before@.log.push(entry), ..before@ };
        assert(after@ == grown.broadcasted());
        assert(after@.log.take(after@.log.len() - 1) =~= before@.log);
        lemma_broadcast_calls_all(before@, grown, after@);
    }
}

/// A candidate that has its majority leads, takes every other member to have its whole log, knows of
/// nothing replicated yet, and calls on all of them at once. Nobody else is moved.
pub proof fn lemma_taking_the_lead<S: Storage>(before: Ruft<S>, after: Ruft<S>, answer: Answer)
    requires
        before@.wf(),
        after@.wf(),
        before.event_handled(Event::ReceiveEnoughVotes, &after, answer),
    ensures
        answer == Answer::Silent,
        after.storage.state() == before.storage.state(),
        before@.role != Role::Candidate ==> after@ == before@,
        before@.role == Role::Candidate ==> {
            &&& after@.role == Role::Leader
            &&& forall|id: NodeId|
                before@.members.contains(id) && id != before@.node_id
                    <==> #[trigger] after@.next_index.contains_key(id)
            &&& forall|id: NodeId| #[trigger]
                after@.next_index.contains_key(id) ==> after@.next_index[id] == before@.log.len()
            &&& forall|id: NodeId|
                before@.members.contains(id) && id != before@.node_id
                    <==> #[trigger] after@.match_index.contains_key(id)
            &&& forall|id: NodeId| #[trigger]
                after@.match_index.contains_key(id) ==> after@.match_index[id] == 0
            &&& all_peers_called(before@, after@)
            &&& after@ == (NodeState {
                role: Role::Leader,
                next_index: after@.next_index,
                match_index: after@.match_index,
                outbox: OutboxView {
                    append_requests: after@.outbox.append_requests,
                    ..before@.outbox
                },
                ..before@
            })
        },
{
    if before@.role == Role::Candidate {
        let ready = NodeState {
            role: Role::Leader,
            next_index: after@.next_index,
            match_index: after@.match_index,
            ..before@
        };
        assert(after@ == ready.broadcasted());
        lemma_broadcast_calls_all(before@, ready, after@);
    }
}

/// The result of a round of votes moves only a candidate: a majority of its present term is passed on
/// as such, a failure as the term to follow in.
pub proof fn lemma_vote_result<S: Storage>(
    before: Ruft<S>,
    success: bool,
    term: u64,
    after: Ruft<S>,
    answer: Answer,
)
    requires
        before@.wf(),
        before.event_handled(Event::VoteResult(success, term), &after, answer),
    ensures
        answer == Answer::Silent,
        after.storage.state() == before.storage.state(),
        before@.role != Role::Candidate ==> after@ == before@,
        success && term != before@.current_term ==> after@ == before@,
        before@.role == Role::Candidate && success && term == before@.current_term
            ==> after@.outbox.events == before@.outbox.events.push(Event::ReceiveEnoughVotes),
        before@.role == Role::Candidate && !success ==> after@.outbox.events
            == before@.outbox.events.push(Event::ShouldBeFollower(term)),
        after@ == (NodeState {
            outbox: OutboxView { events: after@.outbox.events, ..before@.outbox },
            ..before@
        }),
{
}

/// A node that is told to follow does, and takes over a newer term with its vote free; nothing else
/// changes.
pub proof fn lemma_stepping_down<S: Storage>(
    before: Ruft<S>,
    term: u64,
    after: Ruft<S>,
    answer: Answer,
)
    requires
        before@.wf(),
        before.event_persisted(Event::ShouldBeFollower(term), &after, answer),
    ensures
        answer == Answer::Silent,
        after@.role == Role::Follower,
        term > before@.current_term ==> after@.current_term == term && after@.voted_for is None,
        term <= before@.current_term ==> after@.current_term == before@.current_term
            && after@.voted_for == before@.voted_for && after.storage.state()
            == before.storage.state(),
        after@ == (NodeState {
            role: Role::Follower,
            current_term: after@.current_term,
            voted_for: after@.voted_for,
            ..before@
        }),
        term > before@.current_term ==> after.storage.state() == (SavedState {
            hard_state: HardState { current_term: term, voted_for: None },
            ..before.storage.state()
        }),
{
}

/// How many peers are known to hold `index`.
pub open spec fn peers_holding(match_index: Map<NodeId, u64>, index: int) -> nat {
    match_index.dom().filter(|id: NodeId| match_index[id] >= index).len()
}

/// What a leader makes of a follower's answer of its own term: after a success the follower is known to
/// hold what it reported, and everything of the leader's term that more than half of the members hold,
/// the leader included, is committed, with all that comes before it, and nothing else is; after a
/// failure the follower's next index goes back by one, to the first real entry at most.
pub proof fn lemma_replication_reply<S: Storage>(
    before: Ruft<S>,
    reply: AppendEntriesReply,
    after: Ruft<S>,
    answer: Answer,
)
    requires
        before@.wf(),
        after@.wf(),
        before@.admits(Event::AppendEntriesReply(reply)),
        before.event_handled(Event::AppendEntriesReply(reply), &after, answer),
        before@.role == Role::Leader,
        reply.term == before@.current_term,
    ensures
        answer == Answer::Silent,
        after.storage.state() == before.storage.state(),
        reply.success ==> {
            &&& after@.match_index == before@.match_index.insert(reply.node_id, reply.match_index)
            &&& after@.next_index == before@.next_index.insert(
                reply.node_id,
                (reply.match_index + 1) as u64,
            )
            &&& after@.commit_index >= before@.commit_index
            &&& forall|index: int|
                before@.commit_index < index < before@.log.len() && (
                #[trigger] before@.log[index]).term == before@.current_term && 1 + peers_holding(
                    after@.match_index,
                    index,
                ) >= before@.members.len() / 2 + 1 ==> after@.commit_index >= index
            &&& after@.commit_index > before@.commit_index ==> {
                &&& after@.commit_index < before@.log.len()
                &&& before@.log[after@.commit_index as int].term == before@.current_term
                &&& 1 + peers_holding(after@.match_index, after@.commit_index as int)
                    >= before@.members.len() / 2 + 1
            }
            &&& after@.last_applied >= after@.commit_index
            &&& handed_over(before@, after@)
        },
        !reply.success ==> {
            &&& after@.next_index[reply.node_id] == (if before@.next_index[reply.node_id] > 1 {
                before@.next_index[reply.node_id] - 1
            } else {
                before@.next_index[reply.node_id] as int
            })
            &&& forall|id: NodeId|
                id != reply.node_id ==> (#[trigger] after@.next_index.contains_key(id)
                    <==> before@.next_index.contains_key(id)) && after@.next_index[id]
                    == before@.next_index[id]
            &&& after@.match_index == before@.match_index
            &&& after@.commit_index == before@.commit_index
            &&& after@.last_applied == before@.last_applied
            &&& after@.outbox == before@.outbox
        },
        after@ == (NodeState {
            commit_index: after@.commit_index,
            last_applied: after@.last_applied,
            next_index: after@.next_index,
            match_index: after@.match_index,
            outbox: OutboxView { applied: after@.outbox.applied, ..before@.outbox },
            ..before@
        }),
{
    lemma_commands_are_handed_over(before, Event::AppendEntriesReply(reply), after, answer);
    if reply.success {
        let noted = NodeState {
            match_index: after@.match_index,
            next_index: after@.next_index,
            ..before@
        };
        noted.lemma_commit_target(noted.log.len() as int);
        assert forall|index: int|
            before@.commit_index < index < before@.log.len() && (
            #[trigger] before@.log[index]).term == before@.current_term && 1 + peers_holding(
                after@.match_index,
                index,
            ) >= before@.members.len() / 2 + 1 implies after@.commit_index >= index by {
            assert(noted.replicas(index) =~= after@.match_index.dom().filter(
                |id: NodeId| after@.match_index[id] >= index,
            ));
            assert(noted.committable(index));
        }
        let index = after@.commit_index as int;
        assert(noted.replicas(index) =~= after@.match_index.dom().filter(
            |id: NodeId| after@.match_index[id] >= index,
        ));
    }
}

/// An answer of a newer term ends the lead; one of an older term, or to a node that does not lead,
/// changes nothing.
pub proof fn lemma_replication_reply_of_another_term<S: Storage>(
    before: Ruft<S>,
    reply: AppendEntriesReply,
    after: Ruft<S>,
    answer: Answer,
)
    requires
        before@.wf(),
        before@.admits(Event::AppendEntriesReply(reply)),
        before.event_persisted(Event::AppendEntriesReply(reply), &after, answer),
        before@.role != Role::Leader || reply.term != before@.current_term,
    ensures
        answer == Answer::Silent,
        reply.term <= before@.current_term ==> after@ == before@ && after.storage.state()
            == before.storage.state(),
        reply.term > before@.current_term ==> {
            &&& after@ == (NodeState {
                role: Role::Follower,
                current_term: reply.term,
                voted_for: None,
                ..before@
            })
            &&& after.storage.state() == (SavedState {
                hard_state: HardState { current_term: reply.term, voted_for: None },
                ..before.storage.state()
            })
        },
{
}

/// Snapshots: of one that a leader sends, the term is taken over where it is newer, the sender followed
/// where it is not stale, and the node's term answered; of an answer to one, a newer term is taken
/// over; one that the state machine offers is turned down.
pub proof fn lemma_snapshot_events<S: Storage>(
    before: Ruft<S>,
    event: Event,
    after: Ruft<S>,
    answer: Answer,
)
    requires
        before@.wf(),
        before.event_persisted(event, &after, answer),
    ensures
        event matches Event::InstallSnapshot(args) ==> {
            let term = if args.term > before@.current_term {
                args.term
            } else {
                before@.current_term
            };
            &&& answer == Answer::InstallSnapshot(
                InstallSnapshotReply { node_id: before@.node_id, term },
            )
            &&& args.term < before@.current_term ==> after@ == before@
            &&& args.term >= before@.current_term ==> after@ == (NodeState {
                role: Role::Follower,
                current_term: args.term,
                voted_for: if args.term > before@.current_term {
                    None
                } else {
                    before@.voted_for
                },
                outbox: OutboxView { timer_reset: true, ..before@.outbox },
                ..before@
            })
        },
        event matches Event::InstallSnapshotReply(reply) ==> {
            &&& answer == Answer::Silent
            &&& reply.term <= before@.current_term ==> after@ == before@
            &&& reply.term > before@.current_term ==> after@ == (NodeState {
                role: Role::Follower,
                current_term: reply.term,
                voted_for: None,
                ..before@
            })
        },
        event is CreateSnapshot ==> after@ == before@ && answer == Answer::Compacted(false),
        event is InstallSnapshot || event is InstallSnapshotReply || event is CreateSnapshot ==> (
        if after@.current_term > before@.current_term {
            after.storage.state() == (SavedState {
                hard_state: HardState { current_term: after@.current_term, voted_for: None },
                ..before.storage.state()
            })
        } else {
            after.storage.state() == before.storage.state()
        }),
{
}

/// An observer sees the node as it is, and changes nothing.
pub proof fn lemma_info<S: Storage>(before: Ruft<S>, after: Ruft<S>, answer: Answer)
    requires
        before.event_handled(Event::GetInfo, &after, answer),
    ensures
        after == before,
        answer matches Answer::Info(info) && {
            &&& info.node_id == before@.node_id
            &&& info.role == before@.role
            &&& info.current_term == before@.current_term
            &&& info.commit_index == before@.commit_index
            &&& info.last_applied == before@.last_applied
            &&& info.log_len == before@.log.len()
        },
{
}

/// Applying between other events finds nothing left to apply.
pub proof fn lemma_apply<S: Storage>(before: Ruft<S>, after: Ruft<S>, answer: Answer)
    requires
        before@.wf(),
        before.event_handled(Event::Apply, &after, answer),
    ensures
        after@ == before@,
        answer == Answer::Silent,
        after.storage.state() == before.storage.state(),
{
}

/// What cannot be persisted is not used: memory keeps its log, what it committed and what it applied,
/// no vote and no command is granted, nothing goes out, and the term changes only to one that was
/// stored before the failure.
pub proof fn lemma_failure_changes_nothing_but_the_term<S: Storage>(
    before: Ruft<S>,
    event: Event,
    after: Ruft<S>,
    answer: Answer,
)
    requires
        before@.wf(),
        before@.admits(event),
        before.event_not_persisted(event, &after, answer),
        !before.event_persisted(event, &after, answer),
    ensures
        after@.log == before@.log,
        after@.commit_index == before@.commit_index,
        after@.last_applied == before@.last_applied,
        after@.next_index == before@.next_index,
        after@.match_index == before@.match_index,
        after@.members == before@.members,
        after@.node_id == before@.node_id,
        after@.outbox == (OutboxView {
            timer_reset: after@.outbox.timer_reset,
            ..before@.outbox
        }),
        after@.current_term >= before@.current_term,
        after@.current_term == before@.current_term ==> after@.voted_for == before@.voted_for,
        after@.current_term > before@.current_term ==> after@.voted_for is None && after@.role
            == Role::Follower && after.storage.state().hard_state.current_term
            == after@.current_term,
        after@.role == before@.role || after@.role == Role::Follower,
        match answer {
            Answer::AppendEntries(reply) => !reply.success,
            Answer::RequestVote(reply) => !reply.vote_granted,
            Answer::Command(result) => result == AppendResult::PersistentError,
            _ => true,
        },
        event is ShouldBeFollower || event is AppendEntriesReply || event is InstallSnapshot
            || event is InstallSnapshotReply ==> after@ == before@,
        event is InstallSnapshot ==> answer == Answer::InstallSnapshot(
            InstallSnapshotReply { node_id: before@.node_id, term: before@.current_term },
        ),
        after.storage.state().snapshot == before.storage.state().snapshot,
{
}

/// What a failed write leaves in storage: what was there, or what was to be written and may not have
/// been flushed.
pub proof fn lemma_failure_leaves_old_or_new<S: Storage>(
    before: Ruft<S>,
    event: Event,
    after: Ruft<S>,
    answer: Answer,
)
    requires
        before@.wf(),
        before@.admits(event),
        before.event_not_persisted(event, &after, answer),
    ensures
        ({
            let term = before@.current_term;
            let old_hard = before.storage.state().hard_state;
            let hard = after.storage.state().hard_state;
            let adopts = |newer: u64|
                newer > term && hard == (HardState { current_term: newer, voted_for: None });
            hard == old_hard || match event {
                Event::AppendEntries(args) => adopts(args.term),
                Event::RequestVote(args) => adopts(args.term) || (args.term >= term && hard == (
                HardState { current_term: args.term, voted_for: Some(args.candidate_id) })),
                Event::ElectionTimeout => hard.current_term == term + 1 && hard.voted_for == Some(
                    before@.node_id,
                ),
                Event::ShouldBeFollower(newer) => adopts(newer),
                Event::AppendEntriesReply(reply) => adopts(reply.term),
                Event::InstallSnapshot(args) => adopts(args.term),
                Event::InstallSnapshotReply(reply) => adopts(reply.term),
                _ => false,
            }
        }),
        ({
            let old_log = before.storage.state().log;
            let log = after.storage.state().log;
            log == old_log || match event {
                Event::AppendEntries(args) => before@.synced_with(before.storage.state()) ==> {
                    &&& log.len() == args.prev_log_index + 1 + args.entries@.len()
                    &&& forall|i: int|
                        0 <= i <= args.prev_log_index ==> #[trigger] log[i] == old_log[i]
                },
                Event::NewLogEntries(command) => log == old_log.push(
                    Entry { term: before@.current_term, command: command@ },
                ),
                _ => false,
            }
        }),
{
    if let Event::AppendEntries(args) = event {
        if before@.append_writes(args@) {
            lemma_first_conflict(before@.log, args.prev_log_index + 1, args@.entries, 0);
        }
        assert(args@.entries.len() == args.entries@.len());
    }
}

/// A term that is taken over is durable at once, unless a later write of the same step failed; and
/// what stores nothing leaves storage as it is.
pub proof fn lemma_what_is_durable<S: Storage>(
    before: Ruft<S>,
    event: Event,
    after: Ruft<S>,
    answer: Answer,
)
    requires
        before@.wf(),
        before@.admits(event),
        before.event_handled(event, &after, answer),
    ensures
        before.event_persisted(event, &after, answer) && after@.current_term
            != before@.current_term ==> after.storage.flushed(),
        after@.current_term != before@.current_term && !(event is AppendEntries)
            && !(event is RequestVote) ==> after.storage.flushed(),
        answer matches Answer::RequestVote(reply) ==> reply.vote_granted ==> after.storage.flushed(),
        answer matches Answer::Command(result) ==> result is Accepted ==> after.storage.flushed(),
        answer matches Answer::AppendEntries(reply) ==> reply.success && (after@.log != before@.log
            || after@.current_term != before@.current_term) ==> after.storage.flushed(),
        match event {
            Event::Apply
            | Event::VoteResult(_, _)
            | Event::ReceiveEnoughVotes
            | Event::Heartbeat
            | Event::CreateSnapshot(_, _)
            | Event::GetInfo => after.storage == before.storage,
            Event::NewLogEntries(_) => before@.role != Role::Leader ==> after.storage
                == before.storage,
            Event::ElectionTimeout => before@.role == Role::Leader ==> after.storage
                == before.storage,
            Event::ShouldBeFollower(term) => term <= before@.current_term ==> after.storage
                == before.storage,
            Event::AppendEntriesReply(reply) => reply.term <= before@.current_term ==> after.storage
                == before.storage,
            Event::InstallSnapshot(args) => args.term <= before@.current_term ==> after.storage
                == before.storage,
            Event::InstallSnapshotReply(reply) => reply.term <= before@.current_term
                ==> after.storage == before.storage,
            Event::AppendEntries(args) => args.term < before@.current_term ==> after.storage
                == before.storage,
            Event::RequestVote(args) => args.term < before@.current_term ==> after.storage
                == before.storage,
        },
{
}

/// Which events a node can take: all of them, but for a candidacy when there is no higher term, a
/// broadcast with a next index outside the log, and an answer from nobody or at the last index there
/// is.
pub proof fn lemma_admitted_events(node: NodeState, event: Event)
    requires
        node.wf(),
    ensures
        node.admits(event) <==> match event {
            Event::ElectionTimeout => node.role == Role::Leader || node.current_term < u64::MAX,
            Event::Heartbeat => node.role != Role::Leader || forall|id: NodeId|
                node.members.contains(id) && id != node.node_id ==> 1 <= (
                #[trigger] node.next_index[id]) <= node.log.len(),
            Event::NewLogEntries(_) => node.role != Role::Leader || forall|id: NodeId|
                node.members.contains(id) && id != node.node_id ==> 1 <= (
                #[trigger] node.next_index[id]) <= node.log.len() + 1,
            Event::AppendEntriesReply(reply) => {
                ||| node.role != Role::Leader
                ||| reply.term != node.current_term
                ||| {
                    &&& node.members.contains(reply.node_id)
                    &&& reply.node_id != node.node_id
                    &&& !reply.success || reply.match_index < u64::MAX
                }
            },
            _ => true,
        },
{
    assert forall|id: NodeId| #[trigger] node.next_index.contains_key(id) <==> node.members.contains(
        id,
    ) && id != node.node_id by {}
    if event is Heartbeat || event is NewLogEntries {
        let len = if event is Heartbeat {
            node.log.len() as int
        } else {
            node.log.len() as int + 1
        };
        let all = forall|id: NodeId|
            node.members.contains(id) && id != node.node_id ==> 1 <= (
            #[trigger] node.next_index[id]) <= len;
        if node.next_indexes_within(len) {
            assert forall|id: NodeId| node.members.contains(id) && id != node.node_id implies 1 <= (
            #[trigger] node.next_index[id]) <= len by {
                assert(node.next_index.contains_key(id));
            }
        }
        if all {
            assert forall|id: NodeId| #[trigger] node.next_index.contains_key(id) implies 1
                <= node.next_index[id] <= len by {
                let next = node.next_index[id];
            }
        }
    }
}

/// A log that is stored as the node holds it takes whatever a leader makes of it.
pub proof fn lemma_synced_storage_takes_entries(
    node: NodeState,
    saved: SavedState,
    args: AppendEntriesView,
)
    requires
        node.wf(),
        node.synced_with(saved),
    ensures
        node.writes_within(args, saved.log.len()),
{
    if node.append_writes(args) {
        lemma_first_conflict(node.log, args.prev_log_index + 1, args.entries, 0);
    }
}

/// What synced means: the term, the vote and the log are the same in storage and in memory.
pub proof fn lemma_synced(node: NodeState, saved: SavedState)
    ensures
        node.synced_with(saved) <==> saved.hard_state.current_term == node.current_term
            && saved.hard_state.voted_for == node.voted_for && saved.log == node.log,
{
}

/// A node that starts has what its storage holds, follows, knows of nothing committed, takes every
/// other member to have its whole log, and has nothing to do yet.
pub proof fn lemma_restored_node(node_id: NodeId, members: Seq<NodeId>, saved: SavedState)
    requires
        saved.log.len() <= u64::MAX,
    ensures
        ({
            let node = restored(node_id, members, saved);
            &&& node.node_id == node_id
            &&& node.members == members
            &&& node.role == Role::Follower
            &&& node.current_term == saved.hard_state.current_term
            &&& node.voted_for == saved.hard_state.voted_for
            &&& node.log == saved.log
            &&& node.commit_index == 0
            &&& node.last_applied == 0
            &&& forall|id: NodeId|
                members.contains(id) && id != node_id <==> #[trigger] node.next_index.contains_key(
                    id,
                )
            &&& forall|id: NodeId| #[trigger]
                node.next_index.contains_key(id) ==> node.next_index[id] == saved.log.len()
            &&& forall|id: NodeId|
                members.contains(id) && id != node_id <==> #[trigger] node.match_index.contains_key(
                    id,
                )
            &&& forall|id: NodeId| #[trigger]
                node.match_index.contains_key(id) ==> node.match_index[id] == 0
            &&& node.outbox.applied == Seq::<ApplyView>::empty()
            &&& node.outbox.events == Seq::<Event>::empty()
            &&& node.outbox.append_requests == Seq::<(NodeId, AppendEntriesView)>::empty()
            &&& node.outbox.elections == Seq::<Election>::empty()
            &&& !node.outbox.timer_reset
            &&& node.outbox == empty_outbox()
        }),
{
}

/// What is said of a node is said of its fields.
pub proof fn lemma_node_view<S: Storage>(node: Ruft<S>)
    ensures
        node@.node_id == node.node_id,
        node@.members == node.members@,
        node@.role == node.role,
        node@.current_term == node.current_term,
        node@.voted_for == node.voted_for,
        node@.commit_index == node.commit_index,
        node@.last_applied == node.last_applied,
        node@.next_index == node.next_index@,
        node@.match_index == node.match_index@,
        node@.outbox == node.outbox@,
        node@.log.len() == node.log@.len(),
        forall|i: int|
            0 <= i < node.log@.len() ==> (#[trigger] node@.log[i]).term == node.log@[i].term
                && node@.log[i].command == node.log@[i].command@,
{
}

/// What is said of an outbox is said of its fields.
pub proof fn lemma_outbox_view(outbox: Outbox)
    ensures
        outbox@.events == outbox.events@,
        outbox@.elections == outbox.elections@,
        outbox@.timer_reset == outbox.timer_reset,
        outbox@.applied.len() == outbox.applied@.len(),
        forall|i: int|
            0 <= i < outbox.applied@.len() ==> (#[trigger] outbox@.applied[i]).index
                == outbox.applied@[i].index && outbox@.applied[i].data
                == outbox.applied@[i].data@,
        outbox@.append_requests.len() == outbox.append_requests@.len(),
        forall|i: int|
            0 <= i < outbox.append_requests@.len() ==> (#[trigger] outbox@.append_requests[i]).0
                == outbox.append_requests@[i].0 && outbox@.append_requests[i].1
                == outbox.append_requests@[i].1@,
{
}

/// What is said of AppendEntries arguments is said of their fields.
pub proof fn lemma_append_entries_view(args: AppendEntriesArgs)
    ensures
        args@.term == args.term,
        args@.leader_id == args.leader_id,
        args@.prev_log_index == args.prev_log_index,
        args@.prev_log_term == args.prev_log_term,
        args@.leader_commit == args.leader_commit,
        args@.entries.len() == args.entries@.len(),
        forall|i: int|
            0 <= i < args.entries@.len() ==> (#[trigger] args@.entries[i]).term
                == args.entries@[i].term && args@.entries[i].command == args.entries@[i].command@,
{
}

/// A majority is the least number that is more than half.
pub proof fn lemma_majority(members: nat)
    ensures
        2 * majority_of(members) > members,
        2 * (majority_of(members) - 1) <= members,
{
}

/// What a node says of its members: a peer is any member but itself, and a majority is of all of them.
pub proof fn lemma_membership(node: NodeState, id: NodeId)
    ensures
        node.is_peer(id) <==> node.members.contains(id) && id != node.node_id,
        2 * node.majority() > node.members.len(),
        2 * (node.majority() - 1) <= node.members.len(),
{
}

/// What holds of a node between events, and what it takes to handle one.
pub proof fn lemma_well_formed<S: Storage>(node: Ruft<S>, next: Ruft<S>)
    ensures
        node@.wf() <==> {
            &&& node@.log.len() >= 1
            &&& node@.log.len() <= u64::MAX
            &&& node@.commit_index < node@.log.len()
            &&& node@.commit_index <= node@.last_applied
            &&& forall|id: NodeId| #[trigger]
                node@.next_index.contains_key(id) <==> node@.members.contains(id) && id
                    != node@.node_id
            &&& forall|id: NodeId| #[trigger]
                node@.match_index.contains_key(id) <==> node@.members.contains(id) && id
                    != node@.node_id
        },
        node.usable() <==> node@.wf() && node.storage.valid(),
        node.storage_kept(&next) <==> next.storage.reliable() == node.storage.reliable()
            && next.storage.base() == node.storage.base(),
{
    let raw_next = forall|id: NodeId| #[trigger]
        node@.next_index.contains_key(id) <==> node@.members.contains(id) && id != node@.node_id;
    let raw_match = forall|id: NodeId| #[trigger]
        node@.match_index.contains_key(id) <==> node@.members.contains(id) && id != node@.node_id;
    assert(raw_next <==> forall|id: NodeId| #[trigger]
        node@.next_index.contains_key(id) <==> node@.is_peer(id));
    assert(raw_match <==> forall|id: NodeId| #[trigger]
        node@.match_index.contains_key(id) <==> node@.is_peer(id));
}

/// Whatever the stored log, it takes a leader's entries where the first one that the node lacks does
/// not lie past its end.
pub proof fn lemma_entries_within_stored_log(
    node: NodeState,
    args: AppendEntriesView,
    k: int,
    stored: nat,
)
    requires
        node.wf(),
        args.prev_log_index < node.log.len(),
        0 <= k < args.entries.len(),
        present(node.log, args.prev_log_index as int, args.entries, k),
        args.prev_log_index + 1 + k >= node.log.len() || node.log[args.prev_log_index + 1 + k].term
            != args.entries[k].term,
        args.prev_log_index + 1 + k <= stored,
    ensures
        node.writes_within(args, stored),
{
    let prev = args.prev_log_index as int;
    lemma_first_conflict(node.log, prev + 1, args.entries, 0);
    let k0 = takeover(node.log, args);
    if k0 < k {
        assert(args.entries[k0].term == node.log[prev + 1 + k0].term);
    }
    if k < k0 {
        assert(node.log[prev + 1 + k].term == args.entries[k].term);
    }
}

/// Where no entry is to be written, it does not matter how long the stored log is.
pub proof fn lemma_nothing_to_write(node: NodeState, args: AppendEntriesView, stored: nat)
    requires
        node.wf(),
        args.term < node.current_term || args.prev_log_index >= node.log.len()
            || node.log[args.prev_log_index as int].term != args.prev_log_term || present(
            node.log,
            args.prev_log_index as int,
            args.entries,
            args.entries.len() as int,
        ),
    ensures
        node.writes_within(args, stored),
{
    if node.append_writes(args) {
        let prev = args.prev_log_index as int;
        lemma_first_conflict(node.log, prev + 1, args.entries, 0);
        let k0 = takeover(node.log, args);
        assert(args.entries[k0].term == node.log[prev + 1 + k0].term);
    }
}

} // verus!
