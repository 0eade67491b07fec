use ruft::events::Event;
use ruft::rpc::request_vote::{RequestVoteArgs, RequestVoteReply};
use ruft::ruft::election::VoteTally;
use ruft::ruft::model::Election;

fn tally(term: u64, majority: usize) -> VoteTally {
    VoteTally::new(&Election {
        args: RequestVoteArgs {
            term,
            candidate_id: 1,
            last_log_index: 0,
            last_log_term: 0,
        },
        majority,
    })
}

fn reply(term: u64, vote_granted: bool) -> Option<RequestVoteReply> {
    Some(RequestVoteReply { term, vote_granted })
}

#[test]
fn two_of_three_votes_win() {
    let mut count = tally(4, 2);
    assert!(count.on_reply(reply(4, false)).is_empty());
    assert!(!count.is_won());
    let events = count.on_reply(reply(4, true));
    assert_eq!(events.len(), 1);
    assert!(matches!(events[0], Event::VoteResult(true, 4)));
    assert!(count.is_won());
}

#[test]
fn win_is_announced_once() {
    let mut count = tally(4, 2);
    count.on_reply(reply(4, true));
    assert!(count.on_reply(reply(9, true)).is_empty());
}

#[test]
fn newer_term_is_reported_and_counting_goes_on() {
    let mut count = tally(4, 3);
    let events = count.on_reply(reply(6, false));
    assert_eq!(events.len(), 1);
    assert!(matches!(events[0], Event::VoteResult(false, 6)));
    assert!(count.on_reply(reply(4, true)).is_empty());
    assert!(matches!(
        count.on_reply(reply(4, true))[0],
        Event::VoteResult(true, 4)
    ));
}

#[test]
fn newer_term_comes_before_the_win() {
    let mut count = tally(4, 2);
    let events = count.on_reply(reply(5, true));
    assert_eq!(events.len(), 2);
    assert!(matches!(events[0], Event::VoteResult(false, 5)));
    assert!(matches!(events[1], Event::VoteResult(true, 4)));
}

#[test]
fn failed_calls_do_not_count() {
    let mut count = tally(1, 1);
    assert!(count.on_reply(None).is_empty());
    assert!(!count.is_won());
    assert_eq!(count.on_reply(reply(1, false)).len(), 1);
}
