//! Counting the votes of one election.
use crate::events::event::Event;
use crate::rpc::request_vote::RequestVoteReply;
use crate::ruft::model::Election;
use vstd::prelude::*;

verus! {

/// A count as a mathematical value.
pub struct TallyView {
    /// The term of the election.
    pub term: u64,
    /// How many votes win it.
    pub majority: usize,
    /// How many votes there are.
    pub votes: nat,
    /// The election is won, and nothing more is counted.
    pub won: bool,
}

/// The count that an election starts with: the candidate's own vote.
pub open spec fn fresh_tally(term: u64, majority: usize) -> TallyView {
    TallyView { term, majority, votes: 1, won: false }
}

/// The candidate is told of a newer term.
pub open spec fn newer_term_events(term: u64, reply: RequestVoteReply) -> Seq<Event> {
    if reply.term > term {
        seq![Event::VoteResult(false, reply.term)]
    } else {
        Seq::empty()
    }
}

impl TallyView {
    /// The votes with one more answer.
    pub open spec fn votes_with(self, reply: RequestVoteReply) -> nat {
        if reply.vote_granted {
            self.votes + 1
        } else {
            self.votes
        }
    }

    /// What an answer makes of the count, and what the candidate is told. A call that failed is no
    /// answer.
    pub open spec fn counted(self, answer: Option<RequestVoteReply>) -> (TallyView, Seq<Event>) {
        match answer {
            Some(reply) if !self.won => {
                let votes = self.votes_with(reply);
                let won = votes >= self.majority;
                let told = newer_term_events(self.term, reply);
                (
                    TallyView { votes, won, ..self },
                    if won {
                        told.push(Event::VoteResult(true, self.term))
                    } else {
                        told
                    },
                )
            },
            _ => (self, Seq::empty()),
        }
    }
}

/// The count of one election.
#[derive(Debug)]
pub struct VoteTally {
    term: u64,
    majority: usize,
    votes: usize,
    won: bool,
}

impl View for VoteTally {
    type V = TallyView;

    closed spec fn view(&self) -> TallyView {
        TallyView {
            term: self.term,
            majority: self.majority,
            votes: self.votes as nat,
            won: self.won,
        }
    }
}

impl VoteTally {
    /// Counting goes on only while the votes fall short, the candidate's own vote aside.
    pub open spec fn valid(&self) -> bool {
        self@.won || self@.votes == 1 || self@.votes < self@.majority
    }

    /// Starts the count of an election.
    pub fn new(election: &Election) -> (tally: Self)
        ensures
            tally.valid(),
            tally@ == fresh_tally(election.args.term, election.majority),
    {
        VoteTally { term: election.args.term, majority: election.majority, votes: 1, won: false }
    }

    /// Whether the election is won, so that nothing more has to be waited for.
    pub fn is_won(&self) -> (won: bool)
        ensures
            won == self@.won,
    {
        self.won
    }

    /// Counts one answer and says what the candidate is to be told, in order. Only an answer can win
    /// an election, so that a node without peers never does.
    pub fn on_reply(&mut self, answer: Option<RequestVoteReply>) -> (events: Vec<Event>)
        requires
            old(self).valid(),
        ensures
            final(self).valid(),
            (final(self)@, events@) == old(self)@.counted(answer),
    {
        let mut events: Vec<Event> = Vec::new();
        assert(events@ =~= Seq::empty());
        if self.won {
            return events;
        }
        match answer {
            None => {},
            Some(reply) => {
                if reply.term > self.term {
                    events.push(Event::VoteResult(false, reply.term));
                }
                assert(events@ =~= newer_term_events(self.term, reply));
                if reply.vote_granted {
                    self.votes = self.votes + 1;
                }
                if self.votes >= self.majority {
                    events.push(Event::VoteResult(true, self.term));
                    self.won = true;
                }
            },
        }
        events
    }
}

/// How many answers grant their vote.
pub open spec fn granted_votes(answers: Seq<Option<RequestVoteReply>>) -> nat
    decreases answers.len(),
{
    if answers.len() == 0 {
        0
    } else {
        let earlier = granted_votes(answers.drop_last());
        match answers.last() {
            Some(reply) if reply.vote_granted => earlier + 1,
            _ => earlier,
        }
    }
}

/// Some call was answered.
pub open spec fn any_answered(answers: Seq<Option<RequestVoteReply>>) -> bool {
    exists|i: int| 0 <= i < answers.len() && #[trigger] answers[i] is Some
}

/// The count after all of `answers`, and everything that the candidate was told.
pub open spec fn tallied(
    term: u64,
    majority: usize,
    answers: Seq<Option<RequestVoteReply>>,
) -> (TallyView, Seq<Event>)
    decreases answers.len(),
{
    if answers.len() == 0 {
        (fresh_tally(term, majority), Seq::empty())
    } else {
        let (earlier, told) = tallied(term, majority, answers.drop_last());
        let (count, events) = earlier.counted(answers.last());
        (count, told + events)
    }
}

/// An election is won exactly when the votes that were granted, with the candidate's own, are a
/// majority, and a single answer at least has come in. The win is announced once, for the term of the
/// election, and after everything else; whatever is announced before it is a newer term.
pub proof fn lemma_majority_wins_once(
    term: u64,
    majority: usize,
    answers: Seq<Option<RequestVoteReply>>,
)
    ensures
        ({
            let (count, told) = tallied(term, majority, answers);
            &&& count.term == term
            &&& count.majority == majority
            &&& count.won <==> any_answered(answers) && 1 + granted_votes(answers) >= majority
            &&& !count.won ==> count.votes == 1 + granted_votes(answers)
            &&& count.won ==> told.len() > 0 && told.last() == Event::VoteResult(true, term)
            &&& forall|i: int|
                0 <= i < told.len() - (if count.won {
                    1int
                } else {
                    0
                }) ==> ((#[trigger] told[i]) matches Event::VoteResult(success, newer) && !success
                    && newer > term)
        }),
    decreases answers.len(),
{
    if answers.len() > 0 {
        let earlier_answers = answers.drop_last();
        lemma_majority_wins_once(term, majority, earlier_answers);
        let (earlier, before) = tallied(term, majority, earlier_answers);
        let (count, events) = earlier.counted(answers.last());
        if any_answered(earlier_answers) {
            let i = choose|i: int|
                0 <= i < earlier_answers.len() && #[trigger] earlier_answers[i] is Some;
            assert(answers[i] is Some);
        }
        if any_answered(answers) && answers.last() is None {
            let i = choose|i: int| 0 <= i < answers.len() && #[trigger] answers[i] is Some;
            assert(earlier_answers[i] is Some);
        }
        if answers.last() is Some {
            assert(answers[answers.len() - 1] is Some);
        }
        assert(before + Seq::<Event>::empty() =~= before);
    }
}

/// One answer: a call that failed, and any answer after the win, counts for nothing. Else a granted
/// vote is one more vote, a newer term is reported, and reaching the majority is the win.
pub proof fn lemma_one_answer(tally: TallyView, answer: Option<RequestVoteReply>)
    ensures
        ({
            let (count, told) = tally.counted(answer);
            &&& count.term == tally.term
            &&& count.majority == tally.majority
            &&& tally.won || answer is None ==> count == tally && told.len() == 0
            &&& !tally.won && answer is Some ==> {
                let reply = answer->Some_0;
                let newer = reply.term > tally.term;
                &&& reply.vote_granted ==> count.votes == tally.votes + 1
                &&& !reply.vote_granted ==> count.votes == tally.votes
                &&& count.won <==> count.votes >= tally.majority
                &&& told.len() == (if newer {
                    1int
                } else {
                    0
                }) + (if count.won {
                    1int
                } else {
                    0
                })
                &&& newer ==> told[0] == Event::VoteResult(false, reply.term)
                &&& count.won ==> told[told.len() - 1] == Event::VoteResult(true, tally.term)
            }
        }),
{
}

/// An election starts with the candidate's own vote, and is not won yet.
pub proof fn lemma_fresh_tally(term: u64, majority: usize)
    ensures
        fresh_tally(term, majority).votes == 1,
        !fresh_tally(term, majority).won,
        fresh_tally(term, majority).term == term,
        fresh_tally(term, majority).majority == majority,
{
}

/// Every newer term that an answer brings while the election is open is reported.
pub proof fn lemma_newer_terms_are_reported(
    term: u64,
    majority: usize,
    answers: Seq<Option<RequestVoteReply>>,
    reply: RequestVoteReply,
)
    requires
        !tallied(term, majority, answers).0.won,
        reply.term > term,
    ensures
        tallied(term, majority, answers.push(Some(reply))).1.contains(
            Event::VoteResult(false, reply.term),
        ),
{
    lemma_majority_wins_once(term, majority, answers);
    let longer = answers.push(Some(reply));
    assert(longer.drop_last() =~= answers);
    let (earlier, told) = tallied(term, majority, answers);
    let (_, events) = earlier.counted(Some(reply));
    lemma_one_answer(earlier, Some(reply));
    assert((told + events)[told.len() as int] == Event::VoteResult(false, reply.term));
}

} // verus!
