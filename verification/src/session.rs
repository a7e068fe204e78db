//! The session loop's decision core.
//!
//! A session owns the candidate pool, the guess vocabulary and the round
//! counter. Each round the caller asks for the next step (a terminal
//! answer, exhaustion, or ranked suggestions) and, while the session is
//! ongoing, feeds back one played guess with its per-position result.

use vstd::prelude::*;

verus! {

use crate::filter::{filter_words, update_possibilities, wf_batch, wf_words};
use crate::restriction::{
    SolverError,
    parse_feedback,
    raw_restrictions,
    sort_restrictions,
    valid_feedback,
};
use crate::selector::{calculate_guesses, select_spec};

/// What the session should do next.
#[derive(Debug, PartialEq, Eq)]
pub enum SessionStatus {
    /// Exactly one candidate is left: it must be the answer.
    Solved(String),
    /// No candidate is left: the answer is not in the word list.
    Exhausted,
    /// More than one candidate is left: ranked guess suggestions, most
    /// recommended first.
    Ongoing(Vec<String>),
}

/// One interactive solving session.
pub struct Session {
    /// Words still consistent with all feedback received so far.
    pub possibilities: Vec<String>,
    /// Words allowed as guesses; fixed for the whole session.
    pub words: Vec<String>,
    /// Completed feedback rounds.
    pub rounds: u64,
}

impl Session {
    /// Every candidate word has exactly `WORD_LEN` letters.
    pub open spec fn wf(self) -> bool {
        wf_words(self.possibilities.deep_view())
    }

    /// Starts a session from a loaded candidate pool and vocabulary.
    pub fn new(possibilities: Vec<String>, words: Vec<String>) -> (s: Session)
        requires
            wf_words(possibilities.deep_view()),
        ensures
            s.wf(),
            s.possibilities == possibilities,
            s.words == words,
            s.rounds == 0,
    {
        Session { possibilities, words, rounds: 0 }
    }

    /// Decides the next step from the pool size alone: a pool of one is
    /// solved and an empty pool is exhausted, in both cases without
    /// consulting the selector; otherwise the selector's ranked
    /// suggestions are returned.
    pub fn next_step(&self) -> (r: SessionStatus)
        ensures
            self.possibilities@.len() == 0 ==> r == SessionStatus::Exhausted,
            self.possibilities@.len() == 1 ==> r == SessionStatus::Solved(self.possibilities@[0]),
            self.possibilities@.len() > 1 ==> (r matches SessionStatus::Ongoing(v)
                && v.deep_view() == select_spec(
                self.possibilities.deep_view(),
                self.words.deep_view(),
            )),
    {
        if self.possibilities.len() == 0 {
            SessionStatus::Exhausted
        } else if self.possibilities.len() == 1 {
            SessionStatus::Solved(self.possibilities[0].clone())
        } else {
            SessionStatus::Ongoing(calculate_guesses(
                self.possibilities.as_slice(),
                self.words.as_slice(),
            ))
        }
    }

    /// Applies one round of feedback on a played guess: the feedback is
    /// turned into the canonical constraint batch and the pool is filtered
    /// by it. Malformed feedback leaves the session unchanged and returns
    /// `InvalidFeedback`; the caller decides whether to abort.
    pub fn apply_feedback(&mut self, guess: &str, feedback: &str) -> (r: Result<(), SolverError>)
        requires
            old(self).wf(),
            old(self).rounds < u64::MAX,
        ensures
            final(self).wf(),
            final(self).words == old(self).words,
            r is Ok <==> valid_feedback(guess@, feedback@),
            r is Ok ==> final(self).possibilities.deep_view() == filter_words(
                old(self).possibilities.deep_view(),
                sort_restrictions(raw_restrictions(guess@, feedback@)),
            ),
            r is Ok ==> final(self).rounds == old(self).rounds + 1,
            r is Err ==> *final(self) == *old(self) && r->Err_0 == SolverError::InvalidFeedback,
    {
        match parse_feedback(guess, feedback) {
            Ok(batch) => {
                assert(wf_batch(batch@));
                update_possibilities(&mut self.possibilities, batch.as_slice());
                self.rounds = self.rounds + 1;
                Ok(())
            },
            Err(e) => Err(e),
        }
    }
}

} // verus!
