use vstd::prelude::*;
use crate::feedback::Feedback;
use crate::feedback::all_green;
use crate::feedback::is_all_green;
use crate::filter::filter_candidates;
use crate::filter::filter_spec;
use crate::filter::word_matches;
use crate::select::best_index;
use crate::select::select_guess;
use crate::state::ConstraintState;
use crate::state::apply_spec;
use crate::state::apply_feedback;
use crate::words::words_view;

verus! {

/// What one completed round means for the session.
#[derive(Debug, Clone, Copy, PartialEq, Eq, Structural)]
pub enum RoundResult {
    /// Every position came back exact: the puzzle is solved.
    Solved,
    /// The round consumed the last of the budget without solving.
    Exhausted,
    /// The session goes on to another round.
    Continue,
}

/// How a whole session ended, for reporting.
#[derive(Debug, Clone, Copy, PartialEq, Eq, Structural)]
pub enum SessionOutcome {
    /// Solved on the round carried here.
    Solved(usize),
    /// The guess budget ran out.
    Exhausted,
    /// No dictionary word satisfies the accumulated constraints.
    NoCandidates,
    /// The external feedback source signalled the end of its input.
    NoMoreInput,
}

/// One solving session: the accumulated constraints, the remaining guess
/// budget, and how many guesses have been made.
pub struct Session {
    pub state: ConstraintState,
    pub remaining: usize,
    pub guesses_made: usize,
}

impl Session {
    /// Start a session with an empty constraint state and a full budget.
    pub fn new(max_guesses: usize) -> (s: Session)
        ensures
            s.state@.wf(),
            s.state@ == crate::state::empty_model(),
            s.remaining == max_guesses,
            s.guesses_made == 0,
    {
        Session { state: ConstraintState::new(), remaining: max_guesses, guesses_made: 0 }
    }

    /// Choose the next guess: the caller-chosen opening word verbatim on the
    /// very first guess, reported against the whole dictionary; afterwards
    /// the highest-scoring candidate that the accumulated constraints keep,
    /// or nothing when no candidate is left.
    pub fn next_guess(&self, words: &Vec<String>, first_word: &String) -> (r: Option<(
        String,
        usize,
    )>)
        requires
            self.state@.wf(),
        ensures
            self.guesses_made == 0 ==> r is Some && ((r->0).0)@ == first_word@ && (r->0).1
                == words@.len(),
            self.guesses_made > 0 ==> {
                let cands = filter_spec(words_view(words@), self.state@);
                &&& (r is Some <==> cands.len() > 0)
                &&& (r is Some ==> (r->0).1 == cands.len())
                &&& (r is Some ==> ((r->0).0)@ == cands[best_index(cands, cands.len() as int)])
            },
    {
        if self.guesses_made == 0 {
            return Some((first_word.clone(), words.len()));
        }
        let candidates = filter_candidates(words, &self.state);
        let ghost cands = filter_spec(words_view(words@), self.state@);
        proof {
            assert(words_view(candidates@) == cands);
            assert(candidates@.len() == cands.len());
            assert forall|i: int| 0 <= i < candidates@.len() implies (
            #[trigger] candidates@[i])@.len() == 5 by {
                words_view(words@).lemma_filter_pred(
                    |w: Seq<char>| word_matches(w, self.state@),
                    i,
                );
                assert(candidates@[i]@ == words_view(candidates@)[i]);
            }
        }
        let r = select_guess(&candidates);
        proof {
            if r is Some {
                crate::select::lemma_best_index_first_max(cands, cands.len() as int);
                let b = best_index(cands, cands.len() as int);
                assert(candidates@[b]@ == words_view(candidates@)[b]);
            }
        }
        r
    }

    /// Record the feedback a guess earned: an all-exact round solves the
    /// session and changes nothing else; any other round is merged into the
    /// constraint state and spends one guess of the budget, exhausting the
    /// session when the budget reaches zero.
    pub fn record_feedback(&mut self, guess: &str, feedback: &Vec<Feedback>) -> (r: RoundResult)
        requires
            old(self).state@.wf(),
            guess@.len() == 5,
            feedback@.len() == 5,
            old(self).remaining > 0,
            old(self).guesses_made < usize::MAX,
        ensures
            final(self).state@.wf(),
            final(self).guesses_made == old(self).guesses_made + 1,
            all_green(feedback@) ==> r == RoundResult::Solved && final(self).state@ == old(
                self,
            ).state@ && final(self).remaining == old(self).remaining,
            !all_green(feedback@) ==> final(self).state@ == apply_spec(
                old(self).state@,
                guess@,
                feedback@,
            ) && final(self).remaining == old(self).remaining - 1,
            !all_green(feedback@) ==> (r == RoundResult::Exhausted <==> final(self).remaining
                == 0),
            !all_green(feedback@) ==> (r == RoundResult::Continue <==> final(self).remaining > 0),
    {
        self.guesses_made = self.guesses_made + 1;
        if is_all_green(feedback) {
            return RoundResult::Solved;
        }
        apply_feedback(guess, feedback, &mut self.state);
        self.remaining = self.remaining - 1;
        if self.remaining == 0 {
            RoundResult::Exhausted
        } else {
            RoundResult::Continue
        }
    }
}

} // verus!
