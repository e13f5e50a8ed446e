//! The puzzle: a hidden solution, the guesses made so far, and the feedback
//! that each guess earns.

use vstd::prelude::*;
use arrayvec::ArrayVec;
pub use crate::words::{NUM_LETTERS, MAX_GUESSES};
use crate::words::{has_word_length, lowered, views, word_contains, same_word, ascii_lowercase};
use crate::history::{history_words, history_new, history_len, history_push, history_last};

verus! {

/// Why a guess was not accepted.
#[derive(PartialEq, Debug)]
pub enum GuessError {
    /// No guesses remain.
    TooManyGuesses,
    /// The guess does not have the length of a word.
    IllegalWord,
    /// The most recent guess already matched the solution.
    AlreadySolved,
}

/// The feedback for one letter of a guess.
#[derive(PartialEq, Debug)]
pub enum GuessResult {
    /// The letter does not occur in the solution.
    Miss(char),
    /// The letter occurs in the solution, but not at this position.
    Partial(char),
    /// The letter stands at this position of the solution.
    Hit(char),
}

/// The feedback for the letter `c` guessed at `position` of `solution`.
pub open spec fn symbol_for(solution: Seq<char>, c: char, position: int) -> GuessResult {
    if 0 <= position < solution.len() && solution[position] == c {
        GuessResult::Hit(c)
    } else if solution.contains(c) {
        GuessResult::Partial(c)
    } else {
        GuessResult::Miss(c)
    }
}

/// The feedback for a whole guess, aligned with its letters.
pub open spec fn feedback_for(solution: Seq<char>, guess: Seq<char>) -> Seq<GuessResult> {
    Seq::new(guess.len(), |i: int| symbol_for(solution, guess[i], i))
}

/// Collects the symbols into an `ArrayVec` of capacity `NUM_LETTERS` and
/// calls `ArrayVec::into_inner` on it. Collecting panics beyond the capacity
/// and `into_inner` gives the array only of a full vector, so the
/// precondition asks for exactly `NUM_LETTERS` symbols; the array then holds
/// them in their order.
#[verifier::external_body]
fn into_feedback(symbols: Vec<GuessResult>) -> (feedback: [GuessResult; NUM_LETTERS])
    requires
        symbols@.len() == NUM_LETTERS,
    ensures
        feedback@ == symbols@,
{
    symbols.into_iter().collect::<ArrayVec<GuessResult, NUM_LETTERS>>().into_inner().ok().unwrap()
}

/// A puzzle in play.
pub struct Game {
    solution_str: &'static str,
    solution_chars: [char; NUM_LETTERS],
    guesses: ArrayVec<String, MAX_GUESSES>,
}

impl Game {
    /// The hidden solution.
    pub closed spec fn solution(&self) -> Seq<char> {
        self.solution_str@
    }

    /// The accepted guesses in lowercase, oldest first.
    pub closed spec fn history(&self) -> Seq<Seq<char>> {
        history_words(self.guesses)
    }

    /// The solution has the length of a word and the history is within its bound.
    pub closed spec fn wf(&self) -> bool {
        &&& self.solution_chars@ == self.solution_str@
        &&& self.solution_str@.len() == NUM_LETTERS
        &&& self.history().len() <= MAX_GUESSES
    }

    /// The most recent guess is the solution.
    pub open spec fn solved(&self) -> bool {
        self.history().len() > 0 && self.history().last() == self.solution()
    }

    /// The number of guesses that the puzzle still accepts.
    pub open spec fn remaining(&self) -> int {
        MAX_GUESSES - self.history().len()
    }

    /// No guess remains and the puzzle is not solved.
    pub open spec fn exhausted(&self) -> bool {
        !self.solved() && self.remaining() == 0
    }

    /// The puzzle is neither solved nor exhausted: it accepts a guess.
    pub open spec fn active(&self) -> bool {
        !self.solved() && self.remaining() > 0
    }

    /// What `wf` says of the solution and the history.
    pub proof fn lemma_wf(&self)
        requires
            self.wf(),
        ensures
            self.solution().len() == NUM_LETTERS,
            self.history().len() <= MAX_GUESSES,
    {
    }

    /// Whether a puzzle is solved and how many guesses it still accepts
    /// depend on its solution and its history alone: as long as no guess is
    /// accepted, both stay as they are.
    pub proof fn lemma_status_by_history(&self, other: &Game)
        requires
            self.solution() == other.solution(),
            self.history() == other.history(),
        ensures
            self.solved() == other.solved(),
            self.remaining() == other.remaining(),
    {
    }

    /// Starts a puzzle with the given solution, which must have the length of
    /// a word and be one of the words of `universe`.
    pub fn new(solution: &'static str, universe: &[&'static str]) -> (game: Game)
        requires
            has_word_length(solution),
            views(universe@).contains(solution@),
        ensures
            game.wf(),
            game.solution() == solution@,
            game.history() == Seq::<Seq<char>>::empty(),
    {
        let chars: [char; NUM_LETTERS] = [
            solution.get_char(0),
            solution.get_char(1),
            solution.get_char(2),
            solution.get_char(3),
            solution.get_char(4),
        ];
        assert(chars@ =~= solution@);
        Game { solution_str: solution, solution_chars: chars, guesses: history_new() }
    }

    /// Starts a puzzle if `solution` has the length of a word and is one of
    /// the words of `universe`, and tells so otherwise.
    pub fn try_new(solution: &'static str, universe: &[&'static str]) -> (r: Option<Game>)
        ensures
            r.is_some() == (has_word_length(solution) && views(universe@).contains(solution@)),
            r matches Some(game) ==> game.wf() && game.solution() == solution@
                && game.history() == Seq::<Seq<char>>::empty(),
    {
        if solution.as_bytes().len() != NUM_LETTERS || solution.unicode_len() != NUM_LETTERS {
            return None;
        }
        let mut i: usize = 0;
        while i < universe.len()
            invariant
                has_word_length(solution),
                i <= universe.len(),
                forall|j: int| 0 <= j < i ==> (#[trigger] universe@[j])@ != solution@,
            decreases universe.len() - i,
        {
            if same_word(universe[i], solution) {
                assert(views(universe@)[i as int] == solution@);
                return Some(Game::new(solution, universe));
            }
            i += 1;
        }
        assert(!views(universe@).contains(solution@)) by {
            if views(universe@).contains(solution@) {
                let j = choose|j: int| 0 <= j < views(universe@).len() && views(universe@)[j] == solution@;
                assert(universe@[j]@ == solution@);
            }
        }
        None
    }

    /// Submits a guess. A solved puzzle refuses it, then one without guesses
    /// left, then a guess that has not the length of a word; each refusal
    /// leaves the puzzle as it was. An accepted guess enters the history in
    /// lowercase and earns the feedback of its letters as they were given.
    pub fn try_guess(&mut self, guess: &str) -> (r: Result<[GuessResult; NUM_LETTERS], GuessError>)
        requires
            old(self).wf(),
        ensures
            final(self).wf(),
            final(self).solution() == old(self).solution(),
            match r {
                Err(GuessError::AlreadySolved) => old(self).solved() && *final(self) == *old(self),
                Err(GuessError::TooManyGuesses) => old(self).exhausted() && *final(self) == *old(
                    self,
                ),
                Err(GuessError::IllegalWord) => old(self).active() && !has_word_length(guess)
                    && *final(self) == *old(self),
                Ok(feedback) => old(self).active() && has_word_length(guess)
                    && final(self).history() == old(self).history().push(lowered(guess@))
                    && feedback@ == feedback_for(old(self).solution(), guess@),
            },
    {
        if self.is_solved() {
            return Err(GuessError::AlreadySolved);
        }
        if self.remaining_guesses() == 0 {
            return Err(GuessError::TooManyGuesses);
        }
        if guess.as_bytes().len() != NUM_LETTERS || guess.unicode_len() != NUM_LETTERS {
            return Err(GuessError::IllegalWord);
        }
        history_push(&mut self.guesses, ascii_lowercase(guess));
        let mut symbols: Vec<GuessResult> = Vec::new();
        let mut i: usize = 0;
        while i < NUM_LETTERS
            invariant
                self.wf(),
                guess@.len() == NUM_LETTERS,
                i <= NUM_LETTERS,
                symbols@.len() == i,
                forall|k: int|
                    0 <= k < i ==> symbols@[k] == symbol_for(self.solution(), guess@[k], k),
            decreases NUM_LETTERS - i,
        {
            symbols.push(self.symbol(guess.get_char(i), i));
            i += 1;
        }
        assert(symbols@ =~= feedback_for(self.solution(), guess@));
        Ok(into_feedback(symbols))
    }

    /// The feedback for one letter guessed at one position.
    fn symbol(&self, c: char, position: usize) -> (s: GuessResult)
        requires
            self.wf(),
            position < NUM_LETTERS,
        ensures
            s == symbol_for(self.solution(), c, position as int),
    {
        if self.solution_chars[position] == c {
            GuessResult::Hit(c)
        } else if word_contains(self.solution_str, c) {
            GuessResult::Partial(c)
        } else {
            GuessResult::Miss(c)
        }
    }

    /// Whether the most recent guess is the solution.
    pub fn is_solved(&self) -> (solved: bool)
        ensures
            solved == self.solved(),
    {
        match history_last(&self.guesses) {
            Some(word) => same_word(word.as_str(), self.solution_str),
            None => false,
        }
    }

    /// The number of guesses that the puzzle still accepts.
    pub fn remaining_guesses(&self) -> (n: usize)
        requires
            self.wf(),
        ensures
            n == self.remaining(),
    {
        MAX_GUESSES - history_len(&self.guesses)
    }
}

} // verus!
