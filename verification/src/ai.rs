//! The player: it draws guesses from a candidate pool, submits them to a
//! puzzle and narrows the pool by the feedback.

use vstd::prelude::*;
use crate::game::{feedback_for, symbol_for, Game, GuessError, GuessResult};
use crate::word_picker::{lemma_rearranged_holds, ranked, survivors, Rule, WordPicker};
use crate::words::{
    all_words, is_lower, is_word, lemma_lowered_lowercase, lemma_word_bytes, views, MAX_GUESSES,
    NUM_LETTERS,
};

verus! {

/// The letter that a feedback symbol speaks of.
pub open spec fn letter_of(symbol: GuessResult) -> char {
    match symbol {
        GuessResult::Hit(c) => c,
        GuessResult::Partial(c) => c,
        GuessResult::Miss(c) => c,
    }
}

/// The elimination rule that a feedback symbol at a position calls for.
pub open spec fn rule_for(symbol: GuessResult, position: usize) -> Rule {
    match symbol {
        GuessResult::Hit(c) => Rule::At(c, position),
        GuessResult::Partial(c) => Rule::With(c),
        GuessResult::Miss(c) => Rule::Without(c),
    }
}

/// The pool after the rules of the first `n` feedback symbols were applied
/// to it, from left to right.
pub open spec fn narrowed(pool: Seq<Seq<char>>, feedback: Seq<GuessResult>, n: nat) -> Seq<
    Seq<char>,
>
    decreases n,
{
    if n == 0 {
        pool
    } else {
        survivors(
            narrowed(pool, feedback, (n - 1) as nat),
            rule_for(feedback[n - 1], (n - 1) as usize),
        )
    }
}

/// With more than three attempts left the player takes the last word of the
/// pool; with three or fewer it may take the word at any index.
pub open spec fn may_pick(pool: Seq<Seq<char>>, attempts: nat, i: int) -> bool {
    0 <= i < pool.len() && (attempts > 3 ==> i == pool.len() - 1)
}

/// The attempts left after a number of rounds that the puzzle accepted: one
/// less for each round, and never less than none.
pub open spec fn attempts_after(attempts: nat, rounds: nat) -> nat {
    if attempts >= rounds {
        (attempts - rounds) as nat
    } else {
        0
    }
}

/// What one round does when the player takes the word at index `i` of its
/// pool: the word leaves the pool; a refusal of the puzzle changes nothing
/// else; an accepted guess enters the history, its feedback narrows the pool
/// and one attempt is spent.
pub open spec fn round_outcome(
    pool: Seq<Seq<char>>,
    attempts: nat,
    i: int,
    before: Game,
    after: Game,
    pool_after: Seq<Seq<char>>,
    attempts_left: nat,
    r: Result<(), GuessError>,
) -> bool {
    let guess = pool[i];
    let rest = pool.remove(i);
    match r {
        Err(GuessError::AlreadySolved) => before.solved() && after == before && pool_after == rest
            && attempts_left == attempts,
        Err(GuessError::TooManyGuesses) => before.exhausted() && after == before && pool_after
            == rest && attempts_left == attempts,
        Err(GuessError::IllegalWord) => false,
        Ok(_) => before.active() && after.history() == before.history().push(guess)
            && pool_after == narrowed(
            rest,
            feedback_for(before.solution(), guess),
            NUM_LETTERS as nat,
        ) && attempts_left == attempts_after(attempts, 1),
    }
}

/// The rule drawn from the feedback of any letter at any position keeps the
/// solution that gave the feedback.
pub proof fn lemma_rule_keeps_solution(solution: Seq<char>, c: char, position: usize)
    ensures
        rule_for(symbol_for(solution, c, position as int), position).keeps(solution),
{
}

/// Narrowing a pool by the feedback that a solution gave to a guess never
/// removes that solution from the pool.
pub proof fn lemma_narrowing_keeps_solution(
    pool: Seq<Seq<char>>,
    solution: Seq<char>,
    guess: Seq<char>,
    n: nat,
)
    requires
        pool.contains(solution),
        guess.len() == NUM_LETTERS,
        n <= NUM_LETTERS,
    ensures
        narrowed(pool, feedback_for(solution, guess), n).contains(solution),
    decreases n,
{
    if n > 0 {
        let m = (n - 1) as nat;
        lemma_narrowing_keeps_solution(pool, solution, guess, m);
        let prior = narrowed(pool, feedback_for(solution, guess), m);
        let rule = rule_for(feedback_for(solution, guess)[m as int], m as usize);
        lemma_rule_keeps_solution(solution, guess[m as int], m as usize);
        let j = choose|j: int| 0 <= j < prior.len() && prior[j] == solution;
        prior.lemma_filter_contains(|w: Seq<char>| rule.keeps(w), j);
    }
}

/// Narrowing a pool never makes it longer.
pub proof fn lemma_narrowing_shrinks(pool: Seq<Seq<char>>, feedback: Seq<GuessResult>, n: nat)
    ensures
        narrowed(pool, feedback, n).len() <= pool.len(),
    decreases n,
{
    if n > 0 {
        let m = (n - 1) as nat;
        lemma_narrowing_shrinks(pool, feedback, m);
        let rule = rule_for(feedback[m as int], m as usize);
        narrowed(pool, feedback, m).lemma_filter_len(|w: Seq<char>| rule.keeps(w));
    }
}

/// The automated player.
#[derive(Debug)]
pub struct Ai {
    word_picker: WordPicker,
    remaining_guesses: usize,
}

impl Ai {
    /// The candidate words, in the order of the pool.
    pub closed spec fn pool(&self) -> Seq<Seq<char>> {
        self.word_picker@
    }

    /// The attempts that the player counts as left.
    pub closed spec fn attempts(&self) -> nat {
        self.remaining_guesses as nat
    }

    /// The pool is in order of rank and holds words of the puzzle.
    pub open spec fn wf(&self) -> bool {
        ranked(self.pool()) && all_words(self.pool())
    }

    /// A player with a fresh pool over `universe` and all attempts left.
    pub fn new(universe: &[&'static str]) -> (ai: Ai)
        requires
            all_words(views(universe@)),
        ensures
            ai.wf(),
            ai.attempts() == MAX_GUESSES,
            ai.pool().to_multiset() == views(universe@).to_multiset(),
    {
        Ai { word_picker: WordPicker::new(universe), remaining_guesses: MAX_GUESSES }
    }

    /// The number of candidate words.
    pub fn candidates(&self) -> (n: usize)
        ensures
            n == self.pool().len(),
    {
        self.word_picker.len()
    }

    /// Takes the next guess out of the pool: the best-ranked word while more
    /// than three attempts are left, a random one after that.
    pub fn next_guess(&mut self) -> (word: &'static str)
        requires
            old(self).wf(),
            old(self).pool().len() > 0,
        ensures
            final(self).wf(),
            final(self).attempts() == old(self).attempts(),
            exists|i: int|
                may_pick(old(self).pool(), old(self).attempts(), i) && word@ == old(self).pool()[i]
                    && final(self).pool() == #[trigger] old(self).pool().remove(i),
    {
        if self.remaining_guesses <= 3 {
            self.word_picker.pick_random().unwrap()
        } else {
            proof {
                let last = self.pool().len() - 1;
                assert(self.pool().remove(last) =~= self.pool().drop_last());
            }
            self.word_picker.pick_best_word().unwrap()
        }
    }

    /// Narrows the pool by each symbol of a feedback, from left to right: a
    /// hit keeps the words with the letter at that position, a partial match
    /// those with the letter anywhere, a miss those without it.
    pub fn apply_feedback(&mut self, feedback: &[GuessResult; NUM_LETTERS])
        requires
            old(self).wf(),
            forall|k: int| 0 <= k < NUM_LETTERS ==> is_lower(letter_of(#[trigger] feedback@[k])),
        ensures
            final(self).wf(),
            final(self).attempts() == old(self).attempts(),
            final(self).pool() == narrowed(old(self).pool(), feedback@, NUM_LETTERS as nat),
            final(self).pool().len() <= old(self).pool().len(),
    {
        let mut k: usize = 0;
        while k < NUM_LETTERS
            invariant
                k <= NUM_LETTERS,
                self.wf(),
                self.attempts() == old(self).attempts(),
                self.pool() == narrowed(old(self).pool(), feedback@, k as nat),
                self.pool().len() <= old(self).pool().len(),
                forall|j: int|
                    0 <= j < NUM_LETTERS ==> is_lower(letter_of(#[trigger] feedback@[j])),
            decreases NUM_LETTERS - k,
        {
            assert(is_lower(letter_of(feedback@[k as int])));
            match &feedback[k] {
                GuessResult::Hit(required_char) => {
                    self.word_picker.remove_words_without_letter_in_position(*required_char, k)
                },
                GuessResult::Partial(partial_char) => {
                    self.word_picker.remove_words_not_containing(*partial_char)
                },
                GuessResult::Miss(illegal_char) => {
                    self.word_picker.remove_words_containing(*illegal_char)
                },
            }
            k += 1;
        }
    }

    /// Plays one round: takes the next guess, submits it to the puzzle and,
    /// if the puzzle accepts it, narrows the pool by the feedback and spends
    /// one attempt. A refusal of the puzzle is handed on as it is.
    pub fn guess(&mut self, game: &mut Game) -> (r: Result<(), GuessError>)
        requires
            old(self).wf(),
            old(self).pool().len() > 0,
            old(game).wf(),
        ensures
            final(self).wf(),
            final(game).wf(),
            final(game).solution() == old(game).solution(),
            exists|i: int|
                #![trigger old(self).pool().remove(i)]
                may_pick(old(self).pool(), old(self).attempts(), i) && round_outcome(
                    old(self).pool(),
                    old(self).attempts(),
                    i,
                    *old(game),
                    *final(game),
                    final(self).pool(),
                    final(self).attempts(),
                    r,
                ),
    {
        let attempt: &'static str = self.next_guess();
        let ghost i = choose|i: int|
            may_pick(old(self).pool(), old(self).attempts(), i) && attempt@ == old(self).pool()[i]
                && self.pool() == #[trigger] old(self).pool().remove(i);
        proof {
            assert(is_word(old(self).pool()[i]));
            lemma_word_bytes(attempt);
            lemma_lowered_lowercase(attempt@);
        }
        match game.try_guess(attempt) {
            Err(e) => Err(e),
            Ok(result) => {
                assert forall|k: int| 0 <= k < NUM_LETTERS implies is_lower(
                    letter_of(#[trigger] result@[k]),
                ) by {
                    assert(is_lower(attempt@[k]));
                }
                self.apply_feedback(&result);
                if self.remaining_guesses > 0 {
                    self.remaining_guesses -= 1;
                }
                Ok(())
            },
        }
    }

    /// Plays rounds until the puzzle is solved or accepts no more guesses,
    /// and tells whether it was solved. The pool must hold the solution
    /// unless the puzzle is solved already; it then never runs dry, and the
    /// puzzle refuses no guess.
    pub fn solve(&mut self, game: &mut Game) -> (solved: bool)
        requires
            old(self).wf(),
            old(game).wf(),
            !old(game).solved() ==> old(self).pool().contains(old(game).solution()),
        ensures
            final(self).wf(),
            final(game).wf(),
            final(game).solution() == old(game).solution(),
            solved == final(game).solved(),
            !final(game).active(),
            old(game).history().len() <= final(game).history().len() <= MAX_GUESSES,
            final(self).pool().len() + final(game).history().len() <= old(self).pool().len()
                + old(game).history().len(),
            final(self).attempts() == attempts_after(
                old(self).attempts(),
                (final(game).history().len() - old(game).history().len()) as nat,
            ),
    {
        proof {
            game.lemma_wf();
        }
        while !game.is_solved() && game.remaining_guesses() > 0
            invariant
                self.wf(),
                game.wf(),
                game.solution() == old(game).solution(),
                !game.solved() ==> self.pool().contains(game.solution()),
                old(game).history().len() <= game.history().len() <= MAX_GUESSES,
                self.pool().len() + game.history().len() <= old(self).pool().len() + old(
                    game,
                ).history().len(),
                self.attempts() == attempts_after(
                    old(self).attempts(),
                    (game.history().len() - old(game).history().len()) as nat,
                ),
            decreases game.remaining(),
        {
            let ghost pool = self.pool();
            let ghost attempts = self.attempts();
            let ghost before = *game;
            let r = self.guess(game);
            proof {
                let i = choose|i: int|
                    #![trigger pool.remove(i)]
                    may_pick(pool, attempts, i) && round_outcome(
                        pool,
                        attempts,
                        i,
                        before,
                        *game,
                        self.pool(),
                        self.attempts(),
                        r,
                    );
                assert(r is Ok);
                let solution = before.solution();
                lemma_narrowing_shrinks(
                    pool.remove(i),
                    feedback_for(solution, pool[i]),
                    NUM_LETTERS as nat,
                );
                if pool[i] != solution {
                    let j = choose|j: int| 0 <= j < pool.len() && pool[j] == solution;
                    let rest = pool.remove(i);
                    if j < i {
                        assert(rest[j] == solution);
                    } else {
                        assert(rest[j - 1] == solution);
                    }
                    assert(is_word(pool[i]));
                    lemma_narrowing_keeps_solution(rest, solution, pool[i], NUM_LETTERS as nat);
                }
            }
        }
        game.is_solved()
    }
}

/// Plays one whole puzzle: a fresh player over `universe` against a fresh
/// puzzle with `solution`, round after round. It ends, with the puzzle solved
/// or all its guesses spent, for every solution that is a word of the
/// universe.
pub fn play(solution: &'static str, universe: &[&'static str]) -> (game: Game)
    requires
        all_words(views(universe@)),
        views(universe@).contains(solution@),
    ensures
        game.wf(),
        game.solution() == solution@,
        !game.active(),
{
    let mut solver = Ai::new(universe);
    proof {
        let j = choose|j: int|
            0 <= j < views(universe@).len() && views(universe@)[j] == solution@;
        assert(is_word(views(universe@)[j]));
        lemma_word_bytes(solution);
        lemma_rearranged_holds(views(universe@), solver.pool(), solution@);
    }
    let mut game = Game::new(solution, universe);
    solver.solve(&mut game);
    game
}

} // verus!
