use word_puzzle::game::{Game, GuessError, GuessResult};

const WORDS: [&str; 16] = [
    "those", "troll", "weigh", "hotel", "lathe", "crane", "slate", "eerie", "mamma", "level",
    "about", "zebra", "queue", "fuzzy", "stone", "world",
];

#[test]
fn game_new_works() {
    Game::new(WORDS[0], &WORDS);
}

#[test]
fn game_guess_hit_miss_works() {
    let mut game = Game::new("those", &WORDS);
    assert_eq!(
        game.try_guess("troll"),
        Ok([
            GuessResult::Hit('t'),
            GuessResult::Miss('r'),
            GuessResult::Hit('o'),
            GuessResult::Miss('l'),
            GuessResult::Miss('l'),
        ])
    );
}

#[test]
fn game_guess_all_miss_works() {
    let mut game = Game::new("weigh", &WORDS);
    assert_eq!(
        game.try_guess("troll"),
        Ok([
            GuessResult::Miss('t'),
            GuessResult::Miss('r'),
            GuessResult::Miss('o'),
            GuessResult::Miss('l'),
            GuessResult::Miss('l'),
        ])
    );
}

#[test]
fn game_guess_mostly_partial_works() {
    let mut game = Game::new("hotel", &WORDS);
    assert_eq!(
        game.try_guess("lathe"),
        Ok([
            GuessResult::Partial('l'),
            GuessResult::Miss('a'),
            GuessResult::Hit('t'),
            GuessResult::Partial('h'),
            GuessResult::Partial('e'),
        ])
    );
}

#[test]
fn repeated_letter_is_partial_at_every_occurrence() {
    let mut game = Game::new("world", &WORDS);
    assert_eq!(
        game.try_guess("troll"),
        Ok([
            GuessResult::Miss('t'),
            GuessResult::Partial('r'),
            GuessResult::Partial('o'),
            GuessResult::Hit('l'),
            GuessResult::Partial('l'),
        ])
    );
}

#[test]
fn fresh_game_has_all_guesses_and_is_unsolved() {
    let game = Game::new("crane", &WORDS);
    assert!(!game.is_solved());
    assert_eq!(game.remaining_guesses(), 6);
}

#[test]
fn each_accepted_guess_spends_one() {
    let mut game = Game::new("crane", &WORDS);
    assert!(game.try_guess("slate").is_ok());
    assert_eq!(game.remaining_guesses(), 5);
    assert!(game.try_guess("about").is_ok());
    assert_eq!(game.remaining_guesses(), 4);
    assert!(!game.is_solved());
}

#[test]
fn matching_guess_solves() {
    let mut game = Game::new("crane", &WORDS);
    assert_eq!(
        game.try_guess("crane"),
        Ok([
            GuessResult::Hit('c'),
            GuessResult::Hit('r'),
            GuessResult::Hit('a'),
            GuessResult::Hit('n'),
            GuessResult::Hit('e'),
        ])
    );
    assert!(game.is_solved());
    assert_eq!(game.remaining_guesses(), 5);
}

#[test]
fn only_the_latest_guess_decides_solved() {
    let mut game = Game::new("crane", &WORDS);
    assert!(game.try_guess("slate").is_ok());
    assert!(!game.is_solved());
    assert!(game.try_guess("crane").is_ok());
    assert!(game.is_solved());
}

#[test]
fn solved_game_refuses_and_stays() {
    let mut game = Game::new("crane", &WORDS);
    assert!(game.try_guess("crane").is_ok());
    assert_eq!(game.try_guess("slate"), Err(GuessError::AlreadySolved));
    assert_eq!(game.try_guess("toolong"), Err(GuessError::AlreadySolved));
    assert!(game.is_solved());
    assert_eq!(game.remaining_guesses(), 5);
}

#[test]
fn exhausted_game_refuses_and_stays() {
    let mut game = Game::new("crane", &WORDS);
    for _ in 0..6 {
        assert!(game.try_guess("slate").is_ok());
    }
    assert_eq!(game.remaining_guesses(), 0);
    assert_eq!(game.try_guess("crane"), Err(GuessError::TooManyGuesses));
    assert_eq!(game.try_guess("abc"), Err(GuessError::TooManyGuesses));
    assert_eq!(game.remaining_guesses(), 0);
    assert!(!game.is_solved());
}

#[test]
fn solved_on_last_guess_reports_already_solved() {
    let mut game = Game::new("crane", &WORDS);
    for _ in 0..5 {
        assert!(game.try_guess("slate").is_ok());
    }
    assert!(game.try_guess("crane").is_ok());
    assert_eq!(game.remaining_guesses(), 0);
    assert_eq!(game.try_guess("slate"), Err(GuessError::AlreadySolved));
}

#[test]
fn wrong_length_is_illegal_and_spends_nothing() {
    let mut game = Game::new("crane", &WORDS);
    assert_eq!(game.try_guess(""), Err(GuessError::IllegalWord));
    assert_eq!(game.try_guess("abcd"), Err(GuessError::IllegalWord));
    assert_eq!(game.try_guess("abcdef"), Err(GuessError::IllegalWord));
    assert_eq!(game.remaining_guesses(), 6);
    assert!(!game.is_solved());
}

#[test]
fn multibyte_guess_is_illegal() {
    let mut game = Game::new("crane", &WORDS);
    // five characters, six bytes
    assert_eq!(game.try_guess("cr\u{e4}ne"), Err(GuessError::IllegalWord));
    // five bytes, four characters
    assert_eq!(game.try_guess("cr\u{e4}n"), Err(GuessError::IllegalWord));
    assert_eq!(game.remaining_guesses(), 6);
}

#[test]
fn uppercase_guess_is_recorded_in_lowercase() {
    let mut game = Game::new("those", &WORDS);
    assert_eq!(
        game.try_guess("THOSE"),
        Ok([
            GuessResult::Miss('T'),
            GuessResult::Miss('H'),
            GuessResult::Miss('O'),
            GuessResult::Miss('S'),
            GuessResult::Miss('E'),
        ])
    );
    assert!(game.is_solved());
}

#[test]
fn accessors_repeat_their_answer() {
    let mut game = Game::new("those", &WORDS);
    assert!(game.try_guess("troll").is_ok());
    let solved = game.is_solved();
    let left = game.remaining_guesses();
    assert_eq!(game.is_solved(), solved);
    assert_eq!(game.remaining_guesses(), left);
    assert_eq!(game.is_solved(), solved);
    assert_eq!(game.remaining_guesses(), left);
}

#[test]
fn try_new_accepts_a_word_of_the_universe() {
    let game = Game::try_new("zebra", &WORDS);
    assert!(game.is_some());
    let mut game = game.unwrap();
    assert_eq!(game.remaining_guesses(), 6);
    assert!(game.try_guess("zebra").is_ok());
    assert!(game.is_solved());
}

#[test]
fn try_new_refuses_strangers_and_wrong_lengths() {
    assert!(Game::try_new("audio", &WORDS).is_none());
    assert!(Game::try_new("zebras", &WORDS).is_none());
    assert!(Game::try_new("", &WORDS).is_none());
    assert!(Game::try_new("zebra", &[]).is_none());
    let odd: [&str; 2] = ["zebras", "cr\u{e4}ne"];
    assert!(Game::try_new("zebras", &odd).is_none());
    assert!(Game::try_new("cr\u{e4}ne", &odd).is_none());
}
