//! A solver for a five-letter word-guessing puzzle: the puzzle state machine,
//! the candidate pool that feedback narrows, and the player that drives both.

pub mod words;
pub mod history;
pub mod game;
pub mod word_picker;
pub mod ai;
