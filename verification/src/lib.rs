//! A solver for five-letter word-guessing puzzles: feedback codes, the
//! filter that keeps the answers a code allows, the tally that a guess is
//! ranked by, and the rounds of one game.
pub mod feedback;
pub mod filter;
pub mod select;
pub mod solver;
pub mod word;
pub mod wordlist;

pub use feedback::compare;
pub use filter::eliminate;
pub use select::{guess, tally};
pub use solver::Solver;
pub use word::{same_word, vocabulary, word_of, Word};
pub use wordlist::{read_words, words_of, ListError};
