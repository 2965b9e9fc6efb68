//! A Wordle simulator and solver: a feedback oracle that scores guesses
//! against a secret word, and a solver that accumulates that feedback into
//! constraints, filters a dictionary and ranks the candidates left.

pub mod dictionary;
pub mod game;
pub mod histogram;
pub mod protocol;
pub mod selfplay;
pub mod solver;
pub mod word;

pub use dictionary::{load_words, parse_word_list};
pub use game::{Game, GameError, GameResult, LetterResult, MAX_ATTEMPTS};
pub use histogram::{LetterHists, calc_letter_hist, calc_optimal_first_word, score_word};
pub use protocol::{result_from_codes, result_from_marks};
pub use selfplay::{PlayStats, play_against_self};
pub use solver::Solver;
pub use word::{N_LETTERS, Word, str_to_word, word_to_string};
