//! An information-theoretic solver for a five-letter word-guessing game,
//! including the variant in which one tile of every feedback row is a lie.
//!
//! A [`Dictionary`] holds the allowed guesses and the possible secrets. A
//! [`Wordle`] is one round: it scores guesses against its secret and keeps
//! the rows. [`remaining_secrets`] filters the secrets by the rows of a
//! round, [`analyze_guess_against`] counts how a guess splits a set of
//! candidates into feedback patterns, [`best_information_guess`] picks the
//! guess to make next, and [`top_candidates`] lists the candidates that
//! tell most.

pub mod bignat;
pub mod candidates;
pub mod code;
pub mod entropy;
pub mod game;
pub mod letters;
pub mod lie;
pub mod pattern;
pub mod ranking;
pub mod selector;
pub mod text;
pub mod wordlist;
pub mod words;

pub use crate::bignat::BigNat;
pub use crate::candidates::{
    fibble_guess_matches, fibble_history_matches, remaining_secrets, secret_matches_history,
};
pub use crate::code::{encode_pattern, pattern_code_to_string};
pub use crate::entropy::{analyze_guess, analyze_guess_against, GuessEntropy};
pub use crate::game::{GameMode, Wordle};
pub use crate::letters::{score, GuessResult, LetterState};
pub use crate::lie::{apply_fibble_lie, apply_lie_at, lie_state, random_lie_state};
pub use crate::pattern::{compute_pattern_digits, letter_index, WORD_LENGTH};
pub use crate::ranking::top_candidates;
pub use crate::selector::{
    best_guess_among, best_information_guess, scan_allowed_guesses, sole_candidate, Ranked,
};
pub use crate::wordlist::word_list_from_text;
pub use crate::words::{
    allowed_words, ensure_allowed, normalize, secret_words, Dictionary, WordleError,
};
