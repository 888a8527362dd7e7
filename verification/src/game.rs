//! A round of the game: the secret, the rules in force, and the rows so far.

use vstd::prelude::*;
use vstd::string::*;
use crate::letters::{
    differing_tiles, is_word, row_ok, score, score_tiles, GuessResult, GuessRow, LetterState,
};
use crate::lie::{
    apply_fibble_lie, apply_lie_at, is_single_lie, lemma_lied_tiles, lied_tiles,
};
use crate::pattern::WORD_LENGTH;
use crate::text::trimmed;
use crate::words::{ensure_allowed, normalize, normalized, Dictionary, WordleError};

verus! {

/// The rules that the feedback follows.
#[derive(Debug, Clone, Copy, PartialEq, Eq, Structural)]
pub enum GameMode {
    /// Every row reports the true pattern.
    Wordle,
    /// Every row reports the true pattern with exactly one tile changed.
    Fibble,
}

/// What a round holds.
pub struct GameView {
    pub secret: Seq<char>,
    pub mode: GameMode,
    pub rows: Seq<GuessRow>,
}

/// The rows of a list of scored guesses.
pub open spec fn rows_of(list: Seq<GuessResult>) -> Seq<GuessRow> {
    Seq::new(list.len(), |i: int| list[i]@)
}

/// Whether a row could have been reported if `candidate` were the secret:
/// under the strict rules the row is the true pattern, under the lying rules
/// it differs from the true pattern in exactly one tile.
pub open spec fn row_matches(mode: GameMode, candidate: Seq<char>, row: GuessRow) -> bool {
    match mode {
        GameMode::Wordle => score_tiles(candidate, row.guess) == row.letters,
        GameMode::Fibble => differing_tiles(
            score_tiles(candidate, row.guess),
            row.letters,
            row.letters.len() as int,
        ) == 1,
    }
}

/// Whether every row, taken by itself, could have been reported if
/// `candidate` were the secret.
pub open spec fn history_matches(mode: GameMode, candidate: Seq<char>, rows: Seq<GuessRow>) -> bool {
    forall|i: int| 0 <= i < rows.len() ==> row_matches(mode, candidate, #[trigger] rows[i])
}

/// Every row has the shape of a row.
pub open spec fn rows_ok(rows: Seq<GuessRow>) -> bool {
    forall|i: int| 0 <= i < rows.len() ==> row_ok(#[trigger] rows[i])
}

/// A round holds a word as its secret and rows that the rules allow for
/// that secret.
pub open spec fn game_ok(game: GameView) -> bool {
    &&& is_word(game.secret)
    &&& rows_ok(game.rows)
    &&& history_matches(game.mode, game.secret, game.rows)
}

/// A round of the game.
#[derive(Debug)]
pub struct Wordle {
    secret: String,
    mode: GameMode,
    guesses: Vec<GuessResult>,
}

impl View for Wordle {
    type V = GameView;

    closed spec fn view(&self) -> GameView {
        GameView { secret: self.secret@, mode: self.mode, rows: rows_of(self.guesses@) }
    }
}

impl Clone for Wordle {
    fn clone(&self) -> (copy: Self)
        ensures
            copy@ == self@,
    {
        proof {
            use_type_invariant(self);
        }
        let mut guesses: Vec<GuessResult> = Vec::new();
        let mut idx: usize = 0;
        while idx < self.guesses.len()
            invariant
                idx <= self.guesses.len(),
                rows_of(guesses@) == rows_of(self.guesses@).subrange(0, idx as int),
            decreases self.guesses.len() - idx,
        {
            let ghost before = rows_of(guesses@);
            guesses.push(self.guesses[idx].clone());
            proof {
                assert(rows_of(guesses@) =~= before.push(self.guesses@[idx as int]@));
                assert(rows_of(guesses@) =~= rows_of(self.guesses@).subrange(0, idx + 1));
            }
            idx += 1;
        }
        proof {
            assert(rows_of(guesses@) =~= rows_of(self.guesses@));
        }
        Wordle { secret: self.secret.clone(), mode: self.mode, guesses }
    }
}

/// What a typed word is turned down with, if it is: its length after
/// trimming where that is not five, else the word itself where it is no
/// allowed guess.
pub open spec fn rejection(dictionary: Dictionary, text: Seq<char>, error: WordleError) -> bool {
    match error {
        WordleError::InvalidLength { expected, found } => {
            &&& trimmed(text).len() != WORD_LENGTH
            &&& expected == WORD_LENGTH
            &&& found == trimmed(text).len()
        },
        WordleError::UnknownWord { word } => {
            &&& trimmed(text).len() == WORD_LENGTH
            &&& !dictionary@.allowed.contains(normalized(text))
            &&& word@ == normalized(text)
        },
        WordleError::FatalConfig { .. } => false,
    }
}

/// A typed word is accepted if it has five characters after trimming and its
/// normal form is an allowed guess.
pub open spec fn accepted(dictionary: Dictionary, text: Seq<char>) -> bool {
    &&& trimmed(text).len() == WORD_LENGTH
    &&& dictionary@.allowed.contains(normalized(text))
}

/// Normalises a typed word and looks it up among the allowed guesses.
pub fn validate(dictionary: &Dictionary, text: &str) -> (result: Result<String, WordleError>)
    ensures
        match result {
            Ok(word) => accepted(*dictionary, text@) && word@ == normalized(text@) && is_word(word@),
            Err(error) => rejection(*dictionary, text@, error),
        },
{
    let word = match normalize(text) {
        Ok(word) => word,
        Err(error) => {
            return Err(error);
        },
    };
    match ensure_allowed(dictionary, word.as_str()) {
        Ok(_) => {},
        Err(error) => {
            return Err(error);
        },
    }
    proof {
        use_type_invariant(dictionary);
    }
    Ok(word)
}

impl Wordle {
    /// The round keeps to the rules of a round.
    #[verifier::type_invariant]
    pub open spec fn wf(&self) -> bool {
        game_ok(self@)
    }

    /// Starts a round under the strict rules with the given secret.
    pub fn new(dictionary: &Dictionary, secret: &str) -> (result: Result<Wordle, WordleError>)
        ensures
            match result {
                Ok(game) => {
                    &&& accepted(*dictionary, secret@)
                    &&& game.wf()
                    &&& game@ == (GameView {
                        secret: normalized(secret@),
                        mode: GameMode::Wordle,
                        rows: Seq::empty(),
                    })
                },
                Err(error) => rejection(*dictionary, secret@, error),
            },
    {
        Wordle::new_with_mode(dictionary, secret, GameMode::Wordle)
    }

    /// Starts a round under the given rules with the given secret.
    pub fn new_with_mode(dictionary: &Dictionary, secret: &str, mode: GameMode) -> (result: Result<
        Wordle,
        WordleError,
    >)
        ensures
            match result {
                Ok(game) => {
                    &&& accepted(*dictionary, secret@)
                    &&& game.wf()
                    &&& game@ == (GameView {
                        secret: normalized(secret@),
                        mode,
                        rows: Seq::empty(),
                    })
                },
                Err(error) => rejection(*dictionary, secret@, error),
            },
    {
        let normalized_secret = match validate(dictionary, secret) {
            Ok(word) => word,
            Err(error) => {
                return Err(error);
            },
        };
        let guesses: Vec<GuessResult> = Vec::new();
        proof {
            assert(rows_of(guesses@) =~= Seq::<GuessRow>::empty());
        }
        Ok(Wordle { secret: normalized_secret, mode, guesses })
    }

    /// The rows recorded so far, oldest first.
    pub fn guesses(&self) -> (rows: &[GuessResult])
        ensures
            rows_of(rows@) == self@.rows,
    {
        self.guesses.as_slice()
    }

    /// The secret, in upper case.
    pub fn secret(&self) -> (text: &str)
        ensures
            text@ == self@.secret,
            is_word(text@),
    {
        proof {
            use_type_invariant(self);
        }
        self.secret.as_str()
    }

    /// The rules of this round.
    pub fn mode(&self) -> (mode: GameMode)
        ensures
            mode == self@.mode,
    {
        self.mode
    }

    /// Records a guess and returns its row. Under the strict rules the row
    /// is the true pattern; under the lying rules one tile of it, picked at
    /// random, is replaced by one of the two states it is not in. A guess
    /// that is turned down leaves the round as it was.
    pub fn submit_guess(&mut self, dictionary: &Dictionary, guess: &str) -> (result: Result<
        &GuessResult,
        WordleError,
    >)
        ensures
            final(self).wf(),
            final(self)@.secret == old(self)@.secret,
            final(self)@.mode == old(self)@.mode,
            match result {
                Ok(row) => {
                    &&& accepted(*dictionary, guess@)
                    &&& row@.guess == normalized(guess@)
                    &&& row.wf()
                    &&& match old(self)@.mode {
                        GameMode::Wordle => row@.letters == score_tiles(
                            old(self)@.secret,
                            normalized(guess@),
                        ),
                        GameMode::Fibble => is_single_lie(
                            score_tiles(old(self)@.secret, normalized(guess@)),
                            row@.letters,
                        ),
                    }
                    &&& final(self)@.rows == old(self)@.rows.push(row@)
                },
                Err(error) => {
                    &&& rejection(*dictionary, guess@, error)
                    &&& final(self)@ == old(self)@
                },
            },
    {
        proof {
            use_type_invariant(&*self);
        }
        let normalized_guess = match validate(dictionary, guess) {
            Ok(word) => word,
            Err(error) => {
                return Err(error);
            },
        };
        let mut letters = score(self.secret.as_str(), normalized_guess.as_str());
        let ghost truth = letters@;
        match self.mode {
            GameMode::Fibble => {
                apply_fibble_lie(&mut letters);
            },
            GameMode::Wordle => {},
        }
        proof {
            if self.mode == GameMode::Fibble {
                let (index, choice) = choose|index: int, choice: int|
                    0 <= index < truth.len() && 0 <= choice < 2 && letters@ == #[trigger] lied_tiles(
                        truth,
                        index,
                        choice,
                    );
                lemma_lied_tiles(truth, index, choice, 5);
            }
        }
        self.record(normalized_guess, letters);
        Ok(&self.guesses[self.guesses.len() - 1])
    }

    /// Records a guess as `submit_guess` does, with the lie named by the
    /// caller: under the lying rules the tile at `lie_index` is replaced by
    /// the first of the two states it is not in, in the order correct,
    /// present, absent, where `lie_choice` is 0, and by the second otherwise.
    /// Under the strict rules both numbers are ignored.
    pub fn submit_guess_with_lie(
        &mut self,
        dictionary: &Dictionary,
        guess: &str,
        lie_index: usize,
        lie_choice: usize,
    ) -> (result: Result<&GuessResult, WordleError>)
        requires
            old(self)@.mode == GameMode::Fibble ==> lie_index < WORD_LENGTH,
        ensures
            final(self).wf(),
            final(self)@.secret == old(self)@.secret,
            final(self)@.mode == old(self)@.mode,
            match result {
                Ok(row) => {
                    &&& accepted(*dictionary, guess@)
                    &&& row@.guess == normalized(guess@)
                    &&& row.wf()
                    &&& match old(self)@.mode {
                        GameMode::Wordle => row@.letters == score_tiles(
                            old(self)@.secret,
                            normalized(guess@),
                        ),
                        GameMode::Fibble => row@.letters == lied_tiles(
                            score_tiles(old(self)@.secret, normalized(guess@)),
                            lie_index as int,
                            lie_choice as int,
                        ),
                    }
                    &&& final(self)@.rows == old(self)@.rows.push(row@)
                },
                Err(error) => {
                    &&& rejection(*dictionary, guess@, error)
                    &&& final(self)@ == old(self)@
                },
            },
    {
        proof {
            use_type_invariant(&*self);
        }
        let normalized_guess = match validate(dictionary, guess) {
            Ok(word) => word,
            Err(error) => {
                return Err(error);
            },
        };
        let mut letters = score(self.secret.as_str(), normalized_guess.as_str());
        let ghost truth = letters@;
        match self.mode {
            GameMode::Fibble => {
                apply_lie_at(&mut letters, lie_index, lie_choice);
                proof {
                    lemma_lied_tiles(truth, lie_index as int, lie_choice as int, 5);
                }
            },
            GameMode::Wordle => {},
        }
        self.record(normalized_guess, letters);
        Ok(&self.guesses[self.guesses.len() - 1])
    }

    /// Appends a row that the rules allow for the secret.
    fn record(&mut self, guess: String, letters: Vec<LetterState>)
        requires
            old(self).wf(),
            row_ok(GuessRow { guess: guess@, letters: letters@ }),
            row_matches(
                old(self)@.mode,
                old(self)@.secret,
                GuessRow { guess: guess@, letters: letters@ },
            ),
        ensures
            final(self).wf(),
            final(self)@.secret == old(self)@.secret,
            final(self)@.mode == old(self)@.mode,
            final(self)@.rows == old(self)@.rows.push(GuessRow { guess: guess@, letters: letters@ }),
            final(self).guesses@.len() == old(self).guesses@.len() + 1,
            final(self).guesses@.last()@ == (GuessRow { guess: guess@, letters: letters@ }),
            final(self).guesses@.last().wf(),
    {
        let row = GuessResult::from_parts(guess, letters);
        let ghost before = self@.rows;
        let mut rows: Vec<GuessResult> = Vec::new();
        proof {
            assert(rows_of(rows@) =~= Seq::<GuessRow>::empty());
        }
        core::mem::swap(&mut self.guesses, &mut rows);
        rows.push(row);
        proof {
            assert(rows_of(rows@) =~= before.push(row@));
        }
        core::mem::swap(&mut self.guesses, &mut rows);
    }
}

} // verus!
