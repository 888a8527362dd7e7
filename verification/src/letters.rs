//! Words as character sequences, the tiles of a scored guess, and a scored row.

use vstd::prelude::*;
use vstd::string::*;
use crate::pattern::{
    compute_pattern_digits, is_word_bytes, tile_digit, unmatched_in_guess, unmatched_in_secret,
    PATTERN_CORRECT, PATTERN_PRESENT, WORD_LENGTH,
};

verus! {

/// A word in canonical form: five uppercase ASCII letters.
pub open spec fn is_word(w: Seq<char>) -> bool {
    &&& w.len() == WORD_LENGTH
    &&& forall|i: int| 0 <= i < w.len() ==> 'A' <= #[trigger] w[i] <= 'Z'
}

/// The bytes of a sequence of ASCII characters.
pub open spec fn word_bytes(w: Seq<char>) -> Seq<u8> {
    Seq::new(w.len(), |i: int| w[i] as u8)
}

/// The feedback for one position of a guess, with the letter guessed there.
#[derive(Debug, Clone, Copy, PartialEq, Eq, Structural)]
pub enum LetterState {
    Correct(char),
    Present(char),
    Absent(char),
}

/// The tile that a digit and a letter make.
pub open spec fn tile_of(digit: u8, letter: char) -> LetterState {
    if digit == PATTERN_CORRECT {
        LetterState::Correct(letter)
    } else if digit == PATTERN_PRESENT {
        LetterState::Present(letter)
    } else {
        LetterState::Absent(letter)
    }
}

/// The tiles of `guess` scored against `secret`, leftmost first.
pub open spec fn score_tiles(secret: Seq<char>, guess: Seq<char>) -> Seq<LetterState> {
    Seq::new(guess.len(), |i: int| tile_of(tile_digit(secret, guess, i), guess[i]))
}

impl LetterState {
    /// The letter of the tile.
    pub open spec fn spec_letter(&self) -> char {
        match self {
            LetterState::Correct(c) => *c,
            LetterState::Present(c) => *c,
            LetterState::Absent(c) => *c,
        }
    }

    /// The letter that this tile reports on.
    pub fn letter(&self) -> (c: char)
        ensures
            c == self.spec_letter(),
    {
        match self {
            LetterState::Correct(c) => *c,
            LetterState::Present(c) => *c,
            LetterState::Absent(c) => *c,
        }
    }

    /// The terminal escape sequence that colours this tile.
    pub open spec fn spec_color_code(&self) -> Seq<char> {
        match self {
            LetterState::Correct(_) => "\x1b[48;5;34m\x1b[97m"@,
            LetterState::Present(_) => "\x1b[48;5;178m\x1b[30m"@,
            LetterState::Absent(_) => "\x1b[48;5;240m\x1b[97m"@,
        }
    }

    /// The text of this tile for a terminal: its colour, the letter between
    /// two spaces, and the reset sequence.
    pub open spec fn spec_colored_block(&self) -> Seq<char> {
        self.spec_color_code() + seq![' ', self.spec_letter(), ' '] + "\x1b[0m"@
    }

    /// Green for correct, yellow for present, grey for absent.
    pub fn color_code(&self) -> (code: &'static str)
        ensures
            code@ == self.spec_color_code(),
    {
        match self {
            LetterState::Correct(_) => "\x1b[48;5;34m\x1b[97m",
            LetterState::Present(_) => "\x1b[48;5;178m\x1b[30m",
            LetterState::Absent(_) => "\x1b[48;5;240m\x1b[97m",
        }
    }

    /// The coloured block of this tile.
    pub fn colored_block(&self) -> (block: String)
        ensures
            block@ == self.spec_colored_block(),
    {
        let mut block = String::from_str(self.color_code());
        block.push(' ');
        block.push(self.letter());
        block.push(' ');
        block.append("\x1b[0m");
        proof {
            assert(block@ =~= self.spec_colored_block());
        }
        block
    }
}

/// The bytes of two words compare as their characters do, so the tiles
/// counted over bytes are the tiles counted over characters.
proof fn lemma_unmatched_over_bytes(secret: Seq<char>, guess: Seq<char>, letter: char, n: int)
    requires
        is_word(secret),
        is_word(guess),
        'A' <= letter <= 'Z',
        0 <= n <= 5,
    ensures
        unmatched_in_secret(word_bytes(secret), word_bytes(guess), letter as u8, n)
            == unmatched_in_secret(secret, guess, letter, n),
        unmatched_in_guess(word_bytes(secret), word_bytes(guess), letter as u8, n)
            == unmatched_in_guess(secret, guess, letter, n),
    decreases n,
{
    if n > 0 {
        lemma_unmatched_over_bytes(secret, guess, letter, n - 1);
        assert('A' <= secret[n - 1] <= 'Z');
        assert('A' <= guess[n - 1] <= 'Z');
    }
}

/// The bytes of a word are a word in byte form.
pub proof fn lemma_word_bytes(w: Seq<char>)
    requires
        is_word(w),
    ensures
        is_word_bytes(word_bytes(w)),
        word_bytes(w).len() == 5,
{
    assert forall|i: int| 0 <= i < 5 implies 0x41 <= #[trigger] word_bytes(w)[i] <= 0x5a by {
        assert('A' <= w[i] <= 'Z');
    }
}

/// Scoring the bytes of two words gives the digits of scoring the words.
pub proof fn lemma_tile_digit_over_bytes(secret: Seq<char>, guess: Seq<char>, i: int)
    requires
        is_word(secret),
        is_word(guess),
        0 <= i < 5,
    ensures
        tile_digit(word_bytes(secret), word_bytes(guess), i) == tile_digit(secret, guess, i),
{
    assert('A' <= secret[i] <= 'Z');
    assert('A' <= guess[i] <= 'Z');
    lemma_unmatched_over_bytes(secret, guess, guess[i], i);
    lemma_unmatched_over_bytes(secret, guess, guess[i], 5);
}

/// The bytes of a word, as the standard library hands them out.
pub fn word_as_bytes(word: &str) -> (bytes: &[u8])
    requires
        is_word(word@),
    ensures
        bytes@ == word_bytes(word@),
        is_word_bytes(bytes@),
{
    proof {
        assert(is_ascii(word)) by {
            assert forall|i: int| 0 <= i < word@.len() implies '\0' <= #[trigger] word@[i]
                <= '\u{7f}' by {
                assert('A' <= word@[i] <= 'Z');
            }
        }
        is_ascii_spec_bytes(word);
        lemma_word_bytes(word@);
    }
    let bytes = word.as_bytes();
    assert(bytes@ =~= word_bytes(word@));
    bytes
}

/// Scores `guess` against `secret`, tile by tile.
pub fn score(secret: &str, guess: &str) -> (letters: Vec<LetterState>)
    requires
        is_word(secret@),
        is_word(guess@),
    ensures
        letters@ == score_tiles(secret@, guess@),
{
    let secret_bytes = word_as_bytes(secret);
    let guess_bytes = word_as_bytes(guess);
    let pattern_digits = compute_pattern_digits(secret_bytes, guess_bytes);
    let mut letters: Vec<LetterState> = Vec::new();
    let mut idx: usize = 0;
    while idx < WORD_LENGTH
        invariant
            idx <= WORD_LENGTH,
            is_word(secret@),
            is_word(guess@),
            guess_bytes@ == word_bytes(guess@),
            pattern_digits@ == crate::pattern::pattern_digits(
                word_bytes(secret@),
                word_bytes(guess@),
            ),
            letters@ == score_tiles(secret@, guess@).subrange(0, idx as int),
        decreases WORD_LENGTH - idx,
    {
        let ch = guess_bytes[idx] as char;
        let digit = pattern_digits[idx];
        proof {
            lemma_tile_digit_over_bytes(secret@, guess@, idx as int);
            assert('A' <= guess@[idx as int] <= 'Z');
            assert(ch == guess@[idx as int]);
        }
        let state = if digit == PATTERN_CORRECT {
            LetterState::Correct(ch)
        } else if digit == PATTERN_PRESENT {
            LetterState::Present(ch)
        } else {
            LetterState::Absent(ch)
        };
        letters.push(state);
        proof {
            assert(letters@ =~= score_tiles(secret@, guess@).subrange(0, idx + 1));
        }
        idx += 1;
    }
    proof {
        assert(score_tiles(secret@, guess@).subrange(0, 5) =~= score_tiles(secret@, guess@));
    }
    letters
}

/// Scoring the bytes of two words gives the pattern of scoring the words.
pub proof fn lemma_pattern_over_bytes(secret: Seq<char>, guess: Seq<char>)
    requires
        is_word(secret),
        is_word(guess),
    ensures
        crate::pattern::pattern_digits(word_bytes(secret), word_bytes(guess))
            == crate::pattern::pattern_digits(secret, guess),
{
    assert forall|i: int| 0 <= i < 5 implies tile_digit(word_bytes(secret), word_bytes(guess), i)
        == tile_digit(secret, guess, i) by {
        lemma_tile_digit_over_bytes(secret, guess, i);
    }
    assert(crate::pattern::pattern_digits(word_bytes(secret), word_bytes(guess))
        =~= crate::pattern::pattern_digits(secret, guess));
}

/// What a scored row holds: the guess in canonical form and its tiles.
pub struct GuessRow {
    pub guess: Seq<char>,
    pub letters: Seq<LetterState>,
}

/// A row holds a word and one tile for each of its letters, in order.
pub open spec fn row_ok(row: GuessRow) -> bool {
    &&& is_word(row.guess)
    &&& row.letters.len() == row.guess.len()
    &&& forall|i: int|
        0 <= i < row.letters.len() ==> (#[trigger] row.letters[i]).spec_letter() == row.guess[i]
}

/// How many of the first `n` tiles differ between two rows of tiles.
pub open spec fn differing_tiles(a: Seq<LetterState>, b: Seq<LetterState>, n: int) -> nat
    decreases n,
{
    if n <= 0 {
        0
    } else {
        let here: nat = if a[n - 1] != b[n - 1] {
            1
        } else {
            0
        };
        differing_tiles(a, b, n - 1) + here
    }
}

/// Every tile is correct.
pub open spec fn all_correct(letters: Seq<LetterState>) -> bool {
    forall|i: int| 0 <= i < letters.len() ==> #[trigger] letters[i] is Correct
}

/// The coloured blocks of the first `n` tiles, with one space between
/// neighbours.
pub open spec fn joined_blocks(letters: Seq<LetterState>, n: int) -> Seq<char>
    decreases n,
{
    if n <= 0 {
        Seq::empty()
    } else if n == 1 {
        letters[0].spec_colored_block()
    } else {
        joined_blocks(letters, n - 1) + seq![' '] + letters[n - 1].spec_colored_block()
    }
}

/// A guess with the feedback that was reported for it.
#[derive(Debug, PartialEq, Eq)]
pub struct GuessResult {
    guess: String,
    letters: Vec<LetterState>,
}

impl View for GuessResult {
    type V = GuessRow;

    closed spec fn view(&self) -> GuessRow {
        GuessRow { guess: self.guess@, letters: self.letters@ }
    }
}

impl Clone for GuessResult {
    fn clone(&self) -> (copy: Self)
        ensures
            copy@ == self@,
    {
        proof {
            use_type_invariant(self);
        }
        let mut letters: Vec<LetterState> = Vec::new();
        let mut idx: usize = 0;
        while idx < self.letters.len()
            invariant
                idx <= self.letters.len(),
                letters@ == self.letters@.subrange(0, idx as int),
            decreases self.letters.len() - idx,
        {
            letters.push(self.letters[idx]);
            proof {
                assert(letters@ =~= self.letters@.subrange(0, idx + 1));
            }
            idx += 1;
        }
        proof {
            assert(letters@ =~= self.letters@);
        }
        GuessResult { guess: self.guess.clone(), letters }
    }
}

impl GuessResult {
    /// The row keeps to the shape of a row.
    #[verifier::type_invariant]
    pub open spec fn wf(&self) -> bool {
        row_ok(self@)
    }

    /// Puts a guess and its tiles together.
    pub(crate) fn from_parts(guess: String, letters: Vec<LetterState>) -> (row: GuessResult)
        requires
            row_ok(GuessRow { guess: guess@, letters: letters@ }),
        ensures
            row@ == (GuessRow { guess: guess@, letters: letters@ }),
            row.wf(),
    {
        GuessResult { guess, letters }
    }

    /// The guess, in upper case.
    pub fn guess(&self) -> (text: &str)
        ensures
            text@ == self@.guess,
            is_word(text@),
    {
        proof {
            use_type_invariant(self);
        }
        self.guess.as_str()
    }

    /// The feedback, one tile per letter.
    pub fn letters(&self) -> (tiles: &[LetterState])
        ensures
            tiles@ == self@.letters,
            tiles@.len() == WORD_LENGTH,
    {
        proof {
            use_type_invariant(self);
        }
        self.letters.as_slice()
    }

    /// Whether every tile is correct, that is, whether the guess was reported
    /// as the secret.
    pub fn is_correct(&self) -> (yes: bool)
        ensures
            yes == all_correct(self@.letters),
    {
        let mut idx: usize = 0;
        while idx < self.letters.len()
            invariant
                idx <= self.letters.len(),
                forall|j: int| 0 <= j < idx ==> #[trigger] self.letters@[j] is Correct,
            decreases self.letters.len() - idx,
        {
            match self.letters[idx] {
                LetterState::Correct(_) => {},
                _ => {
                    return false;
                },
            }
            idx += 1;
        }
        true
    }

    /// The row as coloured blocks for a terminal, one space between blocks.
    pub fn colored_string(&self) -> (text: String)
        ensures
            text@ == joined_blocks(self@.letters, self@.letters.len() as int),
    {
        let mut text = String::new();
        let mut idx: usize = 0;
        while idx < self.letters.len()
            invariant
                idx <= self.letters.len(),
                text@ == joined_blocks(self.letters@, idx as int),
            decreases self.letters.len() - idx,
        {
            if idx > 0 {
                text.push(' ');
            }
            let block = self.letters[idx].colored_block();
            text.append(block.as_str());
            proof {
                assert(text@ =~= joined_blocks(self.letters@, idx + 1));
            }
            idx += 1;
        }
        text
    }
}

} // verus!
