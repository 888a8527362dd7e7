//! Tile feedback between a secret and a guess, and its base-3 code.

use vstd::prelude::*;

verus! {

/// Number of letters in every word of the game.
pub const WORD_LENGTH: usize = 5;

/// Number of letters in the alphabet the words are written in.
pub const ALPHABET_SIZE: usize = 26;

/// Number of distinct feedback patterns, three to the power of the word length.
pub const PATTERN_SPACE: usize = 243;

/// Digit of a tile whose letter does not occur (any more) in the secret.
pub const PATTERN_ABSENT: u8 = 0;

/// Digit of a tile whose letter occurs elsewhere in the secret.
pub const PATTERN_PRESENT: u8 = 1;

/// Digit of a tile whose letter stands at the same place in the secret.
pub const PATTERN_CORRECT: u8 = 2;

/// The byte of the letter `A`.
pub const FIRST_LETTER: u8 = 0x41;

/// The byte of the letter `Z`.
pub const LAST_LETTER: u8 = 0x5a;

/// An uppercase ASCII letter, as a byte.
pub open spec fn is_letter_byte(b: u8) -> bool {
    FIRST_LETTER <= b <= LAST_LETTER
}

/// A word in its byte form: five uppercase ASCII letters.
pub open spec fn is_word_bytes(w: Seq<u8>) -> bool {
    &&& w.len() == WORD_LENGTH
    &&& forall|i: int| 0 <= i < w.len() ==> is_letter_byte(#[trigger] w[i])
}

/// How many of the first `n` positions hold `letter` in the secret while the
/// guess holds something else there.
pub open spec fn unmatched_in_secret<T>(secret: Seq<T>, guess: Seq<T>, letter: T, n: int) -> nat
    decreases n,
{
    if n <= 0 {
        0
    } else {
        let here: nat = if secret[n - 1] == letter && guess[n - 1] != secret[n - 1] {
            1
        } else {
            0
        };
        unmatched_in_secret(secret, guess, letter, n - 1) + here
    }
}

/// How many of the first `n` positions hold `letter` in the guess while the
/// secret holds something else there.
pub open spec fn unmatched_in_guess<T>(secret: Seq<T>, guess: Seq<T>, letter: T, n: int) -> nat
    decreases n,
{
    if n <= 0 {
        0
    } else {
        let here: nat = if guess[n - 1] == letter && guess[n - 1] != secret[n - 1] {
            1
        } else {
            0
        };
        unmatched_in_guess(secret, guess, letter, n - 1) + here
    }
}

/// The digit of tile `i`. A letter in the right place is correct. Otherwise it
/// is present as long as the secret still has an unmatched copy of it that no
/// earlier tile of the guess has claimed, and absent after that.
pub open spec fn tile_digit<T>(secret: Seq<T>, guess: Seq<T>, i: int) -> u8 {
    if guess[i] == secret[i] {
        PATTERN_CORRECT
    } else if unmatched_in_guess(secret, guess, guess[i], i) < unmatched_in_secret(
        secret,
        guess,
        guess[i],
        secret.len() as int,
    ) {
        PATTERN_PRESENT
    } else {
        PATTERN_ABSENT
    }
}

/// The digits of all tiles of a guess, leftmost first.
pub open spec fn pattern_digits<T>(secret: Seq<T>, guess: Seq<T>) -> Seq<u8> {
    Seq::new(guess.len(), |i: int| tile_digit(secret, guess, i))
}

/// The bucket of an uppercase letter, `A` first.
pub fn letter_index(letter: u8) -> (index: usize)
    requires
        is_letter_byte(letter),
    ensures
        index == letter - FIRST_LETTER,
        index < ALPHABET_SIZE,
{
    (letter - FIRST_LETTER) as usize
}

/// The letter that bucket `k` counts.
spec fn letter_of(k: int) -> u8 {
    (k + FIRST_LETTER) as u8
}

/// What is left of the secret's unmatched copies of `letter` once the first
/// `n` tiles of the guess have taken theirs.
spec fn leftover_after<T>(secret: Seq<T>, guess: Seq<T>, letter: T, n: int) -> int {
    let have = unmatched_in_secret(secret, guess, letter, secret.len() as int);
    let taken = unmatched_in_guess(secret, guess, letter, n);
    if taken < have {
        have - taken
    } else {
        0
    }
}

proof fn lemma_unmatched_bounds<T>(secret: Seq<T>, guess: Seq<T>, letter: T, n: int)
    requires
        0 <= n,
    ensures
        unmatched_in_secret(secret, guess, letter, n) <= n,
        unmatched_in_guess(secret, guess, letter, n) <= n,
    decreases n,
{
    if n > 0 {
        lemma_unmatched_bounds(secret, guess, letter, n - 1);
    }
}

/// Scores a guess against a secret: first the letters in the right place,
/// then, left to right, the letters that the rest of the secret still holds.
pub fn compute_pattern_digits(secret: &[u8], guess: &[u8]) -> (digits: [u8; 5])
    requires
        is_word_bytes(secret@),
        is_word_bytes(guess@),
    ensures
        digits@ == pattern_digits(secret@, guess@),
{
    let mut digits = [PATTERN_ABSENT; 5];
    let mut leftovers = [0u8; 26];

    let mut idx: usize = 0;
    while idx < WORD_LENGTH
        invariant
            idx <= WORD_LENGTH,
            is_word_bytes(secret@),
            is_word_bytes(guess@),
            forall|j: int|
                0 <= j < idx ==> (#[trigger] digits@[j] == PATTERN_CORRECT <==> guess@[j]
                    == secret@[j]),
            forall|j: int|
                0 <= j < 5 ==> #[trigger] digits@[j] == PATTERN_CORRECT || digits@[j]
                    == PATTERN_ABSENT,
            forall|j: int| idx <= j < 5 ==> #[trigger] digits@[j] == PATTERN_ABSENT,
            forall|k: int|
                0 <= k < 26 ==> #[trigger] leftovers@[k] == unmatched_in_secret(
                    secret@,
                    guess@,
                    letter_of(k),
                    idx as int,
                ),
        decreases WORD_LENGTH - idx,
    {
        let secret_byte = secret[idx];
        let guess_byte = guess[idx];
        if guess_byte == secret_byte {
            digits[idx] = PATTERN_CORRECT;
        } else {
            let slot = letter_index(secret_byte);
            proof {
                lemma_unmatched_bounds(secret@, guess@, secret_byte, idx as int);
            }
            let bumped: u8 = leftovers[slot] + 1;
            leftovers[slot] = bumped;
        }
        idx += 1;
    }

    let mut idx: usize = 0;
    while idx < WORD_LENGTH
        invariant
            idx <= WORD_LENGTH,
            is_word_bytes(secret@),
            is_word_bytes(guess@),
            forall|j: int| 0 <= j < idx ==> #[trigger] digits@[j] == tile_digit(secret@, guess@, j),
            forall|j: int|
                idx <= j < 5 ==> (#[trigger] digits@[j] == PATTERN_CORRECT <==> guess@[j]
                    == secret@[j]),
            forall|j: int|
                idx <= j < 5 ==> #[trigger] digits@[j] == PATTERN_CORRECT || digits@[j]
                    == PATTERN_ABSENT,
            forall|k: int|
                0 <= k < 26 ==> #[trigger] leftovers@[k] == leftover_after(
                    secret@,
                    guess@,
                    letter_of(k),
                    idx as int,
                ),
        decreases WORD_LENGTH - idx,
    {
        let ghost before = digits@;
        if digits[idx] != PATTERN_CORRECT {
            let guess_byte = guess[idx];
            let lookup = letter_index(guess_byte);
            assert(letter_of(lookup as int) == guess_byte);
            if leftovers[lookup] > 0 {
                digits[idx] = PATTERN_PRESENT;
                let lowered: u8 = leftovers[lookup] - 1;
                leftovers[lookup] = lowered;
            }
        }
        assert(digits@[idx as int] == tile_digit(secret@, guess@, idx as int));
        assert(forall|j: int| 0 <= j < 5 && j != idx ==> digits@[j] == before[j]);
        idx += 1;
    }

    assert(digits@ =~= pattern_digits(secret@, guess@));
    digits
}

/// How many of the first `n` digits equal `digit`.
pub open spec fn count_digit(digits: Seq<u8>, digit: u8, n: int) -> nat
    decreases n,
{
    if n <= 0 {
        0
    } else {
        let here: nat = if digits[n - 1] == digit {
            1
        } else {
            0
        };
        count_digit(digits, digit, n - 1) + here
    }
}

/// How many of the first `n` positions hold the same letter in both words.
pub open spec fn count_same_place<T>(secret: Seq<T>, guess: Seq<T>, n: int) -> nat
    decreases n,
{
    if n <= 0 {
        0
    } else {
        let here: nat = if guess[n - 1] == secret[n - 1] {
            1
        } else {
            0
        };
        count_same_place(secret, guess, n - 1) + here
    }
}

/// How many of the first `n` positions of a word hold `letter`.
pub open spec fn occurrences<T>(word: Seq<T>, letter: T, n: int) -> nat
    decreases n,
{
    if n <= 0 {
        0
    } else {
        let here: nat = if word[n - 1] == letter {
            1
        } else {
            0
        };
        occurrences(word, letter, n - 1) + here
    }
}

/// How many of the first `n` tiles of the guess carry `letter` and are marked
/// correct or present.
pub open spec fn marked_for_letter<T>(secret: Seq<T>, guess: Seq<T>, letter: T, n: int) -> nat
    decreases n,
{
    if n <= 0 {
        0
    } else {
        let here: nat = if guess[n - 1] == letter && tile_digit(secret, guess, n - 1)
            != PATTERN_ABSENT {
            1
        } else {
            0
        };
        marked_for_letter(secret, guess, letter, n - 1) + here
    }
}

/// A tile is correct exactly where the two words agree.
pub proof fn lemma_correct_iff_same_place<T>(secret: Seq<T>, guess: Seq<T>, i: int)
    requires
        0 <= i < guess.len(),
    ensures
        pattern_digits(secret, guess)[i] == PATTERN_CORRECT <==> guess[i] == secret[i],
{
}

/// The number of correct tiles in a pattern is the number of positions at
/// which secret and guess hold the same letter.
pub proof fn lemma_correct_count<T>(secret: Seq<T>, guess: Seq<T>, n: int)
    requires
        0 <= n <= guess.len(),
    ensures
        count_digit(pattern_digits(secret, guess), PATTERN_CORRECT, n) == count_same_place(
            secret,
            guess,
            n,
        ),
    decreases n,
{
    if n > 0 {
        lemma_correct_count(secret, guess, n - 1);
        lemma_correct_iff_same_place(secret, guess, n - 1);
    }
}

/// The positions below `n` at which both words hold `letter`.
spec fn matched_for_letter<T>(secret: Seq<T>, guess: Seq<T>, letter: T, n: int) -> nat
    decreases n,
{
    if n <= 0 {
        0
    } else {
        let here: nat = if guess[n - 1] == letter && guess[n - 1] == secret[n - 1] {
            1
        } else {
            0
        };
        matched_for_letter(secret, guess, letter, n - 1) + here
    }
}

spec fn smaller(a: nat, b: nat) -> nat {
    if a <= b {
        a
    } else {
        b
    }
}

proof fn lemma_marked_split<T>(secret: Seq<T>, guess: Seq<T>, letter: T, n: int)
    requires
        0 <= n <= guess.len(),
        secret.len() == guess.len(),
    ensures
        marked_for_letter(secret, guess, letter, n) == matched_for_letter(
            secret,
            guess,
            letter,
            n,
        ) + smaller(
            unmatched_in_guess(secret, guess, letter, n),
            unmatched_in_secret(secret, guess, letter, secret.len() as int),
        ),
        occurrences(secret, letter, n) == matched_for_letter(secret, guess, letter, n)
            + unmatched_in_secret(secret, guess, letter, n),
        occurrences(guess, letter, n) == matched_for_letter(secret, guess, letter, n)
            + unmatched_in_guess(secret, guess, letter, n),
    decreases n,
{
    if n > 0 {
        lemma_marked_split(secret, guess, letter, n - 1);
    }
}

/// For every letter, the tiles of a guess that carry it and are marked
/// correct or present are no more than the copies of that letter in the
/// secret, and no more than its copies in the guess.
pub proof fn lemma_marks_bounded_by_occurrences<T>(secret: Seq<T>, guess: Seq<T>, letter: T)
    requires
        secret.len() == guess.len(),
    ensures
        marked_for_letter(secret, guess, letter, guess.len() as int) <= occurrences(
            secret,
            letter,
            secret.len() as int,
        ),
        marked_for_letter(secret, guess, letter, guess.len() as int) <= occurrences(
            guess,
            letter,
            guess.len() as int,
        ),
{
    lemma_marked_split(secret, guess, letter, guess.len() as int);
}

/// A pattern is all correct exactly when the guess is the secret.
pub proof fn lemma_all_correct_iff_equal<T>(secret: Seq<T>, guess: Seq<T>)
    requires
        secret.len() == guess.len(),
    ensures
        (forall|i: int|
            0 <= i < guess.len() ==> #[trigger] pattern_digits(secret, guess)[i]
                == PATTERN_CORRECT) <==> secret == guess,
{
    if secret == guess {
    } else if forall|i: int|
        0 <= i < guess.len() ==> #[trigger] pattern_digits(secret, guess)[i] == PATTERN_CORRECT {
        assert forall|i: int| 0 <= i < guess.len() implies secret[i] == guess[i] by {
            assert(pattern_digits(secret, guess)[i] == PATTERN_CORRECT);
        }
        assert(secret =~= guess);
    }
}

} // verus!
