//! The secrets that a round's rows leave possible.

use vstd::prelude::*;
use vstd::string::*;
use crate::entropy::{all_words, strs_of};
use crate::game::{game_ok, history_matches, row_matches, rows_of, GameMode, GameView, Wordle};
use crate::letters::{
    all_correct, differing_tiles, is_word, score, score_tiles, GuessResult, GuessRow, LetterState,
};
use crate::pattern::WORD_LENGTH;
use crate::words::{words_of, Dictionary};

verus! {

/// Those of the first `n` secrets that every row allows, in their order.
pub open spec fn surviving(
    secrets: Seq<Seq<char>>,
    mode: GameMode,
    rows: Seq<GuessRow>,
    n: int,
) -> Seq<Seq<char>>
    decreases n,
{
    if n <= 0 {
        Seq::empty()
    } else if history_matches(mode, secrets[n - 1], rows) {
        surviving(secrets, mode, rows, n - 1).push(secrets[n - 1])
    } else {
        surviving(secrets, mode, rows, n - 1)
    }
}

/// The secrets of a dictionary that a round's rows leave possible.
pub open spec fn remaining(secrets: Seq<Seq<char>>, mode: GameMode, rows: Seq<GuessRow>) -> Seq<
    Seq<char>,
> {
    surviving(secrets, mode, rows, secrets.len() as int)
}

/// Whether two rows of tiles are the same.
pub fn same_tiles(a: &[LetterState], b: &[LetterState]) -> (same: bool)
    ensures
        same == (a@ == b@),
{
    if a.len() != b.len() {
        return false;
    }
    let mut idx: usize = 0;
    while idx < a.len()
        invariant
            idx <= a.len(),
            a.len() == b.len(),
            forall|j: int| 0 <= j < idx ==> a@[j] == b@[j],
        decreases a.len() - idx,
    {
        if !(a[idx] == b[idx]) {
            return false;
        }
        idx += 1;
    }
    assert(a@ =~= b@);
    true
}

/// Whether the row differs in exactly one tile from the true pattern that
/// its guess would get against `secret`.
pub fn fibble_guess_matches(secret: &str, guess: &GuessResult) -> (matches: bool)
    requires
        is_word(secret@),
    ensures
        matches == row_matches(GameMode::Fibble, secret@, guess@),
{
    let truth = score(secret, guess.guess());
    let reported = guess.letters();
    let mut mismatches: usize = 0;
    let mut idx: usize = 0;
    while idx < WORD_LENGTH
        invariant
            idx <= WORD_LENGTH,
            truth@.len() == WORD_LENGTH,
            reported@.len() == WORD_LENGTH,
            mismatches == differing_tiles(truth@, reported@, idx as int),
            mismatches <= idx,
        decreases WORD_LENGTH - idx,
    {
        if !(truth[idx] == reported[idx]) {
            mismatches += 1;
        }
        idx += 1;
    }
    mismatches == 1
}

/// Whether every row, by itself, differs in exactly one tile from the true
/// pattern that its guess would get against `secret`.
pub fn fibble_history_matches(secret: &str, guesses: &[GuessResult]) -> (matches: bool)
    requires
        is_word(secret@),
    ensures
        matches == history_matches(GameMode::Fibble, secret@, rows_of(guesses@)),
{
    let mut idx: usize = 0;
    while idx < guesses.len()
        invariant
            idx <= guesses.len(),
            is_word(secret@),
            forall|j: int|
                0 <= j < idx ==> row_matches(
                    GameMode::Fibble,
                    secret@,
                    #[trigger] rows_of(guesses@)[j],
                ),
        decreases guesses.len() - idx,
    {
        if !fibble_guess_matches(secret, &guesses[idx]) {
            assert(!row_matches(GameMode::Fibble, secret@, rows_of(guesses@)[idx as int]));
            return false;
        }
        idx += 1;
    }
    true
}

/// Whether the rows of the round could have been reported if `secret` were
/// its secret.
pub fn secret_matches_history(secret: &str, game: &Wordle) -> (matches: bool)
    requires
        is_word(secret@),
    ensures
        matches == history_matches(game@.mode, secret@, game@.rows),
{
    match game.mode() {
        GameMode::Wordle => {
            let guesses = game.guesses();
            let mut idx: usize = 0;
            while idx < guesses.len()
                invariant
                    idx <= guesses.len(),
                    is_word(secret@),
                    rows_of(guesses@) == game@.rows,
                    game@.mode == GameMode::Wordle,
                    forall|j: int|
                        0 <= j < idx ==> row_matches(
                            GameMode::Wordle,
                            secret@,
                            #[trigger] rows_of(guesses@)[j],
                        ),
                decreases guesses.len() - idx,
            {
                let guess = &guesses[idx];
                let truth = score(secret, guess.guess());
                if !same_tiles(truth.as_slice(), guess.letters()) {
                    assert(!row_matches(GameMode::Wordle, secret@, rows_of(guesses@)[idx as int]));
                    return false;
                }
                idx += 1;
            }
            true
        },
        GameMode::Fibble => fibble_history_matches(secret, game.guesses()),
    }
}

/// The secrets of the dictionary that the rows of the round leave possible,
/// in the order of the dictionary.
pub fn remaining_secrets<'a>(dictionary: &'a Dictionary, game: &Wordle) -> (secrets: Vec<&'a str>)
    ensures
        strs_of(secrets@) == remaining(dictionary@.secrets, game@.mode, game@.rows),
        all_words(strs_of(secrets@)),
{
    let list = dictionary.secrets();
    proof {
        use_type_invariant(dictionary);
    }
    let mut secrets: Vec<&'a str> = Vec::new();
    let mut idx: usize = 0;
    while idx < list.len()
        invariant
            idx <= list.len(),
            words_of(list@) == dictionary@.secrets,
            all_words(dictionary@.secrets),
            strs_of(secrets@) == surviving(dictionary@.secrets, game@.mode, game@.rows, idx as int),
            all_words(strs_of(secrets@)),
        decreases list.len() - idx,
    {
        let secret = list[idx].as_str();
        proof {
            assert(words_of(list@)[idx as int] == secret@);
            assert(is_word(dictionary@.secrets[idx as int]));
        }
        if secret_matches_history(secret, game) {
            let ghost before = strs_of(secrets@);
            secrets.push(secret);
            proof {
                assert(strs_of(secrets@) =~= before.push(secret@));
            }
        }
        idx += 1;
    }
    proof {
        assert(words_of(list@).len() == list@.len());
    }
    secrets
}

/// A word is among the surviving secrets exactly when it is one of the
/// secrets looked at and every row allows it.
pub proof fn lemma_surviving_members(
    secrets: Seq<Seq<char>>,
    mode: GameMode,
    rows: Seq<GuessRow>,
    n: int,
    word: Seq<char>,
)
    requires
        0 <= n <= secrets.len(),
    ensures
        surviving(secrets, mode, rows, n).contains(word) <==> (history_matches(mode, word, rows)
            && exists|i: int| 0 <= i < n && #[trigger] secrets[i] == word),
    decreases n,
{
    if n > 0 {
        lemma_surviving_members(secrets, mode, rows, n - 1, word);
        let before = surviving(secrets, mode, rows, n - 1);
        if history_matches(mode, secrets[n - 1], rows) {
            let now = before.push(secrets[n - 1]);
            assert(now[now.len() - 1] == secrets[n - 1]);
            if now.contains(word) {
                let k = choose|k: int| 0 <= k < now.len() && now[k] == word;
                if k < before.len() {
                    assert(before[k] == word);
                } else {
                    assert(secrets[n - 1] == word);
                }
            }
            if before.contains(word) {
                let k = choose|k: int| 0 <= k < before.len() && before[k] == word;
                assert(now[k] == word);
            }
        }
    }
}

/// Under the lying rules a secret of the dictionary stays possible exactly
/// when every row, by itself, differs from the true pattern of its guess in
/// exactly one tile: one row without a lie, or with two, rules the secret
/// out.
pub proof fn lemma_single_lie_keeps_secret(
    secrets: Seq<Seq<char>>,
    secret: Seq<char>,
    rows: Seq<GuessRow>,
)
    requires
        secrets.contains(secret),
    ensures
        remaining(secrets, GameMode::Fibble, rows).contains(secret) <==> (forall|i: int|
            0 <= i < rows.len() ==> differing_tiles(
                score_tiles(secret, (#[trigger] rows[i]).guess),
                rows[i].letters,
                rows[i].letters.len() as int,
            ) == 1),
{
    lemma_surviving_members(secrets, GameMode::Fibble, rows, secrets.len() as int, secret);
    let k = choose|k: int| 0 <= k < secrets.len() && secrets[k] == secret;
    assert(secrets[k] == secret);
    if forall|i: int|
        0 <= i < rows.len() ==> differing_tiles(
            score_tiles(secret, (#[trigger] rows[i]).guess),
            rows[i].letters,
            rows[i].letters.len() as int,
        ) == 1 {
        assert forall|i: int| 0 <= i < rows.len() implies row_matches(
            GameMode::Fibble,
            secret,
            #[trigger] rows[i],
        ) by {}
    }
}

/// The true pattern of a word guessed against itself is all correct, and a
/// secret that gives a guess that pattern is the guess.
pub proof fn lemma_own_pattern(secret: Seq<char>, guess: Seq<char>)
    requires
        secret.len() == guess.len(),
    ensures
        all_correct(score_tiles(guess, guess)),
        score_tiles(secret, guess) == score_tiles(guess, guess) <==> secret == guess,
{
    if score_tiles(secret, guess) == score_tiles(guess, guess) {
        assert forall|i: int| 0 <= i < guess.len() implies secret[i] == guess[i] by {
            assert(score_tiles(secret, guess)[i] == score_tiles(guess, guess)[i]);
        }
        assert(secret =~= guess);
    }
}

proof fn lemma_surviving_single(
    secrets: Seq<Seq<char>>,
    secret: Seq<char>,
    mode: GameMode,
    rows: Seq<GuessRow>,
    n: int,
)
    requires
        0 <= n <= secrets.len(),
        secrets.no_duplicates(),
        forall|i: int|
            0 <= i < secrets.len() ==> (history_matches(mode, #[trigger] secrets[i], rows)
                <==> secrets[i] == secret),
    ensures
        surviving(secrets, mode, rows, n) == if exists|i: int|
            0 <= i < n && #[trigger] secrets[i] == secret {
            seq![secret]
        } else {
            Seq::empty()
        },
    decreases n,
{
    if n > 0 {
        lemma_surviving_single(secrets, secret, mode, rows, n - 1);
        if secrets[n - 1] == secret {
            assert(history_matches(mode, secrets[n - 1], rows));
            assert(!exists|i: int| 0 <= i < n - 1 && #[trigger] secrets[i] == secret);
            assert(surviving(secrets, mode, rows, n) =~= seq![secret]);
        } else {
            assert(!history_matches(mode, secrets[n - 1], rows));
            if exists|i: int| 0 <= i < n && #[trigger] secrets[i] == secret {
                let i = choose|i: int| 0 <= i < n && #[trigger] secrets[i] == secret;
                assert(0 <= i < n - 1 && secrets[i] == secret);
            }
        }
    }
}

/// Under the strict rules, once the secret itself has been guessed, no other
/// word stays possible: what remains of a dictionary that holds the secret
/// is the secret, and it is the only entry left where the dictionary lists
/// no secret twice.
pub proof fn lemma_solved_round_leaves_secret(
    secrets: Seq<Seq<char>>,
    secret: Seq<char>,
    rows: Seq<GuessRow>,
)
    requires
        is_word(secret),
        all_words(secrets),
        history_matches(GameMode::Wordle, secret, rows),
        exists|k: int| 0 <= k < rows.len() && (#[trigger] rows[k]).guess == secret,
    ensures
        forall|word: Seq<char>|
            remaining(secrets, GameMode::Wordle, rows).contains(word) ==> word == secret,
        secrets.contains(secret) ==> remaining(secrets, GameMode::Wordle, rows).contains(secret),
        secrets.contains(secret) && secrets.no_duplicates() ==> remaining(
            secrets,
            GameMode::Wordle,
            rows,
        ) == seq![secret],
{
    let k = choose|k: int| 0 <= k < rows.len() && (#[trigger] rows[k]).guess == secret;
    assert(row_matches(GameMode::Wordle, secret, rows[k]));
    assert forall|word: Seq<char>|
        is_word(word) && history_matches(GameMode::Wordle, word, rows) implies word == secret by {
        assert(row_matches(GameMode::Wordle, word, rows[k]));
        lemma_own_pattern(word, secret);
    }
    assert forall|word: Seq<char>|
        remaining(secrets, GameMode::Wordle, rows).contains(word) implies word == secret by {
        lemma_surviving_members(secrets, GameMode::Wordle, rows, secrets.len() as int, word);
        let i = choose|i: int| 0 <= i < secrets.len() && #[trigger] secrets[i] == word;
        assert(is_word(secrets[i]));
    }
    if secrets.contains(secret) {
        lemma_surviving_members(secrets, GameMode::Wordle, rows, secrets.len() as int, secret);
        let i = choose|i: int| 0 <= i < secrets.len() && secrets[i] == secret;
        assert(secrets[i] == secret);
        if secrets.no_duplicates() {
            assert forall|j: int| 0 <= j < secrets.len() implies (history_matches(
                GameMode::Wordle,
                #[trigger] secrets[j],
                rows,
            ) <==> secrets[j] == secret) by {
                assert(is_word(secrets[j]));
            }
            lemma_surviving_single(secrets, secret, GameMode::Wordle, rows, secrets.len() as int);
        }
    }
}

/// The places in the dictionary of the surviving secrets, in their order.
pub open spec fn surviving_positions(
    secrets: Seq<Seq<char>>,
    mode: GameMode,
    rows: Seq<GuessRow>,
    n: int,
) -> Seq<int>
    decreases n,
{
    if n <= 0 {
        Seq::empty()
    } else if history_matches(mode, secrets[n - 1], rows) {
        surviving_positions(secrets, mode, rows, n - 1).push(n - 1)
    } else {
        surviving_positions(secrets, mode, rows, n - 1)
    }
}

/// `part` is made of entries of `whole` taken at `positions`, which rise.
pub open spec fn kept_in_order(
    part: Seq<Seq<char>>,
    whole: Seq<Seq<char>>,
    positions: Seq<int>,
) -> bool {
    &&& positions.len() == part.len()
    &&& forall|k: int|
        0 <= k < part.len() ==> 0 <= #[trigger] positions[k] < whole.len() && whole[positions[k]]
            == part[k]
    &&& forall|a: int, b: int|
        0 <= a < b < positions.len() ==> #[trigger] positions[a] < #[trigger] positions[b]
}

proof fn lemma_surviving_keeps_order(
    secrets: Seq<Seq<char>>,
    mode: GameMode,
    rows: Seq<GuessRow>,
    n: int,
)
    requires
        0 <= n <= secrets.len(),
    ensures
        kept_in_order(
            surviving(secrets, mode, rows, n),
            secrets,
            surviving_positions(secrets, mode, rows, n),
        ),
        forall|k: int|
            0 <= k < surviving_positions(secrets, mode, rows, n).len()
                ==> #[trigger] surviving_positions(secrets, mode, rows, n)[k] < n,
    decreases n,
{
    if n > 0 {
        lemma_surviving_keeps_order(secrets, mode, rows, n - 1);
    }
}

/// What remains is a function of the secrets, the rules and the rows alone,
/// and it lists the secrets it keeps in the order of the dictionary.
pub proof fn lemma_remaining_is_stable(
    secrets: Seq<Seq<char>>,
    mode: GameMode,
    rows: Seq<GuessRow>,
    other_secrets: Seq<Seq<char>>,
    other_mode: GameMode,
    other_rows: Seq<GuessRow>,
)
    requires
        secrets == other_secrets,
        mode == other_mode,
        rows == other_rows,
    ensures
        remaining(secrets, mode, rows) == remaining(other_secrets, other_mode, other_rows),
        kept_in_order(
            remaining(secrets, mode, rows),
            secrets,
            surviving_positions(secrets, mode, rows, secrets.len() as int),
        ),
{
    lemma_surviving_keeps_order(secrets, mode, rows, secrets.len() as int);
}

proof fn lemma_surviving_all(list: Seq<Seq<char>>, mode: GameMode, rows: Seq<GuessRow>, n: int)
    requires
        0 <= n <= list.len(),
        forall|i: int| 0 <= i < list.len() ==> history_matches(mode, #[trigger] list[i], rows),
    ensures
        surviving(list, mode, rows, n) == list.subrange(0, n),
    decreases n,
{
    if n > 0 {
        lemma_surviving_all(list, mode, rows, n - 1);
        assert(list.subrange(0, n) =~= list.subrange(0, n - 1).push(list[n - 1]));
    } else {
        assert(list.subrange(0, 0) =~= Seq::<Seq<char>>::empty());
    }
}

/// Filtering what remains by the same rows takes nothing more away.
pub proof fn lemma_remaining_idempotent(
    secrets: Seq<Seq<char>>,
    mode: GameMode,
    rows: Seq<GuessRow>,
)
    ensures
        remaining(remaining(secrets, mode, rows), mode, rows) == remaining(secrets, mode, rows),
{
    let left = remaining(secrets, mode, rows);
    assert forall|i: int| 0 <= i < left.len() implies history_matches(
        mode,
        #[trigger] left[i],
        rows,
    ) by {
        lemma_surviving_members(secrets, mode, rows, secrets.len() as int, left[i]);
        assert(left.contains(left[i]));
    }
    lemma_surviving_all(left, mode, rows, left.len() as int);
    assert(left.subrange(0, left.len() as int) =~= left);
}

/// With no rows yet, every secret of the dictionary is possible.
pub proof fn lemma_empty_history_keeps_all(secrets: Seq<Seq<char>>, mode: GameMode)
    ensures
        remaining(secrets, mode, Seq::empty()) == secrets,
{
    lemma_surviving_all(secrets, mode, Seq::empty(), secrets.len() as int);
    assert(secrets.subrange(0, secrets.len() as int) =~= secrets);
}

/// The secret of a round is never ruled out: where the dictionary lists it
/// among its secrets, it is among those that remain, under either rule.
pub proof fn lemma_secret_stays_possible(secrets: Seq<Seq<char>>, game: GameView)
    requires
        game_ok(game),
        secrets.contains(game.secret),
    ensures
        remaining(secrets, game.mode, game.rows).contains(game.secret),
{
    lemma_surviving_members(secrets, game.mode, game.rows, secrets.len() as int, game.secret);
    let i = choose|i: int| 0 <= i < secrets.len() && secrets[i] == game.secret;
    assert(secrets[i] == game.secret);
}

} // verus!
