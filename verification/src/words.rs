//! Normalising what a player typed, and the dictionary of the game.

use vstd::prelude::*;
use vstd::string::*;
use std::collections::HashSet;
use crate::entropy::{all_words, strs_of};
use crate::letters::{is_word, word_as_bytes, word_bytes};
use crate::pattern::WORD_LENGTH;
use crate::text::{
    collect_chars, lemma_trimmed_identity, lemma_uppercased_identity, trim_bounds, trimmed,
    upper_string, uppercased,
};

verus! {

broadcast use vstd::std_specs::hash::group_hash_axioms;

/// Why a word or a dictionary was turned down.
#[derive(Debug, Clone, PartialEq, Eq)]
pub enum WordleError {
    /// The word does not have `expected` characters; it has `found`.
    InvalidLength { expected: usize, found: usize },
    /// The word is not among the allowed guesses.
    UnknownWord { word: String },
    /// A word list breaks the dictionary's rules; `word` is the first entry
    /// that does.
    FatalConfig { word: String },
}

/// The canonical form of what a player typed: without the whitespace around
/// it, and in upper case.
pub open spec fn normalized(text: Seq<char>) -> Seq<char> {
    uppercased(trimmed(text))
}

/// The character sequences of a list of strings.
pub open spec fn words_of(list: Seq<String>) -> Seq<Seq<char>> {
    Seq::new(list.len(), |i: int| list[i]@)
}

/// A word in canonical form is its own normal form.
pub proof fn lemma_word_is_normalized(word: Seq<char>)
    requires
        is_word(word),
    ensures
        normalized(word) == word,
{
    assert('A' <= word[0] <= 'Z');
    assert('A' <= word[4] <= 'Z');
    assert(word.last() == word[4]);
    lemma_trimmed_identity(word);
    assert forall|i: int| 0 <= i < word.len() implies !('a' <= #[trigger] word[i] <= 'z') by {
        assert('A' <= word[i] <= 'Z');
    }
    lemma_uppercased_identity(word);
}

/// Brings a typed word into canonical form, or says how long it was.
pub fn normalize(word: &str) -> (result: Result<String, WordleError>)
    ensures
        match result {
            Ok(canonical) => {
                &&& trimmed(word@).len() == WORD_LENGTH
                &&& canonical@ == normalized(word@)
            },
            Err(WordleError::InvalidLength { expected, found }) => {
                &&& trimmed(word@).len() != WORD_LENGTH
                &&& expected == WORD_LENGTH
                &&& found == trimmed(word@).len()
            },
            Err(_) => false,
        },
{
    let chars = collect_chars(word);
    let (start, end) = trim_bounds(&chars);
    let len = end - start;
    if len != WORD_LENGTH {
        return Err(WordleError::InvalidLength { expected: WORD_LENGTH, found: len });
    }
    Ok(upper_string(&chars, start, end))
}

/// Whether `text` is five uppercase ASCII letters.
pub fn is_canonical_word(text: &str) -> (yes: bool)
    ensures
        yes == is_word(text@),
{
    if text.unicode_len() != WORD_LENGTH {
        return false;
    }
    let mut idx: usize = 0;
    while idx < WORD_LENGTH
        invariant
            idx <= WORD_LENGTH,
            text@.len() == WORD_LENGTH,
            forall|j: int| 0 <= j < idx ==> 'A' <= #[trigger] text@[j] <= 'Z',
        decreases WORD_LENGTH - idx,
    {
        let c = text.get_char(idx);
        if !('A' <= c && c <= 'Z') {
            return false;
        }
        idx += 1;
    }
    true
}

/// The place of a letter in the alphabet, `A` at 0.
pub open spec fn letter_rank(c: char) -> int {
    c as int - 0x41
}

/// The number that the five letters of a word spell in base 26, first
/// letter first. Two words with the same number are the same word.
pub open spec fn word_code(word: Seq<char>) -> int {
    (((letter_rank(word[0]) * 26 + letter_rank(word[1])) * 26 + letter_rank(word[2])) * 26
        + letter_rank(word[3])) * 26 + letter_rank(word[4])
}

/// Whether one of the first `n` words of the list has this code.
pub open spec fn has_code(list: Seq<Seq<char>>, code: int, n: int) -> bool {
    exists|i: int| 0 <= i < n && word_code(#[trigger] list[i]) == code
}

/// The code of a word lies below 26 to the power of five, and words with
/// the same code are the same.
pub proof fn lemma_word_code(a: Seq<char>, b: Seq<char>)
    requires
        is_word(a),
        is_word(b),
    ensures
        0 <= word_code(a) < 11881376,
        word_code(a) == word_code(b) ==> a == b,
{
    assert forall|i: int| 0 <= i < 5 implies 0 <= letter_rank(#[trigger] a[i]) < 26 by {
        assert('A' <= a[i] <= 'Z');
    }
    assert forall|i: int| 0 <= i < 5 implies 0 <= letter_rank(#[trigger] b[i]) < 26 by {
        assert('A' <= b[i] <= 'Z');
    }
    assert(0 <= letter_rank(a[0]) < 26 && 0 <= letter_rank(a[1]) < 26 && 0 <= letter_rank(a[2])
        < 26 && 0 <= letter_rank(a[3]) < 26 && 0 <= letter_rank(a[4]) < 26);
    assert(0 <= letter_rank(b[0]) < 26 && 0 <= letter_rank(b[1]) < 26 && 0 <= letter_rank(b[2])
        < 26 && 0 <= letter_rank(b[3]) < 26 && 0 <= letter_rank(b[4]) < 26);
    if word_code(a) == word_code(b) {
        assert(letter_rank(a[4]) == letter_rank(b[4]));
        assert(letter_rank(a[3]) == letter_rank(b[3]));
        assert(letter_rank(a[2]) == letter_rank(b[2]));
        assert(letter_rank(a[1]) == letter_rank(b[1]));
        assert(letter_rank(a[0]) == letter_rank(b[0]));
        assert forall|i: int| 0 <= i < 5 implies a[i] == b[i] by {
            assert(letter_rank(a[i]) == letter_rank(b[i]));
        }
        assert(a =~= b);
    }
}

/// A set that holds the codes of the first `n` words holds those of the
/// first `n + 1` once the code of the next word is put in.
pub proof fn lemma_code_added(
    list: Seq<Seq<char>>,
    before: Set<u64>,
    after: Set<u64>,
    code: u64,
    n: int,
)
    requires
        0 <= n < list.len(),
        word_code(list[n]) == code,
        after == before.insert(code),
        forall|other: u64| #[trigger] before.contains(other) <==> has_code(list, other as int, n),
    ensures
        forall|other: u64| #[trigger]
            after.contains(other) <==> has_code(list, other as int, n + 1),
{
    assert forall|other: u64| #[trigger]
        after.contains(other) <==> has_code(list, other as int, n + 1) by {
        if has_code(list, other as int, n + 1) {
            let i = choose|i: int| 0 <= i < n + 1 && word_code(#[trigger] list[i]) == other as int;
            if i < n {
                assert(has_code(list, other as int, n));
                assert(before.contains(other));
            }
        }
        if after.contains(other) {
            if other == code {
                assert(word_code(list[n]) == other as int);
            } else {
                assert(before.contains(other));
                let i = choose|i: int| 0 <= i < n && word_code(#[trigger] list[i]) == other as int;
                assert(0 <= i < n + 1 && word_code(list[i]) == other as int);
            }
        }
    }
}

/// The code of a word.
pub fn code_of_word(word: &str) -> (code: u64)
    requires
        is_word(word@),
    ensures
        code == word_code(word@),
{
    let bytes = word_as_bytes(word);
    proof {
        assert forall|i: int| 0 <= i < 5 implies #[trigger] bytes@[i] - 0x41 == letter_rank(
            word@[i],
        ) by {
            assert('A' <= word@[i] <= 'Z');
            assert(word_bytes(word@)[i] == word@[i] as u8);
        }
        assert(0x41 <= bytes@[0] <= 0x5a && 0x41 <= bytes@[1] <= 0x5a && 0x41 <= bytes@[2]
            <= 0x5a && 0x41 <= bytes@[3] <= 0x5a && 0x41 <= bytes@[4] <= 0x5a);
    }
    let mut code: u64 = 0;
    let mut idx: usize = 0;
    while idx < WORD_LENGTH
        invariant
            idx <= WORD_LENGTH,
            bytes@.len() == WORD_LENGTH,
            forall|i: int| 0 <= i < 5 ==> 0x41 <= #[trigger] bytes@[i] <= 0x5a,
            code == partial_code(bytes@, idx as int),
            code < 11881376,
        decreases WORD_LENGTH - idx,
    {
        proof {
            lemma_partial_code_bound(bytes@, idx as int);
            lemma_partial_code_bound(bytes@, idx + 1);
        }
        code = code * 26 + (bytes[idx] - 0x41) as u64;
        idx += 1;
    }
    proof {
        reveal_with_fuel(partial_code, 6);
    }
    code
}

/// The number that the first `n` letters spell in base 26.
spec fn partial_code(bytes: Seq<u8>, n: int) -> int
    decreases n,
{
    if n <= 0 {
        0
    } else {
        partial_code(bytes, n - 1) * 26 + (bytes[n - 1] - 0x41)
    }
}

spec fn pow26(n: int) -> int
    decreases n,
{
    if n <= 0 {
        1
    } else {
        26 * pow26(n - 1)
    }
}

proof fn lemma_partial_code_bound(bytes: Seq<u8>, n: int)
    requires
        0 <= n <= 5,
        bytes.len() == 5,
        forall|i: int| 0 <= i < 5 ==> 0x41 <= #[trigger] bytes[i] <= 0x5a,
    ensures
        0 <= partial_code(bytes, n) < pow26(n),
        pow26(n) <= 11881376,
    decreases n,
{
    reveal_with_fuel(pow26, 6);
    if n > 0 {
        lemma_partial_code_bound(bytes, n - 1);
        assert(0x41 <= bytes[n - 1] <= 0x5a);
    }
}

/// What a dictionary holds: the allowed guesses and the possible secrets,
/// each in the order given.
pub struct DictionaryView {
    pub allowed: Seq<Seq<char>>,
    pub secrets: Seq<Seq<char>>,
}

/// The rules of a dictionary: every entry is a word in canonical form, and
/// every secret is an allowed guess.
pub open spec fn dictionary_ok(allowed: Seq<Seq<char>>, secrets: Seq<Seq<char>>) -> bool {
    &&& forall|i: int| 0 <= i < allowed.len() ==> is_word(#[trigger] allowed[i])
    &&& forall|j: int| 0 <= j < secrets.len() ==> secret_ok(allowed, #[trigger] secrets[j])
}

/// A secret is a word in canonical form that is also an allowed guess.
pub open spec fn secret_ok(allowed: Seq<Seq<char>>, secret: Seq<char>) -> bool {
    is_word(secret) && allowed.contains(secret)
}

/// The word lists of the game. Built once and never changed.
#[derive(Debug)]
pub struct Dictionary {
    allowed: Vec<String>,
    secrets: Vec<String>,
    allowed_codes: HashSet<u64>,
}

impl View for Dictionary {
    type V = DictionaryView;

    closed spec fn view(&self) -> DictionaryView {
        DictionaryView { allowed: words_of(self.allowed@), secrets: words_of(self.secrets@) }
    }
}

impl Dictionary {
    /// The dictionary keeps its rules, and knows the allowed guesses by
    /// their codes.
    #[verifier::type_invariant]
    pub open spec fn wf(&self) -> bool {
        &&& dictionary_ok(self@.allowed, self@.secrets)
        &&& self.codes_agree()
    }

    /// The set of codes holds the codes of the allowed guesses and no other.
    pub closed spec fn codes_agree(&self) -> bool {
        forall|code: u64| #[trigger]
            self.allowed_codes@.contains(code) <==> has_code(
                words_of(self.allowed@),
                code as int,
                self.allowed@.len() as int,
            )
    }

    /// Builds the dictionary from the two word lists, or names the first
    /// entry that breaks the rules: first among the allowed guesses, then
    /// among the secrets.
    pub fn new(allowed: Vec<String>, secrets: Vec<String>) -> (result: Result<
        Dictionary,
        WordleError,
    >)
        ensures
            match result {
                Ok(dictionary) => {
                    &&& dictionary_ok(words_of(allowed@), words_of(secrets@))
                    &&& dictionary.wf()
                    &&& dictionary@.allowed == words_of(allowed@)
                    &&& dictionary@.secrets == words_of(secrets@)
                },
                Err(error) => {
                    &&& !dictionary_ok(words_of(allowed@), words_of(secrets@))
                    &&& error matches WordleError::FatalConfig { word }
                    &&& first_offender(words_of(allowed@), words_of(secrets@), word@)
                },
            },
    {
        let mut allowed_codes: HashSet<u64> = HashSet::new();
        let mut idx: usize = 0;
        while idx < allowed.len()
            invariant
                idx <= allowed.len(),
                forall|i: int| 0 <= i < idx ==> is_word(#[trigger] words_of(allowed@)[i]),
                forall|code: u64| #[trigger]
                    allowed_codes@.contains(code) <==> has_code(
                        words_of(allowed@),
                        code as int,
                        idx as int,
                    ),
            decreases allowed.len() - idx,
        {
            if !is_canonical_word(allowed[idx].as_str()) {
                assert(!is_word(words_of(allowed@)[idx as int]));
                return Err(WordleError::FatalConfig { word: allowed[idx].clone() });
            }
            let code = code_of_word(allowed[idx].as_str());
            let ghost before = allowed_codes@;
            allowed_codes.insert(code);
            proof {
                lemma_code_added(words_of(allowed@), before, allowed_codes@, code, idx as int);
            }
            idx += 1;
        }
        let mut idx: usize = 0;
        while idx < secrets.len()
            invariant
                idx <= secrets.len(),
                forall|i: int| 0 <= i < allowed.len() ==> is_word(#[trigger] words_of(allowed@)[i]),
                forall|code: u64| #[trigger]
                    allowed_codes@.contains(code) <==> has_code(
                        words_of(allowed@),
                        code as int,
                        allowed@.len() as int,
                    ),
                forall|j: int|
                    0 <= j < idx ==> secret_ok(words_of(allowed@), #[trigger] words_of(secrets@)[j]),
            decreases secrets.len() - idx,
        {
            let known = knows_word(&allowed_codes, Ghost(words_of(allowed@)), secrets[idx].as_str());
            if !known {
                assert(!secret_ok(words_of(allowed@), words_of(secrets@)[idx as int]));
                return Err(WordleError::FatalConfig { word: secrets[idx].clone() });
            }
            idx += 1;
        }
        Ok(Dictionary { allowed, secrets, allowed_codes })
    }

    /// The allowed guesses, in the order given.
    pub fn allowed(&self) -> (list: &[String])
        ensures
            words_of(list@) == self@.allowed,
    {
        self.allowed.as_slice()
    }

    /// The possible secrets, in the order given.
    pub fn secrets(&self) -> (list: &[String])
        ensures
            words_of(list@) == self@.secrets,
    {
        self.secrets.as_slice()
    }
}

/// `word` is the first entry that breaks the rules: the first allowed guess
/// that is no word, or, where all of them are words, the first secret that
/// is no word or no allowed guess.
pub open spec fn first_offender(
    allowed: Seq<Seq<char>>,
    secrets: Seq<Seq<char>>,
    word: Seq<char>,
) -> bool {
    ||| exists|i: int|
        {
            &&& 0 <= i < allowed.len()
            &&& #[trigger] allowed[i] == word
            &&& !is_word(word)
            &&& forall|k: int| 0 <= k < i ==> is_word(#[trigger] allowed[k])
        }
    ||| {
        &&& forall|k: int| 0 <= k < allowed.len() ==> is_word(#[trigger] allowed[k])
        &&& exists|j: int|
            {
                &&& 0 <= j < secrets.len()
                &&& #[trigger] secrets[j] == word
                &&& !secret_ok(allowed, word)
                &&& forall|k: int| 0 <= k < j ==> secret_ok(allowed, #[trigger] secrets[k])
            }
    }
}

/// The allowed guesses of the dictionary, in upper case.
pub fn allowed_words(dictionary: &Dictionary) -> (list: &[String])
    ensures
        words_of(list@) == dictionary@.allowed,
{
    dictionary.allowed()
}

/// The possible secrets of the dictionary, in upper case.
pub fn secret_words(dictionary: &Dictionary) -> (list: &[String])
    ensures
        words_of(list@) == dictionary@.secrets,
{
    dictionary.secrets()
}

/// Accepts a canonical word that is an allowed guess, and turns down any
/// other with the word itself.
pub fn ensure_allowed(dictionary: &Dictionary, word: &str) -> (result: Result<(), WordleError>)
    ensures
        match result {
            Ok(_) => dictionary@.allowed.contains(word@),
            Err(error) => {
                &&& !dictionary@.allowed.contains(word@)
                &&& error matches WordleError::UnknownWord { word: unknown }
                &&& unknown@ == word@
            },
        },
{
    proof {
        use_type_invariant(dictionary);
    }
    if knows_word(&dictionary.allowed_codes, Ghost(words_of(dictionary.allowed@)), word) {
        Ok(())
    } else {
        Err(WordleError::UnknownWord { word: String::from_str(word) })
    }
}

/// Looks a text up in the set of the codes of a list of words: whether the
/// text is one of the words.
pub(crate) fn knows_word(codes: &HashSet<u64>, Ghost(list): Ghost<Seq<Seq<char>>>, text: &str) -> (known:
    bool)
    requires
        forall|i: int| 0 <= i < list.len() ==> is_word(#[trigger] list[i]),
        forall|code: u64| #[trigger]
            codes@.contains(code) <==> has_code(list, code as int, list.len() as int),
    ensures
        known == list.contains(text@),
{
    if !is_canonical_word(text) {
        assert forall|i: int| 0 <= i < list.len() implies list[i] != text@ by {
            assert(is_word(list[i]));
        }
        return false;
    }
    let code = code_of_word(text);
    let known = codes.contains(&code);
    proof {
        if known {
            assert(has_code(list, code as int, list.len() as int));
            let i = choose|i: int| 0 <= i < list.len() && word_code(#[trigger] list[i]) == code as int;
            assert(is_word(list[i]));
            lemma_word_code(list[i], text@);
            assert(list[i] == text@);
        } else {
            assert forall|i: int| 0 <= i < list.len() implies list[i] != text@ by {
                if list[i] == text@ {
                    assert(word_code(list[i]) == code as int);
                    assert(has_code(list, code as int, list.len() as int));
                }
            }
        }
    }
    known
}

/// The set of the codes of a list of words.
pub(crate) fn word_codes(list: &[&str]) -> (codes: HashSet<u64>)
    requires
        all_words(strs_of(list@)),
    ensures
        forall|code: u64| #[trigger]
            codes@.contains(code) <==> has_code(
                strs_of(list@),
                code as int,
                strs_of(list@).len() as int,
            ),
{
    let mut codes: HashSet<u64> = HashSet::new();
    let mut idx: usize = 0;
    while idx < list.len()
        invariant
            idx <= list.len(),
            all_words(strs_of(list@)),
            forall|code: u64| #[trigger]
                codes@.contains(code) <==> has_code(strs_of(list@), code as int, idx as int),
        decreases list.len() - idx,
    {
        proof {
            assert(strs_of(list@)[idx as int] == list@[idx as int]@);
            assert(is_word(strs_of(list@)[idx as int]));
        }
        let code = code_of_word(list[idx]);
        let ghost before = codes@;
        codes.insert(code);
        proof {
            lemma_code_added(strs_of(list@), before, codes@, code, idx as int);
        }
        idx += 1;
    }
    codes
}

} // verus!
