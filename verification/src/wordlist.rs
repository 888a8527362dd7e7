//! Reading a word list from text: one entry to a line.

use vstd::prelude::*;
use vstd::std_specs::iter::IteratorSpec;
use vstd::string::*;
use crate::letters::is_word;
use crate::pattern::WORD_LENGTH;
use crate::text::trimmed;
use crate::words::{
    is_canonical_word, normalize, normalized, words_of, Dictionary, WordleError,
};

verus! {

broadcast use vstd::string::group_string_axioms;

/// What the first `n` characters of a text split into at the line feeds:
/// the lines that are complete, and the line that is still open.
pub open spec fn split_upto(text: Seq<char>, n: int) -> (Seq<Seq<char>>, Seq<char>)
    decreases n,
{
    if n <= 0 {
        (Seq::empty(), Seq::empty())
    } else {
        let (done, open) = split_upto(text, n - 1);
        if text[n - 1] == '\n' {
            (done.push(open), Seq::empty())
        } else {
            (done, open.push(text[n - 1]))
        }
    }
}

/// The lines of a text: what stands between its line feeds, before the
/// first and after the last.
pub open spec fn lines_of(text: Seq<char>) -> Seq<Seq<char>> {
    let (done, open) = split_upto(text, text.len() as int);
    done.push(open)
}

/// Whether a line gives an entry: trimmed, it has five characters, and,
/// where only letters are taken, its upper case is a word.
pub open spec fn gives_entry(line: Seq<char>, letters_only: bool) -> bool {
    &&& trimmed(line).len() == WORD_LENGTH
    &&& letters_only ==> is_word(normalized(line))
}

/// The entries that the first `n` lines give, in their order: each line
/// that gives one, trimmed and in upper case.
pub open spec fn entries_upto(lines: Seq<Seq<char>>, letters_only: bool, n: int) -> Seq<Seq<char>>
    decreases n,
{
    if n <= 0 {
        Seq::empty()
    } else if gives_entry(lines[n - 1], letters_only) {
        entries_upto(lines, letters_only, n - 1).push(normalized(lines[n - 1]))
    } else {
        entries_upto(lines, letters_only, n - 1)
    }
}

/// The word list that a text spells.
pub open spec fn listed_words(text: Seq<char>, letters_only: bool) -> Seq<Seq<char>> {
    entries_upto(lines_of(text), letters_only, lines_of(text).len() as int)
}

proof fn lemma_entries_of_prefix(
    lines: Seq<Seq<char>>,
    longer: Seq<Seq<char>>,
    letters_only: bool,
    n: int,
)
    requires
        0 <= n <= lines.len() <= longer.len(),
        forall|i: int| 0 <= i < lines.len() ==> lines[i] == longer[i],
    ensures
        entries_upto(lines, letters_only, n) == entries_upto(longer, letters_only, n),
    decreases n,
{
    if n > 0 {
        lemma_entries_of_prefix(lines, longer, letters_only, n - 1);
    }
}

/// Adds the entry of a line to the list, if the line gives one.
fn add_entry(list: &mut Vec<String>, line: &str, letters_only: bool)
    ensures
        words_of(final(list)@) == if gives_entry(line@, letters_only) {
            words_of(old(list)@).push(normalized(line@))
        } else {
            words_of(old(list)@)
        },
{
    match normalize(line) {
        Ok(upper) => {
            if !letters_only || is_canonical_word(upper.as_str()) {
                let ghost before = words_of(list@);
                list.push(upper);
                proof {
                    assert(words_of(list@) =~= before.push(normalized(line@)));
                }
            }
        },
        Err(_) => {},
    }
}

/// Reads a word list from text. Every line is trimmed; a line that then
/// has five characters gives an entry, in upper case, and any other line is
/// passed over. Where `letters_only` is set, a line with anything but ASCII
/// letters is passed over too.
pub fn word_list_from_text(text: &str, letters_only: bool) -> (list: Vec<String>)
    ensures
        words_of(list@) == listed_words(text@, letters_only),
{
    let mut list: Vec<String> = Vec::new();
    let mut line = String::new();
    let mut chars = text.chars();
    let ghost mut seen: int = 0;
    proof {
        assert(words_of(list@) =~= Seq::<Seq<char>>::empty());
    }
    loop
        invariant
            0 <= seen <= text@.len(),
            chars.obeys_prophetic_iter_laws(),
            IteratorSpec::remaining(&chars) == text@.subrange(seen, text@.len() as int),
            line@ == split_upto(text@, seen).1,
            words_of(list@) == entries_upto(
                split_upto(text@, seen).0,
                letters_only,
                split_upto(text@, seen).0.len() as int,
            ),
        ensures
            seen == text@.len(),
            line@ == split_upto(text@, seen).1,
            words_of(list@) == entries_upto(
                split_upto(text@, seen).0,
                letters_only,
                split_upto(text@, seen).0.len() as int,
            ),
        decreases text@.len() - seen,
    {
        let ghost rest = IteratorSpec::remaining(&chars);
        match chars.next() {
            None => {
                proof {
                    assert(rest.len() == 0);
                }
                break ;
            },
            Some(c) => {
                proof {
                    assert(rest.len() > 0);
                    assert(c == rest[0]);
                    assert(rest[0] == text@[seen]);
                    assert(rest.drop_first() =~= text@.subrange(seen + 1, text@.len() as int));
                }
                let ghost done = split_upto(text@, seen).0;
                if c == '\n' {
                    add_entry(&mut list, line.as_str(), letters_only);
                    proof {
                        let now = done.push(line@);
                        lemma_entries_of_prefix(done, now, letters_only, done.len() as int);
                    }
                    line = String::new();
                } else {
                    line.push(c);
                }
                proof {
                    seen = seen + 1;
                }
            },
        }
    }
    add_entry(&mut list, line.as_str(), letters_only);
    proof {
        let done = split_upto(text@, seen).0;
        let all = lines_of(text@);
        lemma_entries_of_prefix(done, all, letters_only, done.len() as int);
    }
    list
}

impl Dictionary {
    /// Builds the dictionary from the text of the two word lists, one entry
    /// to a line. Of the allowed guesses every line of five characters
    /// counts; of the secrets only those made of letters. The entries then
    /// have to keep the rules of a dictionary.
    pub fn from_text(allowed_text: &str, secrets_text: &str) -> (result: Result<
        Dictionary,
        WordleError,
    >)
        ensures
            match result {
                Ok(dictionary) => {
                    &&& crate::words::dictionary_ok(
                        listed_words(allowed_text@, false),
                        listed_words(secrets_text@, true),
                    )
                    &&& dictionary.wf()
                    &&& dictionary@.allowed == listed_words(allowed_text@, false)
                    &&& dictionary@.secrets == listed_words(secrets_text@, true)
                },
                Err(error) => {
                    &&& !crate::words::dictionary_ok(
                        listed_words(allowed_text@, false),
                        listed_words(secrets_text@, true),
                    )
                    &&& error matches WordleError::FatalConfig { word }
                    &&& crate::words::first_offender(
                        listed_words(allowed_text@, false),
                        listed_words(secrets_text@, true),
                        word@,
                    )
                },
            },
    {
        let allowed = word_list_from_text(allowed_text, false);
        let secrets = word_list_from_text(secrets_text, true);
        Dictionary::new(allowed, secrets)
    }
}

} // verus!
