//! Trimming and upper-casing text, character by character.

use vstd::prelude::*;
use vstd::std_specs::iter::IteratorSpec;
use vstd::string::*;

verus! {

broadcast use vstd::string::group_string_axioms;

/// The characters that Unicode marks as `White_Space`.
pub open spec fn is_whitespace(c: char) -> bool {
    ||| '\u{9}' <= c <= '\u{d}'
    ||| c == ' '
    ||| c == '\u{85}'
    ||| c == '\u{a0}'
    ||| c == '\u{1680}'
    ||| '\u{2000}' <= c <= '\u{200a}'
    ||| c == '\u{2028}'
    ||| c == '\u{2029}'
    ||| c == '\u{202f}'
    ||| c == '\u{205f}'
    ||| c == '\u{3000}'
}

/// The text without its leading whitespace.
pub open spec fn trimmed_start(text: Seq<char>) -> Seq<char>
    decreases text.len(),
{
    if text.len() > 0 && is_whitespace(text[0]) {
        trimmed_start(text.drop_first())
    } else {
        text
    }
}

/// The text without its trailing whitespace.
pub open spec fn trimmed_end(text: Seq<char>) -> Seq<char>
    decreases text.len(),
{
    if text.len() > 0 && is_whitespace(text.last()) {
        trimmed_end(text.drop_last())
    } else {
        text
    }
}

/// The text without leading and trailing whitespace.
pub open spec fn trimmed(text: Seq<char>) -> Seq<char> {
    trimmed_end(trimmed_start(text))
}

/// The upper case of an ASCII lower-case letter; any other character itself.
pub open spec fn ascii_upper(c: char) -> char {
    if 'a' <= c <= 'z' {
        ((c as u8) - 32) as char
    } else {
        c
    }
}

/// The text with every ASCII lower-case letter in upper case.
pub open spec fn uppercased(text: Seq<char>) -> Seq<char> {
    Seq::new(text.len(), |i: int| ascii_upper(text[i]))
}

/// `String::push` appends one character to the end of the string.
pub assume_specification[ String::push ](text: &mut String, ch: char)
    ensures
        final(text)@ == old(text)@.push(ch),
;

/// Trimming takes nothing from a text that neither starts nor ends with
/// whitespace.
pub proof fn lemma_trimmed_identity(text: Seq<char>)
    requires
        text.len() > 0 ==> !is_whitespace(text[0]) && !is_whitespace(text.last()),
    ensures
        trimmed(text) == text,
{
}

/// Upper-casing changes nothing in a text without ASCII lower-case letters.
pub proof fn lemma_uppercased_identity(text: Seq<char>)
    requires
        forall|i: int| 0 <= i < text.len() ==> !('a' <= #[trigger] text[i] <= 'z'),
    ensures
        uppercased(text) == text,
{
    assert(uppercased(text) =~= text);
}

/// Whether Unicode marks the character as `White_Space`.
pub fn is_whitespace_char(c: char) -> (yes: bool)
    ensures
        yes == is_whitespace(c),
{
    ('\u{9}' <= c && c <= '\u{d}') || c == ' ' || c == '\u{85}' || c == '\u{a0}' || c
        == '\u{1680}' || ('\u{2000}' <= c && c <= '\u{200a}') || c == '\u{2028}' || c
        == '\u{2029}' || c == '\u{202f}' || c == '\u{205f}' || c == '\u{3000}'
}

/// The upper case of an ASCII lower-case letter; any other character itself.
pub fn to_ascii_upper(c: char) -> (upper: char)
    ensures
        upper == ascii_upper(c),
{
    if 'a' <= c && c <= 'z' {
        ((c as u8) - 32) as char
    } else {
        c
    }
}

/// The characters of a text, in order.
pub fn collect_chars(text: &str) -> (list: Vec<char>)
    ensures
        list@ == text@,
{
    let mut list: Vec<char> = Vec::new();
    let mut chars = text.chars();
    loop
        invariant
            chars.obeys_prophetic_iter_laws(),
            list@.len() <= text@.len(),
            list@ == text@.subrange(0, list@.len() as int),
            IteratorSpec::remaining(&chars) == text@.subrange(
                list@.len() as int,
                text@.len() as int,
            ),
        ensures
            list@ == text@,
        decreases text@.len() - list@.len(),
    {
        let ghost rest = IteratorSpec::remaining(&chars);
        let ghost seen = list@.len() as int;
        match chars.next() {
            None => {
                proof {
                    assert(rest.len() == 0);
                    assert(text@.subrange(0, seen) =~= text@);
                }
                break ;
            },
            Some(c) => {
                proof {
                    assert(rest.len() > 0);
                    assert(c == rest[0]);
                    assert(rest[0] == text@[seen]);
                    assert(rest.drop_first() =~= text@.subrange(seen + 1, text@.len() as int));
                }
                list.push(c);
                proof {
                    assert(list@ =~= text@.subrange(0, seen + 1));
                }
            },
        }
    }
    list
}

proof fn lemma_trimmed_start_skips(text: Seq<char>, from: int)
    requires
        0 <= from < text.len(),
        is_whitespace(text[from]),
    ensures
        trimmed_start(text.subrange(from, text.len() as int)) == trimmed_start(
            text.subrange(from + 1, text.len() as int),
        ),
{
    let rest = text.subrange(from, text.len() as int);
    assert(rest[0] == text[from]);
    assert(rest.drop_first() =~= text.subrange(from + 1, text.len() as int));
}

proof fn lemma_trimmed_end_skips(text: Seq<char>, from: int, to: int)
    requires
        0 <= from < to <= text.len(),
        is_whitespace(text[to - 1]),
    ensures
        trimmed_end(text.subrange(from, to)) == trimmed_end(text.subrange(from, to - 1)),
{
    let rest = text.subrange(from, to);
    assert(rest.last() == text[to - 1]);
    assert(rest.drop_last() =~= text.subrange(from, to - 1));
}

/// Where the text starts and ends once the whitespace around it is left
/// out.
pub fn trim_bounds(chars: &Vec<char>) -> (bounds: (usize, usize))
    ensures
        bounds.0 <= bounds.1 <= chars@.len(),
        chars@.subrange(bounds.0 as int, bounds.1 as int) == trimmed(chars@),
{
    let len = chars.len();
    let mut start: usize = 0;
    proof {
        assert(chars@.subrange(0, len as int) =~= chars@);
    }
    while start < len && is_whitespace_char(chars[start])
        invariant
            start <= len,
            len == chars@.len(),
            trimmed_start(chars@) == trimmed_start(chars@.subrange(start as int, len as int)),
        decreases len - start,
    {
        proof {
            lemma_trimmed_start_skips(chars@, start as int);
        }
        start += 1;
    }
    proof {
        let rest = chars@.subrange(start as int, len as int);
        if start < len {
            assert(rest[0] == chars@[start as int]);
        }
        assert(trimmed_start(rest) == rest);
    }
    let mut end: usize = len;
    while end > start && is_whitespace_char(chars[end - 1])
        invariant
            start <= end <= len,
            len == chars@.len(),
            trimmed(chars@) == trimmed_end(chars@.subrange(start as int, end as int)),
        decreases end,
    {
        proof {
            lemma_trimmed_end_skips(chars@, start as int, end as int);
        }
        end -= 1;
    }
    proof {
        let rest = chars@.subrange(start as int, end as int);
        if end > start {
            assert(rest.last() == chars@[end - 1]);
        }
        assert(trimmed_end(rest) == rest);
    }
    (start, end)
}

/// The characters from `start` to `end`, every ASCII lower-case letter in
/// upper case, as a string.
pub fn upper_string(chars: &Vec<char>, start: usize, end: usize) -> (text: String)
    requires
        start <= end <= chars@.len(),
    ensures
        text@ == uppercased(chars@.subrange(start as int, end as int)),
{
    let ghost wanted = uppercased(chars@.subrange(start as int, end as int));
    let mut text = String::new();
    let mut idx: usize = start;
    while idx < end
        invariant
            start <= idx <= end <= chars@.len(),
            wanted == uppercased(chars@.subrange(start as int, end as int)),
            text@ == wanted.subrange(0, idx - start),
        decreases end - idx,
    {
        text.push(to_ascii_upper(chars[idx]));
        proof {
            assert(text@ =~= wanted.subrange(0, idx + 1 - start));
        }
        idx += 1;
    }
    proof {
        assert(wanted.subrange(0, end - start) =~= wanted);
    }
    text
}

} // verus!
