//! The base-3 code of a feedback pattern and its display form.

use vstd::prelude::*;
use crate::pattern::{PATTERN_CORRECT, PATTERN_PRESENT, PATTERN_SPACE, WORD_LENGTH};

verus! {

/// Every digit is one of absent, present, correct.
pub open spec fn is_pattern_digits(digits: Seq<u8>) -> bool {
    forall|i: int| 0 <= i < digits.len() ==> #[trigger] digits[i] <= PATTERN_CORRECT
}

/// Three to the power of `n`.
pub open spec fn pow3(n: nat) -> nat
    decreases n,
{
    if n == 0 {
        1
    } else {
        3 * pow3((n - 1) as nat)
    }
}

/// The number that the digits spell in base 3, most significant digit first.
pub open spec fn pattern_code(digits: Seq<u8>) -> nat
    decreases digits.len(),
{
    if digits.len() == 0 {
        0
    } else {
        3 * pattern_code(digits.drop_last()) + digits.last() as nat
    }
}

/// The `len` lowest base-3 digits of `code`, most significant first.
pub open spec fn code_digits(code: nat, len: nat) -> Seq<u8>
    decreases len,
{
    if len == 0 {
        Seq::empty()
    } else {
        code_digits(code / 3, (len - 1) as nat).push((code % 3) as u8)
    }
}

/// The display character of a digit: `G` for correct, `Y` for present, `B`
/// for absent.
pub open spec fn glyph(digit: u8) -> char {
    if digit == PATTERN_CORRECT {
        'G'
    } else if digit == PATTERN_PRESENT {
        'Y'
    } else {
        'B'
    }
}

/// The display form of a sequence of digits.
pub open spec fn pattern_glyphs(digits: Seq<u8>) -> Seq<char> {
    Seq::new(digits.len(), |i: int| glyph(digits[i]))
}

/// A pattern's code lies below three to the power of its length.
pub proof fn lemma_pattern_code_bound(digits: Seq<u8>)
    requires
        is_pattern_digits(digits),
    ensures
        pattern_code(digits) < pow3(digits.len()),
    decreases digits.len(),
{
    if digits.len() > 0 {
        lemma_pattern_code_bound(digits.drop_last());
    }
}

/// The digits read back from a code have the length asked for and are
/// pattern digits.
pub proof fn lemma_code_digits_shape(code: nat, len: nat)
    ensures
        code_digits(code, len).len() == len,
        is_pattern_digits(code_digits(code, len)),
    decreases len,
{
    if len > 0 {
        lemma_code_digits_shape(code / 3, (len - 1) as nat);
    }
}

/// Decoding the code of a pattern gives the pattern back.
pub proof fn lemma_decode_encode(digits: Seq<u8>)
    requires
        is_pattern_digits(digits),
    ensures
        code_digits(pattern_code(digits), digits.len()) == digits,
    decreases digits.len(),
{
    if digits.len() > 0 {
        let front = digits.drop_last();
        lemma_decode_encode(front);
        let code = pattern_code(digits);
        assert(code / 3 == pattern_code(front));
        assert(code % 3 == digits.last() as nat);
        assert(code_digits(code, digits.len()) =~= digits);
    } else {
        assert(code_digits(pattern_code(digits), digits.len()) =~= digits);
    }
}

/// Encoding the digits of a code that fits `len` digits gives the code back.
pub proof fn lemma_encode_decode(code: nat, len: nat)
    requires
        code < pow3(len),
    ensures
        pattern_code(code_digits(code, len)) == code,
    decreases len,
{
    if len > 0 {
        lemma_encode_decode(code / 3, (len - 1) as nat);
        let digits = code_digits(code, len);
        assert(digits.drop_last() =~= code_digits(code / 3, (len - 1) as nat));
    }
}

/// The display form tells the patterns apart: two patterns that display
/// alike are the same pattern.
pub proof fn lemma_glyphs_injective(a: Seq<u8>, b: Seq<u8>)
    requires
        is_pattern_digits(a),
        is_pattern_digits(b),
        pattern_glyphs(a) == pattern_glyphs(b),
    ensures
        a == b,
{
    assert(a.len() == pattern_glyphs(a).len());
    assert(b.len() == pattern_glyphs(b).len());
    assert forall|i: int| 0 <= i < a.len() implies a[i] == b[i] by {
        assert(pattern_glyphs(a)[i] == glyph(a[i]));
        assert(pattern_glyphs(b)[i] == glyph(b[i]));
    }
    assert(a =~= b);
}

/// The display form of the decoded code of a pattern is the display form of
/// the pattern.
pub proof fn lemma_display_of_code(digits: Seq<u8>)
    requires
        is_pattern_digits(digits),
    ensures
        pattern_glyphs(code_digits(pattern_code(digits), digits.len())) == pattern_glyphs(digits),
{
    lemma_decode_encode(digits);
}

/// The patterns of the game have a code below `PATTERN_SPACE`.
pub proof fn lemma_pattern_space()
    ensures
        pow3(WORD_LENGTH as nat) == PATTERN_SPACE,
{
    reveal_with_fuel(pow3, 6);
}

/// Folds the digits of a pattern into its code.
pub fn encode_pattern(digits: &[u8; 5]) -> (code: usize)
    requires
        is_pattern_digits(digits@),
    ensures
        code == pattern_code(digits@),
        code < PATTERN_SPACE,
{
    let mut acc: usize = 0;
    let mut idx: usize = 0;
    while idx < WORD_LENGTH
        invariant
            idx <= WORD_LENGTH,
            is_pattern_digits(digits@),
            acc == pattern_code(digits@.subrange(0, idx as int)),
            acc < pow3(idx as nat),
        decreases WORD_LENGTH - idx,
    {
        proof {
            reveal_with_fuel(pow3, 6);
            assert(digits@.subrange(0, idx + 1).drop_last() =~= digits@.subrange(0, idx as int));
        }
        acc = acc * 3 + digits[idx] as usize;
        idx += 1;
    }
    proof {
        lemma_pattern_space();
        assert(digits@.subrange(0, 5) =~= digits@);
    }
    acc
}

/// Writes a pattern code as five characters, one per tile.
pub fn pattern_code_to_string(code: usize) -> (text: String)
    ensures
        text@ == pattern_glyphs(code_digits(code as nat, WORD_LENGTH as nat)),
{
    let ghost full = code_digits(code as nat, 5);
    proof {
        lemma_code_digits_shape(code as nat, 5);
    }
    let mut rest = code;
    let mut chars = ['B'; 5];
    let mut idx: usize = WORD_LENGTH;
    while idx > 0
        invariant
            idx <= WORD_LENGTH,
            full.len() == 5,
            full.subrange(0, idx as int) == code_digits(rest as nat, idx as nat),
            forall|j: int| idx <= j < 5 ==> #[trigger] chars@[j] == glyph(full[j]),
        decreases idx,
    {
        let digit = rest % 3;
        proof {
            let lower = code_digits(rest as nat, idx as nat);
            assert(lower == code_digits(rest as nat / 3, (idx - 1) as nat).push(
                (rest as nat % 3) as u8,
            ));
            assert(full[idx - 1] == full.subrange(0, idx as int)[idx - 1]);
            assert(full.subrange(0, idx - 1) =~= full.subrange(0, idx as int).drop_last());
            assert(lower.drop_last() =~= code_digits(rest as nat / 3, (idx - 1) as nat));
        }
        rest = rest / 3;
        idx -= 1;
        let shown = if digit == 2 {
            'G'
        } else if digit == 1 {
            'Y'
        } else {
            'B'
        };
        chars[idx] = shown;
    }
    let mut text = String::new();
    let mut at: usize = 0;
    while at < WORD_LENGTH
        invariant
            at <= WORD_LENGTH,
            full.len() == 5,
            forall|j: int| 0 <= j < 5 ==> #[trigger] chars@[j] == glyph(full[j]),
            text@ == pattern_glyphs(full).subrange(0, at as int),
        decreases WORD_LENGTH - at,
    {
        text.push(chars[at]);
        proof {
            assert(text@ =~= pattern_glyphs(full).subrange(0, at + 1));
        }
        at += 1;
    }
    proof {
        assert(pattern_glyphs(full).subrange(0, 5) =~= pattern_glyphs(full));
    }
    text
}

} // verus!
