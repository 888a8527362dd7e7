//! How a guess splits a set of candidate secrets into feedback patterns.

use vstd::prelude::*;
use vstd::string::*;
use crate::bignat::BigNat;
use crate::code::{
    code_digits, encode_pattern, is_pattern_digits, lemma_pattern_code_bound, lemma_pattern_space,
    pattern_code, pattern_code_to_string, pattern_glyphs,
};
use crate::letters::{is_word, lemma_pattern_over_bytes, word_as_bytes};
use crate::pattern::{compute_pattern_digits, pattern_digits, PATTERN_SPACE, WORD_LENGTH};
use crate::words::{
    ensure_allowed, normalize, normalized, words_of, Dictionary, WordleError,
};
use crate::text::trimmed;

verus! {

/// The character sequences of a list of string slices.
pub open spec fn strs_of(list: Seq<&str>) -> Seq<Seq<char>> {
    Seq::new(list.len(), |i: int| list[i]@)
}

/// Every entry of the list is a word in canonical form.
pub open spec fn all_words(list: Seq<Seq<char>>) -> bool {
    forall|i: int| 0 <= i < list.len() ==> is_word(#[trigger] list[i])
}

/// The code of the pattern that `guess` gets against `secret`.
pub open spec fn code_of(secret: Seq<char>, guess: Seq<char>) -> nat {
    pattern_code(pattern_digits(secret, guess))
}

/// How many of the first `n` secrets give `guess` the pattern with this code.
pub open spec fn count_with_code(
    guess: Seq<char>,
    secrets: Seq<Seq<char>>,
    code: nat,
    n: int,
) -> nat
    decreases n,
{
    if n <= 0 {
        0
    } else {
        let here: nat = if code_of(secrets[n - 1], guess) == code {
            1
        } else {
            0
        };
        count_with_code(guess, secrets, code, n - 1) + here
    }
}

/// For each pattern code, the number of secrets that give `guess` that
/// pattern.
pub open spec fn histogram(guess: Seq<char>, secrets: Seq<Seq<char>>) -> Seq<nat> {
    Seq::new(
        PATTERN_SPACE as nat,
        |code: int| count_with_code(guess, secrets, code as nat, secrets.len() as int),
    )
}

/// The sum of the first `n` counters.
pub open spec fn sum_counts(counts: Seq<nat>, n: int) -> nat
    decreases n,
{
    if n <= 0 {
        0
    } else {
        sum_counts(counts, n - 1) + counts[n - 1]
    }
}

/// How many of the first `n` counters are not zero.
pub open spec fn count_nonzero(counts: Seq<nat>, n: int) -> nat
    decreases n,
{
    if n <= 0 {
        0
    } else {
        let here: nat = if counts[n - 1] > 0 {
            1
        } else {
            0
        };
        count_nonzero(counts, n - 1) + here
    }
}

/// `base` to the power of `exp`, with 1 for the power 0.
pub open spec fn pow_nat(base: nat, exp: nat) -> nat
    decreases exp,
{
    if exp == 0 {
        1
    } else {
        base * pow_nat(base, (exp - 1) as nat)
    }
}

/// The product, over the first `n` counters, of each counter to the power of
/// itself. It measures how unevenly a guess splits the secrets: where the
/// counters add up to `t` secrets, the Shannon entropy of the split, in
/// bits, is the binary logarithm of `t` less the binary logarithm of this
/// product divided by `t`. So of two analyses of the same secrets the one
/// with the smaller product has the greater entropy, and equal products
/// mean equal entropies.
pub open spec fn concentration(counts: Seq<nat>, n: int) -> nat
    decreases n,
{
    if n <= 0 {
        1
    } else {
        concentration(counts, n - 1) * pow_nat(counts[n - 1], counts[n - 1])
    }
}

/// The display form of the pattern with this code.
pub open spec fn pattern_text(code: nat) -> Seq<char> {
    pattern_glyphs(code_digits(code, WORD_LENGTH as nat))
}

/// The patterns among the first `n` codes that at least one secret gives,
/// each with its number of secrets, in the order of their codes.
pub open spec fn nonzero_entries(counts: Seq<nat>, n: int) -> Seq<(Seq<char>, nat)>
    decreases n,
{
    if n <= 0 {
        Seq::empty()
    } else if counts[n - 1] > 0 {
        nonzero_entries(counts, n - 1).push((pattern_text((n - 1) as nat), counts[n - 1]))
    } else {
        nonzero_entries(counts, n - 1)
    }
}

/// What a list of patterns and numbers holds.
pub open spec fn entries_of(list: Seq<(String, usize)>) -> Seq<(Seq<char>, nat)> {
    Seq::new(list.len(), |i: int| (list[i].0@, list[i].1 as nat))
}

/// The analysis of one guess: the guess and, for each pattern code, the
/// number of candidate secrets that give it.
pub struct EntropyView {
    pub guess: Seq<char>,
    pub counts: Seq<nat>,
}

/// Among the first `n` secrets no pattern is given more than `n` times.
pub proof fn lemma_count_with_code_bound(
    guess: Seq<char>,
    secrets: Seq<Seq<char>>,
    code: nat,
    n: int,
)
    requires
        0 <= n,
    ensures
        count_with_code(guess, secrets, code, n) <= n,
    decreases n,
{
    if n > 0 {
        lemma_count_with_code_bound(guess, secrets, code, n - 1);
    }
}

/// The counters of every code, taken over the first `n` secrets only.
spec fn partial_histogram(guess: Seq<char>, secrets: Seq<Seq<char>>, n: int) -> Seq<nat> {
    Seq::new(PATTERN_SPACE as nat, |code: int| count_with_code(guess, secrets, code as nat, n))
}

proof fn lemma_sum_counts_step(before: Seq<nat>, after: Seq<nat>, hit: int, m: int)
    requires
        0 <= m <= before.len(),
        before.len() == after.len(),
        forall|c: int| 0 <= c < before.len() && c != hit ==> after[c] == before[c],
        0 <= hit < before.len() ==> after[hit] == before[hit] + 1,
    ensures
        sum_counts(after, m) == sum_counts(before, m) + if 0 <= hit < m {
            1nat
        } else {
            0nat
        },
    decreases m,
{
    if m > 0 {
        lemma_sum_counts_step(before, after, hit, m - 1);
    }
}

proof fn lemma_sum_counts_zero(counts: Seq<nat>, m: int)
    requires
        0 <= m <= counts.len(),
        forall|c: int| 0 <= c < counts.len() ==> counts[c] == 0,
    ensures
        sum_counts(counts, m) == 0,
    decreases m,
{
    if m > 0 {
        lemma_sum_counts_zero(counts, m - 1);
    }
}

proof fn lemma_partial_histogram_total(guess: Seq<char>, secrets: Seq<Seq<char>>, n: int)
    requires
        0 <= n <= secrets.len(),
        is_word(guess),
        all_words(secrets),
    ensures
        sum_counts(partial_histogram(guess, secrets, n), PATTERN_SPACE as int) == n,
    decreases n,
{
    if n == 0 {
        lemma_sum_counts_zero(partial_histogram(guess, secrets, 0), PATTERN_SPACE as int);
    } else {
        lemma_partial_histogram_total(guess, secrets, n - 1);
        lemma_code_in_space(secrets[n - 1], guess);
        lemma_sum_counts_step(
            partial_histogram(guess, secrets, n - 1),
            partial_histogram(guess, secrets, n),
            code_of(secrets[n - 1], guess) as int,
            PATTERN_SPACE as int,
        );
    }
}

/// The pattern of a guess has a code below `PATTERN_SPACE`.
pub proof fn lemma_code_in_space(secret: Seq<char>, guess: Seq<char>)
    requires
        is_word(guess),
    ensures
        code_of(secret, guess) < PATTERN_SPACE,
        is_pattern_digits(pattern_digits(secret, guess)),
{
    lemma_pattern_code_bound(pattern_digits(secret, guess));
    lemma_pattern_space();
}

/// The counters of an analysis add up to the number of secrets analysed.
pub proof fn lemma_histogram_total(guess: Seq<char>, secrets: Seq<Seq<char>>)
    requires
        is_word(guess),
        all_words(secrets),
    ensures
        sum_counts(histogram(guess, secrets), PATTERN_SPACE as int) == secrets.len(),
{
    lemma_partial_histogram_total(guess, secrets, secrets.len() as int);
    assert(partial_histogram(guess, secrets, secrets.len() as int) =~= histogram(guess, secrets));
}

proof fn lemma_sum_counts_monotone(counts: Seq<nat>, m: int, n: int)
    requires
        0 <= m <= n,
    ensures
        sum_counts(counts, m) <= sum_counts(counts, n),
    decreases n,
{
    if m < n {
        lemma_sum_counts_monotone(counts, m, n - 1);
    }
}

proof fn lemma_count_nonzero_bound(counts: Seq<nat>, n: int)
    requires
        0 <= n,
    ensures
        count_nonzero(counts, n) <= n,
        nonzero_entries(counts, n).len() == count_nonzero(counts, n),
    decreases n,
{
    if n > 0 {
        lemma_count_nonzero_bound(counts, n - 1);
    }
}

/// Counts, for each pattern code, the candidates that give `guess` that
/// pattern.
pub fn tally(guess: &str, secrets: &[&str]) -> (counts: [usize; 243])
    requires
        is_word(guess@),
        all_words(strs_of(secrets@)),
    ensures
        forall|code: int|
            0 <= code < PATTERN_SPACE ==> #[trigger] counts@[code] as nat == histogram(
                guess@,
                strs_of(secrets@),
            )[code],
{
    let mut counts = [0usize; 243];
    let guess_bytes = word_as_bytes(guess);
    let mut idx: usize = 0;
    while idx < secrets.len()
        invariant
            idx <= secrets.len(),
            is_word(guess@),
            all_words(strs_of(secrets@)),
            guess_bytes@ == crate::letters::word_bytes(guess@),
            crate::pattern::is_word_bytes(guess_bytes@),
            forall|code: int|
                0 <= code < PATTERN_SPACE ==> #[trigger] counts@[code] as nat == count_with_code(
                    guess@,
                    strs_of(secrets@),
                    code as nat,
                    idx as int,
                ),
        decreases secrets.len() - idx,
    {
        let secret = secrets[idx];
        proof {
            assert(strs_of(secrets@)[idx as int] == secret@);
            assert(is_word(secret@));
            lemma_pattern_over_bytes(secret@, guess@);
            lemma_code_in_space(secret@, guess@);
        }
        let digits = compute_pattern_digits(word_as_bytes(secret), guess_bytes);
        let pattern_code = encode_pattern(&digits);
        proof {
            lemma_count_with_code_bound(
                guess@,
                strs_of(secrets@),
                pattern_code as nat,
                idx as int,
            );
        }
        let raised: usize = counts[pattern_code] + 1;
        counts[pattern_code] = raised;
        idx += 1;
    }
    counts
}

/// Summary of a guess evaluated against a set of candidate secrets.
#[derive(Debug)]
pub struct GuessEntropy {
    guess: String,
    pattern_counts: [usize; 243],
}

/// The counters as numbers.
pub open spec fn counts_of(raw: Seq<usize>) -> Seq<nat> {
    Seq::new(raw.len(), |i: int| raw[i] as nat)
}

impl View for GuessEntropy {
    type V = EntropyView;

    closed spec fn view(&self) -> EntropyView {
        EntropyView { guess: self.guess@, counts: counts_of(self.pattern_counts@) }
    }
}

/// An analysis holds a word, one counter for each pattern code, and no more
/// secrets than a list can hold.
pub open spec fn analysis_ok(analysis: EntropyView) -> bool {
    &&& is_word(analysis.guess)
    &&& analysis.counts.len() == PATTERN_SPACE
    &&& sum_counts(analysis.counts, PATTERN_SPACE as int) <= usize::MAX
}

impl Clone for GuessEntropy {
    fn clone(&self) -> (copy: Self)
        ensures
            copy@ == self@,
    {
        proof {
            use_type_invariant(self);
        }
        GuessEntropy { guess: self.guess.clone(), pattern_counts: self.pattern_counts }
    }
}

impl GuessEntropy {
    /// The analysis keeps to the shape of an analysis.
    #[verifier::type_invariant]
    pub open spec fn wf(&self) -> bool {
        analysis_ok(self@)
    }

    /// Analyses a word in canonical form against the candidates.
    pub fn of_word(word: &str, secrets: &[&str]) -> (analysis: GuessEntropy)
        requires
            is_word(word@),
            all_words(strs_of(secrets@)),
        ensures
            analysis@.guess == word@,
            analysis@.counts == histogram(word@, strs_of(secrets@)),
            analysis.wf(),
    {
        let pattern_counts = tally(word, secrets);
        let guess = String::from_str(word);
        let candidates = secrets.len();
        proof {
            assert(counts_of(pattern_counts@) =~= histogram(word@, strs_of(secrets@)));
            lemma_histogram_total(word@, strs_of(secrets@));
            assert(strs_of(secrets@).len() == candidates);
        }
        GuessEntropy { guess, pattern_counts }
    }

    /// The guess, in upper case.
    pub fn guess(&self) -> (text: &str)
        ensures
            text@ == self@.guess,
            is_word(text@),
    {
        proof {
            use_type_invariant(self);
        }
        self.guess.as_str()
    }

    /// The number of secrets that the guess was analysed against.
    pub fn total_secrets(&self) -> (total: usize)
        ensures
            total == sum_counts(self@.counts, PATTERN_SPACE as int),
    {
        proof {
            use_type_invariant(self);
        }
        let mut total: usize = 0;
        let mut code: usize = 0;
        while code < PATTERN_SPACE
            invariant
                code <= PATTERN_SPACE,
                self@.counts == counts_of(self.pattern_counts@),
                total == sum_counts(self@.counts, code as int),
                sum_counts(self@.counts, PATTERN_SPACE as int) <= usize::MAX,
            decreases PATTERN_SPACE - code,
        {
            proof {
                lemma_sum_counts_monotone(self@.counts, code + 1, PATTERN_SPACE as int);
            }
            total = total + self.pattern_counts[code];
            code += 1;
        }
        total
    }

    /// Each pattern that at least one secret gives, in its display form, with
    /// the number of secrets that give it, in the order of the pattern codes.
    pub fn pattern_counts(&self) -> (list: Vec<(String, usize)>)
        ensures
            entries_of(list@) == nonzero_entries(self@.counts, PATTERN_SPACE as int),
    {
        let mut list: Vec<(String, usize)> = Vec::new();
        let mut code: usize = 0;
        while code < PATTERN_SPACE
            invariant
                code <= PATTERN_SPACE,
                self@.counts == counts_of(self.pattern_counts@),
                entries_of(list@) == nonzero_entries(self@.counts, code as int),
            decreases PATTERN_SPACE - code,
        {
            let count = self.pattern_counts[code];
            if count > 0 {
                let ghost before = list@;
                list.push((pattern_code_to_string(code), count));
                proof {
                    assert(entries_of(list@) =~= entries_of(before).push(
                        (pattern_text(code as nat), count as nat),
                    ));
                }
            }
            code += 1;
        }
        list
    }

    /// The concentration of the split, by which analyses of the same secrets
    /// are ranked: the smaller, the more the guess tells.
    pub fn concentration(&self) -> (weight: BigNat)
        ensures
            weight@ == concentration(self@.counts, PATTERN_SPACE as int),
    {
        let mut weight = BigNat::one();
        let mut code: usize = 0;
        while code < PATTERN_SPACE
            invariant
                code <= PATTERN_SPACE,
                self@.counts == counts_of(self.pattern_counts@),
                weight@ == concentration(self@.counts, code as int),
            decreases PATTERN_SPACE - code,
        {
            let count = self.pattern_counts[code];
            let ghost so_far = weight@;
            let mut times: usize = 0;
            if count > 1 {
                while times < count
                    invariant
                        times <= count,
                        weight@ == so_far * pow_nat(count as nat, times as nat),
                    decreases count - times,
                {
                    let ghost power = pow_nat(count as nat, times as nat);
                    weight.mul_small(count as u64);
                    proof {
                        assert((so_far * power) * count as nat == so_far * (count as nat * power))
                            by (nonlinear_arith);
                    }
                    times += 1;
                }
            } else {
                proof {
                    if count == 1 {
                        assert(pow_nat(1, 0) == 1);
                        assert(pow_nat(1, 1) == 1 * pow_nat(1, 0));
                    } else {
                        assert(pow_nat(0, 0) == 1);
                    }
                    assert(pow_nat(count as nat, count as nat) == 1);
                    assert(so_far * 1 == so_far);
                }
            }
            code += 1;
        }
        weight
    }

    /// The number of distinct patterns that the secrets give.
    pub fn distinct_patterns(&self) -> (distinct: usize)
        ensures
            distinct == count_nonzero(self@.counts, PATTERN_SPACE as int),
    {
        let mut distinct: usize = 0;
        let mut code: usize = 0;
        while code < PATTERN_SPACE
            invariant
                code <= PATTERN_SPACE,
                self@.counts == counts_of(self.pattern_counts@),
                distinct == count_nonzero(self@.counts, code as int),
            decreases PATTERN_SPACE - code,
        {
            proof {
                lemma_count_nonzero_bound(self@.counts, code as int);
            }
            if self.pattern_counts[code] > 0 {
                distinct += 1;
            }
            code += 1;
        }
        distinct
    }
}

/// Analyses a typed guess against the candidates. The guess is normalised
/// first; it is turned down if it does not have five characters then, or if
/// it is not an allowed guess.
pub fn analyze_guess_against(dictionary: &Dictionary, guess: &str, secrets: &[&str]) -> (result:
    Result<GuessEntropy, WordleError>)
    requires
        all_words(strs_of(secrets@)),
    ensures
        match result {
            Ok(analysis) => {
                &&& trimmed(guess@).len() == WORD_LENGTH
                &&& dictionary@.allowed.contains(normalized(guess@))
                &&& analysis@.guess == normalized(guess@)
                &&& analysis@.counts == histogram(normalized(guess@), strs_of(secrets@))
                &&& analysis.wf()
            },
            Err(WordleError::InvalidLength { expected, found }) => {
                &&& trimmed(guess@).len() != WORD_LENGTH
                &&& expected == WORD_LENGTH
                &&& found == trimmed(guess@).len()
            },
            Err(WordleError::UnknownWord { word }) => {
                &&& trimmed(guess@).len() == WORD_LENGTH
                &&& !dictionary@.allowed.contains(normalized(guess@))
                &&& word@ == normalized(guess@)
            },
            Err(WordleError::FatalConfig { .. }) => false,
        },
{
    let normalized_guess = match normalize(guess) {
        Ok(word) => word,
        Err(error) => {
            return Err(error);
        },
    };
    match ensure_allowed(dictionary, normalized_guess.as_str()) {
        Ok(_) => {},
        Err(error) => {
            return Err(error);
        },
    }
    proof {
        use_type_invariant(dictionary);
    }
    Ok(GuessEntropy::of_word(normalized_guess.as_str(), secrets))
}

/// Analyses a typed guess against every secret of the dictionary.
pub fn analyze_guess(dictionary: &Dictionary, guess: &str) -> (result: Result<
    GuessEntropy,
    WordleError,
>)
    ensures
        match result {
            Ok(analysis) => {
                &&& trimmed(guess@).len() == WORD_LENGTH
                &&& dictionary@.allowed.contains(normalized(guess@))
                &&& analysis@.guess == normalized(guess@)
                &&& analysis@.counts == histogram(normalized(guess@), dictionary@.secrets)
                &&& analysis.wf()
            },
            Err(WordleError::InvalidLength { expected, found }) => {
                &&& trimmed(guess@).len() != WORD_LENGTH
                &&& expected == WORD_LENGTH
                &&& found == trimmed(guess@).len()
            },
            Err(WordleError::UnknownWord { word }) => {
                &&& trimmed(guess@).len() == WORD_LENGTH
                &&& !dictionary@.allowed.contains(normalized(guess@))
                &&& word@ == normalized(guess@)
            },
            Err(WordleError::FatalConfig { .. }) => false,
        },
{
    let secrets = as_strs(dictionary.secrets());
    proof {
        use_type_invariant(dictionary);
        assert(strs_of(secrets@) =~= dictionary@.secrets);
    }
    analyze_guess_against(dictionary, guess, secrets.as_slice())
}

/// The same words as string slices.
pub fn as_strs<'a>(list: &'a [String]) -> (slices: Vec<&'a str>)
    ensures
        strs_of(slices@) == words_of(list@),
{
    let mut slices: Vec<&'a str> = Vec::new();
    let mut idx: usize = 0;
    while idx < list.len()
        invariant
            idx <= list.len(),
            slices@.len() == idx,
            forall|j: int| 0 <= j < idx ==> (#[trigger] slices@[j])@ == list@[j]@,
        decreases list.len() - idx,
    {
        slices.push(list[idx].as_str());
        idx += 1;
    }
    proof {
        assert(strs_of(slices@) =~= words_of(list@));
    }
    slices
}

} // verus!
