//! The allowed guess that tells most about the secrets still possible.

use vstd::prelude::*;
use vstd::string::*;
use crate::bignat::BigNat;
use crate::candidates::{lemma_surviving_members, remaining, remaining_secrets};
use crate::entropy::{
    all_words, concentration, histogram, lemma_count_with_code_bound, pow_nat, strs_of,
    EntropyView, GuessEntropy,
};
use crate::game::Wordle;
use crate::pattern::PATTERN_SPACE;
use crate::words::{words_of, Dictionary};

verus! {

/// The concentration of the split that `guess` makes of the secrets. The
/// smaller it is, the greater the entropy of the split.
pub open spec fn weight_of(guess: Seq<char>, secrets: Seq<Seq<char>>) -> nat {
    concentration(histogram(guess, secrets), PATTERN_SPACE as int)
}

/// Among the first `n` allowed guesses the one at `best` tells most: none
/// has a smaller weight, and every one before it has a greater weight. So of
/// guesses that tell equally much the earliest in the list is the best.
pub open spec fn is_best_index(
    allowed: Seq<Seq<char>>,
    secrets: Seq<Seq<char>>,
    best: int,
    n: int,
) -> bool {
    &&& 0 <= best < n
    &&& forall|j: int|
        0 <= j < n ==> weight_of(allowed[best], secrets) <= weight_of(#[trigger] allowed[j], secrets)
    &&& forall|j: int|
        0 <= j < best ==> weight_of(allowed[best], secrets) < weight_of(
            #[trigger] allowed[j],
            secrets,
        )
}

/// Only one place in the list is the best: the choice does not depend on the
/// order in which the guesses are weighed.
pub proof fn lemma_best_index_unique(
    allowed: Seq<Seq<char>>,
    secrets: Seq<Seq<char>>,
    first: int,
    second: int,
    n: int,
)
    requires
        is_best_index(allowed, secrets, first, n),
        is_best_index(allowed, secrets, second, n),
    ensures
        first == second,
{
    if first < second {
        assert(weight_of(allowed[second], secrets) < weight_of(allowed[first], secrets));
        assert(weight_of(allowed[first], secrets) <= weight_of(allowed[second], secrets));
    } else if second < first {
        assert(weight_of(allowed[first], secrets) < weight_of(allowed[second], secrets));
        assert(weight_of(allowed[second], secrets) <= weight_of(allowed[first], secrets));
    }
}

/// An analysis together with its weight, ready to be held against others.
#[derive(Debug)]
pub struct Ranked {
    analysis: GuessEntropy,
    weight: BigNat,
}

impl View for Ranked {
    type V = EntropyView;

    closed spec fn view(&self) -> EntropyView {
        self.analysis@
    }
}

impl Ranked {
    /// The weight kept is the weight of the analysis kept.
    #[verifier::type_invariant]
    spec fn holds_its_weight(&self) -> bool {
        &&& self.analysis.wf()
        &&& self.weight@ == concentration(self.analysis@.counts, PATTERN_SPACE as int)
    }

    /// Weighs an analysis.
    pub fn new(analysis: GuessEntropy) -> (ranked: Ranked)
        ensures
            ranked@ == analysis@,
    {
        proof {
            use_type_invariant(&analysis);
        }
        let weight = analysis.concentration();
        Ranked { analysis, weight }
    }

    /// Holds a later analysis against this one and keeps the better: the
    /// later one only where its weight is smaller, so that of two that tell
    /// equally much the earlier stays.
    pub fn challenge(self, later: GuessEntropy) -> (kept: Ranked)
        ensures
            kept@ == if concentration(later@.counts, PATTERN_SPACE as int) < concentration(
                self@.counts,
                PATTERN_SPACE as int,
            ) {
                later@
            } else {
                self@
            },
    {
        proof {
            use_type_invariant(&self);
            use_type_invariant(&later);
        }
        let weight = later.concentration();
        if weight.less_than(&self.weight) {
            Ranked { analysis: later, weight }
        } else {
            self
        }
    }

    /// The analysis that was kept.
    pub fn analysis(&self) -> (analysis: &GuessEntropy)
        ensures
            analysis@ == self@,
            analysis.wf(),
    {
        proof {
            use_type_invariant(self);
        }
        &self.analysis
    }

    /// Gives up the analysis that was kept.
    pub fn into_analysis(self) -> (analysis: GuessEntropy)
        ensures
            analysis@ == self@,
            analysis.wf(),
    {
        proof {
            use_type_invariant(&self);
        }
        self.analysis
    }
}

/// Scans the whole list of allowed guesses and returns the analysis of the
/// one that tells most about the candidates, the earliest of those that tell
/// equally much. There is none where there are no candidates or no guesses.
pub fn scan_allowed_guesses(allowed: &[String], candidates: &[&str]) -> (best: Option<
    GuessEntropy,
>)
    requires
        all_words(words_of(allowed@)),
        all_words(strs_of(candidates@)),
    ensures
        match best {
            None => candidates@.len() == 0 || allowed@.len() == 0,
            Some(analysis) => {
                &&& candidates@.len() > 0
                &&& analysis.wf()
                &&& exists|k: int|
                    {
                        &&& #[trigger] is_best_index(
                            words_of(allowed@),
                            strs_of(candidates@),
                            k,
                            allowed@.len() as int,
                        )
                        &&& analysis@.guess == words_of(allowed@)[k]
                        &&& analysis@.counts == histogram(
                            words_of(allowed@)[k],
                            strs_of(candidates@),
                        )
                    }
            },
        },
{
    if candidates.len() == 0 {
        return None;
    }
    let ghost words = words_of(allowed@);
    let ghost secrets = strs_of(candidates@);
    let mut best: Option<Ranked> = None;
    let ghost mut best_at: int = 0;
    let mut idx: usize = 0;
    while idx < allowed.len()
        invariant
            idx <= allowed.len(),
            words == words_of(allowed@),
            secrets == strs_of(candidates@),
            all_words(words),
            all_words(secrets),
            match best {
                None => idx == 0,
                Some(ranked) => {
                    &&& is_best_index(words, secrets, best_at, idx as int)
                    &&& ranked@.guess == words[best_at]
                    &&& ranked@.counts == histogram(words[best_at], secrets)
                },
            },
        decreases allowed.len() - idx,
    {
        let word = allowed[idx].as_str();
        proof {
            assert(words[idx as int] == word@);
        }
        let analysis = GuessEntropy::of_word(word, candidates);
        let ghost here = weight_of(words[idx as int], secrets);
        best =
        match best {
            None => {
                proof {
                    best_at = idx as int;
                }
                Some(Ranked::new(analysis))
            },
            Some(ranked) => {
                let ghost held = weight_of(words[best_at], secrets);
                proof {
                    if here < held {
                        assert forall|j: int| 0 <= j < idx + 1 implies here <= weight_of(
                            #[trigger] words[j],
                            secrets,
                        ) by {
                            if j < idx {
                                assert(held <= weight_of(words[j], secrets));
                            }
                        }
                        assert forall|j: int| 0 <= j < idx implies here < weight_of(
                            #[trigger] words[j],
                            secrets,
                        ) by {
                            assert(held <= weight_of(words[j], secrets));
                        }
                        best_at = idx as int;
                    } else {
                        assert forall|j: int| 0 <= j < idx + 1 implies held <= weight_of(
                            #[trigger] words[j],
                            secrets,
                        ) by {
                            if j < idx {
                                assert(held <= weight_of(words[j], secrets));
                            }
                        }
                    }
                }
                Some(ranked.challenge(analysis))
            },
        };
        idx += 1;
    }
    match best {
        None => None,
        Some(ranked) => Some(ranked.into_analysis()),
    }
}

/// Where exactly one candidate is left, the analysis of that candidate
/// against itself: the one guess that ends the round. It has the weight 1,
/// as every guess has against a single candidate, so it tells as much as
/// the guess that a scan of the allowed guesses settles on.
pub fn sole_candidate(candidates: &[&str]) -> (only: Option<GuessEntropy>)
    requires
        all_words(strs_of(candidates@)),
    ensures
        match only {
            Some(analysis) => {
                &&& candidates@.len() == 1
                &&& analysis.wf()
                &&& analysis@.guess == candidates@[0]@
                &&& analysis@.counts == histogram(candidates@[0]@, strs_of(candidates@))
                &&& weight_of(analysis@.guess, strs_of(candidates@)) == 1
            },
            None => candidates@.len() != 1,
        },
{
    if candidates.len() != 1 {
        return None;
    }
    let word = candidates[0];
    proof {
        assert(strs_of(candidates@)[0] == word@);
        assert(strs_of(candidates@) =~= seq![word@]);
        lemma_single_candidate(seq![word@], word@);
    }
    Some(GuessEntropy::of_word(word, candidates))
}

/// The guess to make against these candidates. With no candidate there is
/// none. A single candidate is itself the guess, and the allowed guesses are
/// not scanned: no guess tells more about it. With more candidates the
/// whole list of allowed guesses is scanned, not the candidates alone, and
/// the guess is the one that tells most, the earliest of those that tell
/// equally much; there is none where the list is empty.
pub fn best_guess_among(allowed: &[String], candidates: &[&str]) -> (best: Option<GuessEntropy>)
    requires
        all_words(words_of(allowed@)),
        all_words(strs_of(candidates@)),
    ensures
        best is None <==> candidates@.len() == 0 || (candidates@.len() >= 2 && allowed@.len()
            == 0),
        candidates@.len() == 1 ==> {
            &&& best matches Some(analysis)
            &&& analysis@.guess == strs_of(candidates@)[0]
            &&& analysis@.counts == histogram(strs_of(candidates@)[0], strs_of(candidates@))
        },
        candidates@.len() >= 2 ==> (best matches Some(analysis) ==> exists|k: int|
            {
                &&& #[trigger] is_best_index(
                    words_of(allowed@),
                    strs_of(candidates@),
                    k,
                    allowed@.len() as int,
                )
                &&& analysis@.guess == words_of(allowed@)[k]
                &&& analysis@.counts == histogram(words_of(allowed@)[k], strs_of(candidates@))
            }),
        best matches Some(analysis) ==> analysis.wf(),
{
    match sole_candidate(candidates) {
        Some(only) => Some(only),
        None => scan_allowed_guesses(allowed, candidates),
    }
}

/// The guess to make in this round. There is none exactly when no secret
/// is left. Where one secret is left, it is the guess. Otherwise the guess
/// is the allowed guess that tells most about the secrets left, the
/// earliest of those that tell equally much: the whole list of allowed
/// guesses is scanned, not the secrets alone.
pub fn best_information_guess(dictionary: &Dictionary, game: &Wordle) -> (best: Option<
    GuessEntropy,
>)
    ensures
        best is None <==> remaining(dictionary@.secrets, game@.mode, game@.rows).len() == 0,
        remaining(dictionary@.secrets, game@.mode, game@.rows).len() == 1 ==> {
            &&& best matches Some(analysis)
            &&& analysis@.guess == remaining(dictionary@.secrets, game@.mode, game@.rows)[0]
            &&& analysis@.counts == histogram(
                remaining(dictionary@.secrets, game@.mode, game@.rows)[0],
                remaining(dictionary@.secrets, game@.mode, game@.rows),
            )
        },
        remaining(dictionary@.secrets, game@.mode, game@.rows).len() >= 2 ==> {
            &&& best matches Some(analysis)
            &&& exists|k: int|
                {
                    &&& #[trigger] is_best_index(
                        dictionary@.allowed,
                        remaining(dictionary@.secrets, game@.mode, game@.rows),
                        k,
                        dictionary@.allowed.len() as int,
                    )
                    &&& analysis@.guess == dictionary@.allowed[k]
                    &&& analysis@.counts == histogram(
                        dictionary@.allowed[k],
                        remaining(dictionary@.secrets, game@.mode, game@.rows),
                    )
                }
        },
        best matches Some(analysis) ==> analysis.wf(),
{
    let candidates = remaining_secrets(dictionary, game);
    if candidates.len() == 0 {
        return None;
    }
    let allowed = dictionary.allowed();
    proof {
        use_type_invariant(dictionary);
        let left = remaining(dictionary@.secrets, game@.mode, game@.rows);
        assert(left.contains(left[0]));
        lemma_surviving_members(
            dictionary@.secrets,
            game@.mode,
            game@.rows,
            dictionary@.secrets.len() as int,
            left[0],
        );
        let i = choose|i: int|
            0 <= i < dictionary@.secrets.len() && #[trigger] dictionary@.secrets[i] == left[0];
        assert(dictionary@.allowed.contains(dictionary@.secrets[i]));
        assert(allowed@.len() == words_of(allowed@).len());
    }
    best_guess_among(allowed, candidates.as_slice())
}

proof fn lemma_concentration_of_singles(counts: Seq<nat>, n: int)
    requires
        0 <= n <= counts.len(),
        forall|i: int| 0 <= i < counts.len() ==> #[trigger] counts[i] <= 1,
    ensures
        concentration(counts, n) == 1,
    decreases n,
{
    if n > 0 {
        lemma_concentration_of_singles(counts, n - 1);
        assert(counts[n - 1] <= 1);
        assert(pow_nat(0, 0) == 1);
        assert(pow_nat(1, 0) == 1);
        assert(pow_nat(1, 1) == 1 * pow_nat(1, 0));
    }
}

/// Against a single candidate every guess has the weight 1, the smallest
/// there is: no guess tells anything, the candidate itself included. The
/// scan therefore settles on the first allowed guess, which is the
/// candidate where the candidate heads the list.
pub proof fn lemma_single_candidate(allowed: Seq<Seq<char>>, secret: Seq<char>)
    requires
        allowed.len() > 0,
    ensures
        forall|j: int|
            0 <= j < allowed.len() ==> weight_of(#[trigger] allowed[j], seq![secret]) == 1,
        weight_of(secret, seq![secret]) == 1,
        forall|k: int|
            is_best_index(allowed, seq![secret], k, allowed.len() as int) <==> k == 0,
        allowed[0] == secret ==> forall|k: int|
            is_best_index(allowed, seq![secret], k, allowed.len() as int) ==> allowed[k] == secret,
{
    assert forall|guess: Seq<char>| weight_of(guess, seq![secret]) == 1 by {
        let counts = histogram(guess, seq![secret]);
        assert forall|i: int| 0 <= i < counts.len() implies #[trigger] counts[i] <= 1 by {
            lemma_count_with_code_bound(guess, seq![secret], i as nat, 1);
        }
        lemma_concentration_of_singles(counts, PATTERN_SPACE as int);
    }
    assert(is_best_index(allowed, seq![secret], 0, allowed.len() as int));
    assert forall|k: int| is_best_index(allowed, seq![secret], k, allowed.len() as int) implies k
        == 0 by {
        lemma_best_index_unique(allowed, seq![secret], k, 0, allowed.len() as int);
    }
}

/// Taking the single candidate without a scan gives up nothing: the
/// candidate has the weight of the guess that a scan of the allowed guesses
/// settles on, and the scan settles on the candidate itself where the
/// candidate heads the list.
pub proof fn lemma_sole_candidate_matches_scan(
    allowed: Seq<Seq<char>>,
    secret: Seq<char>,
    picked: int,
)
    requires
        is_best_index(allowed, seq![secret], picked, allowed.len() as int),
    ensures
        weight_of(secret, seq![secret]) == weight_of(allowed[picked], seq![secret]),
        allowed[0] == secret ==> allowed[picked] == secret,
{
    lemma_single_candidate(allowed, secret);
}

} // verus!
