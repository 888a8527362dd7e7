//! The candidates that are worth guessing, best first.

use vstd::prelude::*;
use vstd::string::*;
use crate::bignat::BigNat;
use crate::entropy::{all_words, histogram, strs_of, GuessEntropy};
use crate::selector::weight_of;
use crate::words::{knows_word, word_codes, words_of};

verus! {

/// The allowed guess at place `i` is one of the candidates.
pub open spec fn is_candidate_at(allowed: Seq<Seq<char>>, candidates: Seq<Seq<char>>, i: int) -> bool {
    candidates.contains(allowed[i])
}

/// The guess at place `i` comes before the guess at place `j`: it tells
/// more, or it tells as much and stands earlier in the list.
pub open spec fn ranks_before(
    allowed: Seq<Seq<char>>,
    candidates: Seq<Seq<char>>,
    i: int,
    j: int,
) -> bool {
    ||| weight_of(allowed[i], candidates) < weight_of(allowed[j], candidates)
    ||| (weight_of(allowed[i], candidates) == weight_of(allowed[j], candidates) && i < j)
}

/// `picked` holds the places of the best candidates among the first `n`
/// allowed guesses, best first, no more than `limit` of them: every place
/// is that of a candidate, the places stand in rising rank, and a candidate
/// that is left out ranks after the last place of a full list.
pub open spec fn is_top_selection(
    allowed: Seq<Seq<char>>,
    candidates: Seq<Seq<char>>,
    limit: int,
    picked: Seq<int>,
    n: int,
) -> bool {
    &&& picked.len() <= limit
    &&& forall|k: int|
        0 <= k < picked.len() ==> 0 <= #[trigger] picked[k] < n && is_candidate_at(
            allowed,
            candidates,
            picked[k],
        )
    &&& forall|a: int, b: int|
        0 <= a < b < picked.len() ==> ranks_before(
            allowed,
            candidates,
            #[trigger] picked[a],
            #[trigger] picked[b],
        )
    &&& forall|j: int|
        0 <= j < n && #[trigger] is_candidate_at(allowed, candidates, j) ==> picked.contains(j) || (
        picked.len() == limit && (limit > 0 ==> ranks_before(
            allowed,
            candidates,
            picked.last(),
            j,
        )))
}

/// The list after one more entry: cut back to `limit` entries.
pub open spec fn cut_to(picked: Seq<int>, limit: int) -> Seq<int> {
    if picked.len() > limit {
        picked.drop_last()
    } else {
        picked
    }
}

proof fn lemma_insert_keeps_top(
    allowed: Seq<Seq<char>>,
    candidates: Seq<Seq<char>>,
    limit: int,
    picked: Seq<int>,
    n: int,
    at: int,
)
    requires
        0 <= limit,
        is_top_selection(allowed, candidates, limit, picked, n),
        0 <= n,
        is_candidate_at(allowed, candidates, n),
        0 <= at <= picked.len(),
        forall|k: int|
            0 <= k < at ==> weight_of(allowed[#[trigger] picked[k]], candidates) <= weight_of(
                allowed[n],
                candidates,
            ),
        at < picked.len() ==> weight_of(allowed[n], candidates) < weight_of(
            allowed[picked[at]],
            candidates,
        ),
    ensures
        is_top_selection(allowed, candidates, limit, cut_to(picked.insert(at, n), limit), n + 1),
{
    let grown = picked.insert(at, n);
    picked.insert_ensures(at, n);
    let m = picked.len() as int;
    assert(grown.len() == m + 1);
    // The grown list stands in rising rank.
    assert forall|a: int, b: int| 0 <= a < b < grown.len() implies ranks_before(
        allowed,
        candidates,
        #[trigger] grown[a],
        #[trigger] grown[b],
    ) by {
        if b < at {
            assert(grown[a] == picked[a] && grown[b] == picked[b]);
        } else if b == at {
            assert(grown[a] == picked[a]);
            assert(picked[a] < n);
        } else if a < at {
            assert(grown[a] == picked[a]);
            assert(grown[b] == picked[b - 1]);
            if a < b - 1 {
                assert(ranks_before(allowed, candidates, picked[a], picked[b - 1]));
            }
        } else if a == at {
            assert(grown[b] == picked[b - 1]);
            if at < b - 1 {
                assert(ranks_before(allowed, candidates, picked[at], picked[b - 1]));
            }
        } else {
            assert(grown[a] == picked[a - 1]);
            assert(grown[b] == picked[b - 1]);
            assert(ranks_before(allowed, candidates, picked[a - 1], picked[b - 1]));
        }
    }
    assert forall|k: int| 0 <= k < grown.len() implies 0 <= #[trigger] grown[k] < n + 1
        && is_candidate_at(allowed, candidates, grown[k]) by {
        if k < at {
            assert(grown[k] == picked[k]);
        } else if k > at {
            assert(grown[k] == picked[k - 1]);
        }
    }
    // Every place that was picked is still in the grown list.
    assert forall|j: int| picked.contains(j) implies grown.contains(j) by {
        let k = choose|k: int| 0 <= k < picked.len() && picked[k] == j;
        if k < at {
            assert(grown[k] == j);
        } else {
            assert(grown[k + 1] == picked[k]);
        }
    }
    assert(grown[at] == n);
    assert(grown.contains(n));
    let kept = cut_to(grown, limit);
    if grown.len() > limit {
        assert(m == limit);
        assert(kept.len() == limit);
        assert forall|k: int| 0 <= k < kept.len() implies kept[k] == grown[k] by {}
        let dropped = grown[m];
        assert forall|j: int|
            0 <= j < n + 1 && #[trigger] is_candidate_at(
                allowed,
                candidates,
                j,
            ) implies kept.contains(j) || (kept.len() == limit && (limit > 0 ==> ranks_before(
            allowed,
            candidates,
            kept.last(),
            j,
        ))) by {
            if limit > 0 {
                assert(kept.last() == grown[m - 1]);
                assert(ranks_before(allowed, candidates, grown[m - 1], grown[m]));
                if j == n || picked.contains(j) {
                    assert(grown.contains(j));
                    let k = choose|k: int| 0 <= k < grown.len() && grown[k] == j;
                    if k < m {
                        assert(kept[k] == j);
                    } else {
                        assert(j == dropped);
                    }
                } else {
                    assert(ranks_before(allowed, candidates, picked.last(), j));
                    assert(picked.last() == picked[m - 1]);
                    if at == m {
                        assert(grown[m - 1] == picked[m - 1]);
                    } else {
                        assert(grown[m] == picked[m - 1]);
                    }
                }
            }
        }
    } else {
        assert(kept == grown);
        assert forall|j: int|
            0 <= j < n + 1 && #[trigger] is_candidate_at(
                allowed,
                candidates,
                j,
            ) implies kept.contains(j) by {
            if j < n {
                assert(picked.contains(j));
            }
        }
    }
}

proof fn lemma_same_upto(
    allowed: Seq<Seq<char>>,
    candidates: Seq<Seq<char>>,
    limit: int,
    first: Seq<int>,
    second: Seq<int>,
    n: int,
    k: int,
)
    requires
        is_top_selection(allowed, candidates, limit, first, n),
        is_top_selection(allowed, candidates, limit, second, n),
        0 <= k <= first.len(),
        k <= second.len(),
    ensures
        forall|t: int| 0 <= t < k ==> first[t] == second[t],
    decreases k,
{
    if k > 0 {
        lemma_same_upto(allowed, candidates, limit, first, second, n, k - 1);
        let a = first[k - 1];
        let b = second[k - 1];
        lemma_not_behind(allowed, candidates, limit, second, first, n, k - 1);
        lemma_not_behind(allowed, candidates, limit, first, second, n, k - 1);
    }
}

/// Where two selections agree below place `at`, the entry of the one at
/// `at` does not rank before the entry of the other.
proof fn lemma_not_behind(
    allowed: Seq<Seq<char>>,
    candidates: Seq<Seq<char>>,
    limit: int,
    list: Seq<int>,
    other: Seq<int>,
    n: int,
    at: int,
)
    requires
        is_top_selection(allowed, candidates, limit, list, n),
        is_top_selection(allowed, candidates, limit, other, n),
        0 <= at < list.len(),
        at < other.len(),
        forall|t: int| 0 <= t < at ==> list[t] == other[t],
    ensures
        !ranks_before(allowed, candidates, other[at], list[at]),
{
    let wanted = other[at];
    assert(is_candidate_at(allowed, candidates, wanted));
    if ranks_before(allowed, candidates, wanted, list[at]) {
        if list.contains(wanted) {
            let t = choose|t: int| 0 <= t < list.len() && list[t] == wanted;
            if t < at {
                assert(other[t] == wanted);
                assert(ranks_before(allowed, candidates, other[t], other[at]));
            } else if t > at {
                assert(ranks_before(allowed, candidates, list[at], list[t]));
            }
        } else {
            assert(list.len() == limit && limit > 0);
            assert(ranks_before(allowed, candidates, list.last(), wanted));
            if at < list.len() - 1 {
                assert(ranks_before(allowed, candidates, list[at], list[list.len() - 1]));
            }
        }
    }
}

/// The best candidates are settled by the lists and the limit: two
/// selections of the same lists are the same selection.
pub proof fn lemma_top_selection_unique(
    allowed: Seq<Seq<char>>,
    candidates: Seq<Seq<char>>,
    limit: int,
    first: Seq<int>,
    second: Seq<int>,
    n: int,
)
    requires
        is_top_selection(allowed, candidates, limit, first, n),
        is_top_selection(allowed, candidates, limit, second, n),
    ensures
        first == second,
{
    if first.len() <= second.len() {
        lemma_same_upto(allowed, candidates, limit, first, second, n, first.len() as int);
        lemma_no_longer(allowed, candidates, limit, first, second, n);
    } else {
        lemma_same_upto(allowed, candidates, limit, first, second, n, second.len() as int);
        lemma_no_longer(allowed, candidates, limit, second, first, n);
    }
    assert(first =~= second);
}

proof fn lemma_no_longer(
    allowed: Seq<Seq<char>>,
    candidates: Seq<Seq<char>>,
    limit: int,
    short: Seq<int>,
    long: Seq<int>,
    n: int,
)
    requires
        is_top_selection(allowed, candidates, limit, short, n),
        is_top_selection(allowed, candidates, limit, long, n),
        short.len() <= long.len(),
        forall|t: int| 0 <= t < short.len() ==> short[t] == long[t],
    ensures
        short.len() == long.len(),
{
    if short.len() < long.len() {
        let extra = long[short.len() as int];
        assert(is_candidate_at(allowed, candidates, extra));
        if short.contains(extra) {
            let t = choose|t: int| 0 <= t < short.len() && short[t] == extra;
            assert(long[t] == extra);
            assert(ranks_before(allowed, candidates, long[t], long[short.len() as int]));
        }
    }
}

/// The candidates among the allowed guesses, those that tell most first
/// and, of those that tell equally much, the earlier in the list first; no
/// more than `limit` of them.
pub fn top_candidates(allowed: &[String], candidates: &[&str], limit: usize) -> (top: Vec<
    GuessEntropy,
>)
    requires
        all_words(words_of(allowed@)),
        all_words(strs_of(candidates@)),
    ensures
        exists|picked: Seq<int>|
            {
                &&& #[trigger] is_top_selection(
                    words_of(allowed@),
                    strs_of(candidates@),
                    limit as int,
                    picked,
                    allowed@.len() as int,
                )
                &&& top@.len() == picked.len()
                &&& forall|k: int|
                    0 <= k < top@.len() ==> {
                        &&& (#[trigger] top@[k])@.guess == words_of(allowed@)[picked[k]]
                        &&& top@[k]@.counts == histogram(
                            words_of(allowed@)[picked[k]],
                            strs_of(candidates@),
                        )
                    }
            },
{
    let ghost words = words_of(allowed@);
    let ghost secrets = strs_of(candidates@);
    let codes = word_codes(candidates);
    let mut top: Vec<GuessEntropy> = Vec::new();
    let mut weights: Vec<BigNat> = Vec::new();
    let ghost mut picked: Seq<int> = Seq::empty();
    let mut idx: usize = 0;
    while idx < allowed.len()
        invariant
            idx <= allowed.len(),
            words == words_of(allowed@),
            secrets == strs_of(candidates@),
            all_words(words),
            all_words(secrets),
            forall|code: u64| #[trigger]
                codes@.contains(code) <==> crate::words::has_code(
                    secrets,
                    code as int,
                    secrets.len() as int,
                ),
            is_top_selection(words, secrets, limit as int, picked, idx as int),
            top@.len() == picked.len(),
            weights@.len() == picked.len(),
            forall|k: int|
                0 <= k < top@.len() ==> {
                    &&& (#[trigger] top@[k])@.guess == words[picked[k]]
                    &&& top@[k]@.counts == histogram(words[picked[k]], secrets)
                },
            forall|k: int|
                0 <= k < weights@.len() ==> (#[trigger] weights@[k])@ == weight_of(
                    words[picked[k]],
                    secrets,
                ),
        decreases allowed.len() - idx,
    {
        let word = allowed[idx].as_str();
        proof {
            assert(words[idx as int] == word@);
        }
        if knows_word(&codes, Ghost(secrets), word) {
            let analysis = GuessEntropy::of_word(word, candidates);
            let weight = analysis.concentration();
            let mut at: usize = 0;
            while at < weights.len() && !weight.less_than(&weights[at])
                invariant
                    at <= weights@.len(),
                    weights@.len() == picked.len(),
                    weight@ == weight_of(words[idx as int], secrets),
                    forall|k: int|
                        0 <= k < weights@.len() ==> (#[trigger] weights@[k])@ == weight_of(
                            words[picked[k]],
                            secrets,
                        ),
                    forall|k: int|
                        0 <= k < at ==> weight_of(words[#[trigger] picked[k]], secrets)
                            <= weight@,
                decreases weights@.len() - at,
            {
                proof {
                    assert(weights@[at as int]@ == weight_of(words[picked[at as int]], secrets));
                }
                at += 1;
            }
            proof {
                if at < weights@.len() {
                    assert(weights@[at as int]@ == weight_of(words[picked[at as int]], secrets));
                }
                lemma_insert_keeps_top(words, secrets, limit as int, picked, idx as int, at as int);
                picked.insert_ensures(at as int, idx as int);
                top@.insert_ensures(at as int, analysis);
                weights@.insert_ensures(at as int, weight);
            }
            let ghost grown = picked.insert(at as int, idx as int);
            let ghost old_top = top@;
            let ghost old_weights = weights@;
            top.insert(at, analysis);
            weights.insert(at, weight);
            proof {
                assert forall|k: int| 0 <= k < top@.len() implies {
                    &&& (#[trigger] top@[k])@.guess == words[grown[k]]
                    &&& top@[k]@.counts == histogram(words[grown[k]], secrets)
                } by {
                    if k < at {
                        assert(top@[k] == old_top[k]);
                    } else if k > at {
                        assert(top@[k] == old_top[k - 1]);
                        assert(grown[k] == picked[k - 1]);
                    }
                }
                assert forall|k: int| 0 <= k < weights@.len() implies (#[trigger] weights@[k])@
                    == weight_of(words[grown[k]], secrets) by {
                    if k < at {
                        assert(weights@[k] == old_weights[k]);
                    } else if k > at {
                        assert(weights@[k] == old_weights[k - 1]);
                        assert(grown[k] == picked[k - 1]);
                    }
                }
            }
            if top.len() > limit {
                top.pop();
                weights.pop();
            }
            proof {
                picked = cut_to(grown, limit as int);
            }
        } else {
            proof {
                assert(!is_candidate_at(words, secrets, idx as int));
            }
        }
        idx += 1;
    }
    proof {
        assert(allowed@.len() == words.len());
    }
    top
}

} // verus!
