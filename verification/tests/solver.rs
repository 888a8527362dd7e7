use fibble::bignat::BigNat;
use fibble::candidates::{fibble_guess_matches, fibble_history_matches, secret_matches_history};
use fibble::entropy::{analyze_guess, analyze_guess_against};
use fibble::selector::{
    best_guess_among, best_information_guess, scan_allowed_guesses, sole_candidate,
};
use fibble::{remaining_secrets, top_candidates, Dictionary, GameMode, Wordle, WordleError};

fn solver_dictionary() -> Dictionary {
    let allowed = [
        "AAHED", "ALLOT", "APPLE", "AWAKE", "BLUSH", "CAIRN", "CIGAR", "FOCAL", "HUMPH", "REBUT",
        "SISSY", "TIGAR",
    ];
    let secrets = ["CIGAR", "REBUT", "SISSY", "HUMPH", "AWAKE", "BLUSH", "FOCAL", "TIGAR", "APPLE"];
    Dictionary::new(
        allowed.iter().map(|word| word.to_string()).collect(),
        secrets.iter().map(|word| word.to_string()).collect(),
    )
    .unwrap()
}

fn owned(words: &[&str]) -> Vec<String> {
    words.iter().map(|word| word.to_string()).collect()
}

#[test]
fn entropy_bits_ignores_zero_probabilities() {
    let dictionary = solver_dictionary();
    let entropy = analyze_guess_against(&dictionary, "cigar", &["CIGAR"]).unwrap();
    assert_eq!(entropy.total_secrets(), 1);
    // One pattern holds the one secret: the split tells nothing, and its
    // entropy, the sum of -p log2 p over the patterns met, is that of p = 1.
    let total = entropy.total_secrets() as f64;
    let bits = entropy
        .pattern_counts()
        .iter()
        .fold(0.0, |acc: f64, (_, count)| {
            let probability = *count as f64 / total;
            acc - probability * probability.log2()
        });
    assert!(bits.is_finite());
    assert_eq!(bits, 0.0);
}

#[test]
fn single_candidate_analysis() {
    let dictionary = solver_dictionary();
    let entropy = analyze_guess_against(&dictionary, "CIGAR", &["CIGAR"]).unwrap();
    assert_eq!(entropy.guess(), "CIGAR");
    assert_eq!(entropy.total_secrets(), 1);
    assert_eq!(entropy.distinct_patterns(), 1);
    assert_eq!(entropy.pattern_counts(), vec![("GGGGG".to_string(), 1)]);
    assert!(!entropy.concentration().less_than(&BigNat::one()));
    assert!(!BigNat::one().less_than(&entropy.concentration()));
}

#[test]
fn analysis_counts_every_pattern() {
    let dictionary = solver_dictionary();
    let candidates = ["CIGAR", "TIGAR", "REBUT", "HUMPH", "BLUSH"];
    let entropy = analyze_guess_against(&dictionary, " tigar ", &candidates).unwrap();
    assert_eq!(entropy.guess(), "TIGAR");
    assert_eq!(entropy.total_secrets(), 5);
    assert_eq!(entropy.distinct_patterns(), 4);
    assert_eq!(
        entropy.pattern_counts(),
        vec![
            ("BBBBB".to_string(), 2),
            ("BGGGG".to_string(), 1),
            ("YBBBY".to_string(), 1),
            ("GGGGG".to_string(), 1),
        ]
    );
    let copy = entropy.clone();
    assert_eq!(copy.guess(), "TIGAR");
    assert_eq!(copy.pattern_counts(), entropy.pattern_counts());
}

#[test]
fn analysis_of_no_candidates_is_empty() {
    let dictionary = solver_dictionary();
    let entropy = analyze_guess_against(&dictionary, "cigar", &[]).unwrap();
    assert_eq!(entropy.total_secrets(), 0);
    assert_eq!(entropy.distinct_patterns(), 0);
    assert!(entropy.pattern_counts().is_empty());
}

#[test]
fn analysis_turns_down_what_a_round_turns_down() {
    let dictionary = solver_dictionary();
    assert_eq!(
        analyze_guess_against(&dictionary, "cigars", &["CIGAR"]).unwrap_err(),
        WordleError::InvalidLength {
            expected: 5,
            found: 6
        }
    );
    assert_eq!(
        analyze_guess_against(&dictionary, "zzzzz", &["CIGAR"]).unwrap_err(),
        WordleError::UnknownWord {
            word: "ZZZZZ".into()
        }
    );
    assert_eq!(
        analyze_guess(&dictionary, "").unwrap_err(),
        WordleError::InvalidLength {
            expected: 5,
            found: 0
        }
    );
}

#[test]
fn analysis_against_the_dictionary_counts_every_secret() {
    let dictionary = solver_dictionary();
    let entropy = analyze_guess(&dictionary, "cairn").unwrap();
    assert_eq!(entropy.guess(), "CAIRN");
    assert_eq!(entropy.total_secrets(), 9);
    let listed: usize = entropy.pattern_counts().iter().map(|(_, n)| *n).sum();
    assert_eq!(listed, 9);
    assert_eq!(entropy.pattern_counts().len(), entropy.distinct_patterns());
}

#[test]
fn big_numbers_multiply_and_compare() {
    let mut a = BigNat::one();
    let mut b = BigNat::one();
    assert!(!a.less_than(&b));
    a.mul_small(3);
    assert!(b.less_than(&a));
    assert!(!a.less_than(&b));
    b.mul_small(3);
    assert!(!a.less_than(&b) && !b.less_than(&a));
    // Past one digit: 3 * 2^32 * 2^32 against 3 * (2^64 - 1).
    a.mul_small(0x1_0000_0000);
    a.mul_small(0x1_0000_0000);
    b.mul_small(u64::MAX);
    assert!(b.less_than(&a));
    assert!(!a.less_than(&b));
    b.mul_small(2);
    assert!(a.less_than(&b));
    b.mul_small(0);
    assert!(b.less_than(&BigNat::one()));
    assert!(b.less_than(&a));
    let mut c = BigNat::one();
    let mut d = BigNat::one();
    for _ in 0..40 {
        c.mul_small(1_000_003);
        d.mul_small(1_000_003);
    }
    assert!(!c.less_than(&d) && !d.less_than(&c));
    d.mul_small(1);
    assert!(!c.less_than(&d) && !d.less_than(&c));
    c.mul_small(2);
    assert!(d.less_than(&c));
}

#[test]
fn concentration_is_the_product_of_self_powers() {
    let dictionary = solver_dictionary();
    // HUMPH, BLUSH and FOCAL share no letter in place or out of place with
    // AAHED but for H, L, A; the counts are worked out below.
    let candidates = ["CIGAR", "TIGAR", "REBUT", "HUMPH", "BLUSH"];
    let entropy = analyze_guess_against(&dictionary, "tigar", &candidates).unwrap();
    // Counts 2, 1, 1, 1: the product is 2^2 = 4.
    let mut four = BigNat::one();
    four.mul_small(4);
    let weight = entropy.concentration();
    assert!(!weight.less_than(&four));
    assert!(!four.less_than(&weight));
    let even = analyze_guess_against(&dictionary, "rebut", &["CIGAR", "REBUT"]).unwrap();
    assert_eq!(even.distinct_patterns(), 2);
    assert!(even.concentration().less_than(&weight));
    let lumped = analyze_guess_against(&dictionary, "humph", &["CIGAR", "TIGAR", "AWAKE"]).unwrap();
    // All three give no letter of HUMPH: one pattern with 3, product 27.
    assert_eq!(lumped.pattern_counts(), vec![("BBBBB".to_string(), 3)]);
    assert!(weight.less_than(&lumped.concentration()));
}

#[test]
fn strict_rows_rule_out_other_secrets() {
    let dictionary = solver_dictionary();
    let mut game = Wordle::new(&dictionary, "cigar").unwrap();
    assert_eq!(
        remaining_secrets(&dictionary, &game),
        vec!["CIGAR", "REBUT", "SISSY", "HUMPH", "AWAKE", "BLUSH", "FOCAL", "TIGAR", "APPLE"]
    );
    game.submit_guess(&dictionary, "tigar").unwrap();
    assert_eq!(remaining_secrets(&dictionary, &game), vec!["CIGAR"]);
    assert!(secret_matches_history("CIGAR", &game));
    assert!(!secret_matches_history("TIGAR", &game));
    assert!(!secret_matches_history("REBUT", &game));
}

#[test]
fn remaining_secrets_keep_the_order_of_the_dictionary() {
    let dictionary = solver_dictionary();
    let mut game = Wordle::new(&dictionary, "blush").unwrap();
    game.submit_guess(&dictionary, "aahed").unwrap();
    // AAHED against BLUSH: only the H is present.
    let left = remaining_secrets(&dictionary, &game);
    assert_eq!(left, vec!["HUMPH", "BLUSH"]);
    let again = remaining_secrets(&dictionary, &game);
    assert_eq!(left, again);
}

#[test]
fn a_secret_outside_the_list_leaves_nothing() {
    let dictionary = solver_dictionary();
    let mut game = Wordle::new(&dictionary, "cairn").unwrap();
    game.submit_guess(&dictionary, "cairn").unwrap();
    assert!(remaining_secrets(&dictionary, &game).is_empty());
    assert!(best_information_guess(&dictionary, &game).is_none());
}

#[test]
fn lying_rows_need_exactly_one_lie() {
    let dictionary = solver_dictionary();
    let mut one_lie = Wordle::new_with_mode(&dictionary, "cigar", GameMode::Fibble).unwrap();
    one_lie
        .submit_guess_with_lie(&dictionary, "cigar", 4, 0)
        .unwrap();
    assert!(fibble_guess_matches("CIGAR", &one_lie.guesses()[0]));
    assert!(!fibble_guess_matches("TIGAR", &one_lie.guesses()[0]));
    assert!(fibble_history_matches("CIGAR", one_lie.guesses()));
    assert!(secret_matches_history("CIGAR", &one_lie));

    // A row that tells the truth about CIGAR has no lie for CIGAR, and one
    // for TIGAR.
    let mut truthful = Wordle::new(&dictionary, "cigar").unwrap();
    truthful.submit_guess(&dictionary, "cigar").unwrap();
    assert!(!fibble_guess_matches("CIGAR", &truthful.guesses()[0]));
    assert!(fibble_guess_matches("TIGAR", &truthful.guesses()[0]));
    assert!(!fibble_history_matches("CIGAR", truthful.guesses()));

    // Two lies for CIGAR in one row.
    let mut other = Wordle::new_with_mode(&dictionary, "tigar", GameMode::Fibble).unwrap();
    other
        .submit_guess_with_lie(&dictionary, "cigar", 4, 1)
        .unwrap();
    assert!(!fibble_guess_matches("CIGAR", &other.guesses()[0]));
    assert!(fibble_guess_matches("TIGAR", &other.guesses()[0]));
    let left = remaining_secrets(&dictionary, &other);
    assert!(left.contains(&"TIGAR"));
    assert!(!left.contains(&"CIGAR"));
}

#[test]
fn every_lying_row_is_checked_by_itself() {
    let dictionary = solver_dictionary();
    let mut game = Wordle::new_with_mode(&dictionary, "cigar", GameMode::Fibble).unwrap();
    game.submit_guess_with_lie(&dictionary, "cairn", 0, 0)
        .unwrap();
    game.submit_guess_with_lie(&dictionary, "rebut", 3, 1)
        .unwrap();
    game.submit_guess_with_lie(&dictionary, "tigar", 2, 0)
        .unwrap();
    let left = remaining_secrets(&dictionary, &game);
    assert!(left.contains(&"CIGAR"));
    assert!(fibble_history_matches("CIGAR", game.guesses()));
    for word in &left {
        assert!(secret_matches_history(word, &game));
    }
}

#[test]
fn no_history_no_best_guess_without_secrets() {
    let dictionary = Dictionary::new(owned(&["CIGAR", "REBUT"]), Vec::new()).unwrap();
    let game = Wordle::new(&dictionary, "cigar").unwrap();
    assert!(remaining_secrets(&dictionary, &game).is_empty());
    assert!(best_information_guess(&dictionary, &game).is_none());
    assert!(best_guess_among(&owned(&["CIGAR"]), &[]).is_none());
    assert!(best_guess_among(&[], &["CIGAR", "REBUT"]).is_none());
    assert!(scan_allowed_guesses(&owned(&["CIGAR"]), &[]).is_none());
    assert!(scan_allowed_guesses(&[], &["CIGAR"]).is_none());
    // A single candidate is the guess whatever the list holds.
    assert_eq!(best_guess_among(&[], &["CIGAR"]).unwrap().guess(), "CIGAR");
}

#[test]
fn best_guess_splits_the_candidates_most_evenly() {
    // Against CIGAR, TIGAR, REBUT: HUMPH lumps all three, CIGAR parts
    // CIGAR from the rest but TIGAR and REBUT too, as does TIGAR; both tell
    // all. The earlier of the two in the list wins.
    let allowed = owned(&["HUMPH", "SISSY", "TIGAR", "CIGAR", "REBUT"]);
    let candidates = ["CIGAR", "TIGAR", "REBUT"];
    let best = best_guess_among(&allowed, &candidates).unwrap();
    assert_eq!(best.guess(), "TIGAR");
    assert_eq!(best.total_secrets(), 3);
    assert_eq!(best.distinct_patterns(), 3);
    let turned = owned(&["REBUT", "CIGAR", "TIGAR", "SISSY", "HUMPH"]);
    let best = best_guess_among(&turned, &candidates).unwrap();
    assert_eq!(best.guess(), "REBUT");
    assert_eq!(best.distinct_patterns(), 3);
}

#[test]
fn best_guess_need_not_be_a_candidate() {
    // ALLOT tells APPLE, AWAKE and FOCAL apart; AAHED, first in the list,
    // lumps two of them.
    let allowed = owned(&["HUMPH", "ALLOT", "APPLE"]);
    let candidates = ["APPLE", "AWAKE", "FOCAL"];
    let lumping = best_guess_among(&owned(&["HUMPH"]), &candidates).unwrap();
    assert_eq!(lumping.guess(), "HUMPH");
    let best = best_guess_among(&allowed, &candidates).unwrap();
    assert_eq!(best.guess(), "ALLOT");
    assert_eq!(best.distinct_patterns(), 3);
}

#[test]
fn single_candidate_is_the_best_guess() {
    let dictionary = solver_dictionary();
    let mut game = Wordle::new(&dictionary, "cigar").unwrap();
    game.submit_guess(&dictionary, "cigar").unwrap();
    assert_eq!(remaining_secrets(&dictionary, &game), vec!["CIGAR"]);
    let best = best_information_guess(&dictionary, &game).unwrap();
    assert_eq!(best.guess(), "CIGAR");
    assert_eq!(best.total_secrets(), 1);
    assert_eq!(best.distinct_patterns(), 1);
    assert_eq!(best.pattern_counts(), vec![("GGGGG".to_string(), 1)]);
    let total = best.total_secrets() as f64;
    let bits = best
        .pattern_counts()
        .iter()
        .fold(0.0, |acc: f64, (_, count)| {
            let probability = *count as f64 / total;
            acc - probability * probability.log2()
        });
    assert_eq!(bits, 0.0);
    // Whatever heads the list of allowed guesses.
    let other = best_guess_among(&owned(&["AAHED", "CIGAR"]), &["CIGAR"]).unwrap();
    assert_eq!(other.guess(), "CIGAR");
    let heading = best_guess_among(&owned(&["CIGAR", "AAHED"]), &["CIGAR"]).unwrap();
    assert_eq!(heading.guess(), "CIGAR");
    assert_eq!(heading.pattern_counts(), vec![("GGGGG".to_string(), 1)]);
}

#[test]
fn a_scan_tells_no_more_than_the_single_candidate() {
    // Against a single candidate every guess tells nothing, so a scan keeps
    // the first allowed guess, and that guess weighs what the candidate
    // weighs.
    let allowed = owned(&["AAHED", "HUMPH", "CIGAR"]);
    let scanned = scan_allowed_guesses(&allowed, &["CIGAR"]).unwrap();
    assert_eq!(scanned.guess(), "AAHED");
    assert_eq!(scanned.total_secrets(), 1);
    assert_eq!(scanned.distinct_patterns(), 1);
    let only = best_guess_among(&allowed, &["CIGAR"]).unwrap();
    assert_eq!(only.guess(), "CIGAR");
    assert!(!scanned.concentration().less_than(&only.concentration()));
    assert!(!only.concentration().less_than(&scanned.concentration()));
}

#[test]
fn a_lying_round_with_one_secret_left_suggests_it() {
    let dictionary = solver_dictionary();
    let mut game = Wordle::new_with_mode(&dictionary, "sissy", GameMode::Fibble).unwrap();
    game.submit_guess_with_lie(&dictionary, "sissy", 0, 0)
        .unwrap();
    game.submit_guess_with_lie(&dictionary, "sissy", 1, 1)
        .unwrap();
    assert_eq!(remaining_secrets(&dictionary, &game), vec!["SISSY"]);
    let best = best_information_guess(&dictionary, &game).unwrap();
    assert_eq!(best.guess(), "SISSY");
    assert_eq!(best.total_secrets(), 1);
}

#[test]
fn best_guess_for_a_round_scans_all_allowed_words() {
    let dictionary = solver_dictionary();
    let game = Wordle::new(&dictionary, "cigar").unwrap();
    let best = best_information_guess(&dictionary, &game).unwrap();
    let again = best_information_guess(&dictionary, &game).unwrap();
    assert_eq!(best.guess(), again.guess());
    assert_eq!(best.pattern_counts(), again.pattern_counts());
    assert_eq!(best.total_secrets(), 9);
    // No allowed word splits the nine secrets into more patterns with a
    // smaller product of self-powers.
    let weight = best.concentration();
    let secrets = remaining_secrets(&dictionary, &game);
    for word in fibble::allowed_words(&dictionary) {
        let other = analyze_guess_against(&dictionary, word, &secrets).unwrap();
        assert!(!other.concentration().less_than(&weight));
        if other.guess() == best.guess() {
            break;
        }
        assert!(weight.less_than(&other.concentration()));
    }
}

#[test]
fn a_sole_candidate_is_its_own_suggestion() {
    let only = sole_candidate(&["CIGAR"]).unwrap();
    assert_eq!(only.guess(), "CIGAR");
    assert_eq!(only.total_secrets(), 1);
    assert_eq!(only.pattern_counts(), vec![("GGGGG".to_string(), 1)]);
    assert!(!only.concentration().less_than(&BigNat::one()));
    assert!(!BigNat::one().less_than(&only.concentration()));
    assert!(sole_candidate(&[]).is_none());
    assert!(sole_candidate(&["CIGAR", "REBUT"]).is_none());
}

#[test]
fn top_candidates_come_best_first() {
    let allowed = owned(&["HUMPH", "SISSY", "TIGAR", "AAHED", "CIGAR", "REBUT", "BLUSH"]);
    let candidates = ["CIGAR", "TIGAR", "REBUT", "HUMPH", "BLUSH"];
    // REBUT gives each of the five a pattern of its own. HUMPH, TIGAR,
    // CIGAR and BLUSH each lump two of them: counts 2, 1, 1, 1. They come
    // in the order of the list.
    let top = top_candidates(&allowed, &candidates, 4);
    let words: Vec<&str> = top.iter().map(|analysis| analysis.guess()).collect();
    assert_eq!(words, vec!["REBUT", "HUMPH", "TIGAR", "CIGAR"]);
    assert_eq!(top[0].distinct_patterns(), 5);
    assert_eq!(top[1].distinct_patterns(), 4);
    assert_eq!(top[1].total_secrets(), 5);
    let all = top_candidates(&allowed, &candidates, 10);
    let words: Vec<&str> = all.iter().map(|analysis| analysis.guess()).collect();
    assert_eq!(words, vec!["REBUT", "HUMPH", "TIGAR", "CIGAR", "BLUSH"]);
    let two = top_candidates(&allowed, &candidates, 2);
    let words: Vec<&str> = two.iter().map(|analysis| analysis.guess()).collect();
    assert_eq!(words, vec!["REBUT", "HUMPH"]);
    // A guess that lumps three goes behind those that lump two, wherever
    // it stands in the list.
    let lumping = top_candidates(
        &owned(&["HUMPH", "CIGAR", "REBUT"]),
        &["CIGAR", "TIGAR", "AWAKE", "HUMPH", "REBUT"],
        3,
    );
    let words: Vec<&str> = lumping.iter().map(|analysis| analysis.guess()).collect();
    assert_eq!(words, vec!["CIGAR", "REBUT", "HUMPH"]);
    assert!(top_candidates(&allowed, &candidates, 0).is_empty());
    assert!(top_candidates(&allowed, &[], 4).is_empty());
    assert!(top_candidates(&[], &candidates, 4).is_empty());
    // A candidate that is no allowed guess is not listed.
    let narrow = top_candidates(&owned(&["AAHED", "REBUT"]), &candidates, 4);
    let words: Vec<&str> = narrow.iter().map(|analysis| analysis.guess()).collect();
    assert_eq!(words, vec!["REBUT"]);
}

#[test]
fn top_candidates_never_rank_a_later_equal_first() {
    let dictionary = solver_dictionary();
    let game = Wordle::new(&dictionary, "cigar").unwrap();
    let secrets = remaining_secrets(&dictionary, &game);
    let allowed = fibble::allowed_words(&dictionary);
    let top = top_candidates(allowed, &secrets, 4);
    assert_eq!(top.len(), 4);
    for pair in top.windows(2) {
        let first = pair[0].concentration();
        let second = pair[1].concentration();
        assert!(!second.less_than(&first));
        if !first.less_than(&second) {
            let place = |word: &str| allowed.iter().position(|entry| entry == word).unwrap();
            assert!(place(pair[0].guess()) < place(pair[1].guess()));
        }
    }
    for analysis in &top {
        assert!(secrets.contains(&analysis.guess()));
        assert_eq!(analysis.total_secrets(), 9);
    }
    // Every candidate left out tells no more than the last one listed.
    let last = top[3].concentration();
    for word in &secrets {
        if top.iter().all(|analysis| analysis.guess() != *word) {
            let other = analyze_guess_against(&dictionary, word, &secrets).unwrap();
            assert!(!other.concentration().less_than(&last));
        }
    }
}
