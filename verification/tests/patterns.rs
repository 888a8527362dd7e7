use fibble::code::{encode_pattern, pattern_code_to_string};
use fibble::pattern::{compute_pattern_digits, letter_index};
use fibble::{score, LetterState};

#[test]
fn digits_follow_the_two_passes() {
    assert_eq!(compute_pattern_digits(b"APPLE", b"ALLOT"), [2, 1, 0, 0, 0]);
    assert_eq!(compute_pattern_digits(b"CIGAR", b"CIGAR"), [2, 2, 2, 2, 2]);
    assert_eq!(compute_pattern_digits(b"CIGAR", b"HUMPH"), [0, 0, 0, 0, 0]);
    assert_eq!(compute_pattern_digits(b"CIGAR", b"CAIRN"), [2, 1, 1, 1, 0]);
}

#[test]
fn earlier_duplicates_win_present() {
    // One free E in the secret: the first E of the guess takes it.
    assert_eq!(compute_pattern_digits(b"THESE", b"EERIE"), [1, 0, 0, 0, 2]);
    // The only E of the secret is matched in place: the other two are absent.
    assert_eq!(compute_pattern_digits(b"REBUT", b"EERIE"), [0, 2, 1, 0, 0]);
    // Both S of the secret are matched in place, so the third S is absent.
    assert_eq!(compute_pattern_digits(b"BLUSH", b"SISSY"), [0, 0, 0, 2, 0]);
    assert_eq!(compute_pattern_digits(b"SISSY", b"BLUSH"), [0, 0, 0, 2, 0]);
    // Two A in the secret, three in the guess, none in place.
    assert_eq!(compute_pattern_digits(b"BANAL", b"AAAHS"), [1, 2, 0, 0, 0]);
}

#[test]
fn correct_tiles_are_the_shared_positions() {
    let words: [&[u8; 5]; 7] = [
        b"APPLE", b"ALLOT", b"CIGAR", b"CAIRN", b"SISSY", b"EERIE", b"THESE",
    ];
    for secret in words {
        for guess in words {
            let digits = compute_pattern_digits(secret, guess);
            let correct = digits.iter().filter(|digit| **digit == 2).count();
            let shared = (0..5).filter(|i| secret[*i] == guess[*i]).count();
            assert_eq!(correct, shared);
        }
    }
}

#[test]
fn marked_tiles_never_exceed_letter_counts() {
    let words: [&[u8; 5]; 7] = [
        b"APPLE", b"ALLOT", b"CIGAR", b"CAIRN", b"SISSY", b"EERIE", b"AAAAA",
    ];
    for secret in words {
        for guess in words {
            let digits = compute_pattern_digits(secret, guess);
            for letter in b'A'..=b'Z' {
                let marked = (0..5)
                    .filter(|i| guess[*i] == letter && digits[*i] != 0)
                    .count();
                let in_secret = secret.iter().filter(|b| **b == letter).count();
                let in_guess = guess.iter().filter(|b| **b == letter).count();
                assert!(marked <= in_secret);
                assert!(marked <= in_guess);
            }
        }
    }
}

#[test]
fn letter_buckets_start_at_a() {
    assert_eq!(letter_index(b'A'), 0);
    assert_eq!(letter_index(b'C'), 2);
    assert_eq!(letter_index(b'Z'), 25);
}

#[test]
fn codes_are_base_three_most_significant_first() {
    assert_eq!(encode_pattern(&[0, 0, 0, 0, 0]), 0);
    assert_eq!(encode_pattern(&[0, 0, 0, 0, 1]), 1);
    assert_eq!(encode_pattern(&[0, 0, 0, 1, 0]), 3);
    assert_eq!(encode_pattern(&[2, 1, 0, 0, 0]), 189);
    assert_eq!(encode_pattern(&[1, 0, 2, 0, 1]), 100);
    assert_eq!(encode_pattern(&[2, 2, 2, 2, 2]), 242);
}

#[test]
fn codes_display_as_five_characters() {
    assert_eq!(pattern_code_to_string(0), "BBBBB");
    assert_eq!(pattern_code_to_string(1), "BBBBY");
    assert_eq!(pattern_code_to_string(189), "GYBBB");
    assert_eq!(pattern_code_to_string(100), "YBGBY");
    assert_eq!(pattern_code_to_string(242), "GGGGG");
    // Only the five lowest digits are shown.
    assert_eq!(pattern_code_to_string(243), "BBBBB");
    assert_eq!(pattern_code_to_string(243 + 189), "GYBBB");
}

#[test]
fn display_of_a_code_gives_the_pattern_back() {
    for code in 0..243usize {
        let mut digits = [0u8; 5];
        let mut rest = code;
        for idx in (0..5).rev() {
            digits[idx] = (rest % 3) as u8;
            rest /= 3;
        }
        assert_eq!(encode_pattern(&digits), code);
        let shown: Vec<char> = pattern_code_to_string(encode_pattern(&digits))
            .chars()
            .collect();
        assert_eq!(shown.len(), 5);
        for idx in 0..5 {
            let expected = match digits[idx] {
                2 => 'G',
                1 => 'Y',
                _ => 'B',
            };
            assert_eq!(shown[idx], expected);
        }
    }
}

#[test]
fn score_tags_every_tile_with_its_letter() {
    let letters = score("THESE", "EERIE");
    assert_eq!(
        letters,
        vec![
            LetterState::Present('E'),
            LetterState::Absent('E'),
            LetterState::Absent('R'),
            LetterState::Absent('I'),
            LetterState::Correct('E'),
        ]
    );
    let own = score("SISSY", "SISSY");
    assert!(own
        .iter()
        .all(|state| matches!(state, LetterState::Correct(_))));
}
