use fibble::{
    remaining_secrets, score, Dictionary, GameMode, LetterState, Wordle, WordleError,
};

fn game_dictionary() -> Dictionary {
    let allowed = [
        "AAHED", "ALLOT", "APPLE", "AWAKE", "BLUSH", "CAIRN", "CIGAR", "FOCAL", "HUMPH", "REBUT",
        "SISSY", "TIGAR",
    ];
    let secrets = ["CIGAR", "REBUT", "SISSY", "HUMPH", "AWAKE", "BLUSH", "FOCAL", "TIGAR", "APPLE"];
    Dictionary::new(
        allowed.iter().map(|word| word.to_string()).collect(),
        secrets.iter().map(|word| word.to_string()).collect(),
    )
    .unwrap()
}

#[test]
fn rejects_words_not_in_wordle_list() {
    let dictionary = game_dictionary();
    assert_eq!(
        Wordle::new(&dictionary, "zzzzz").unwrap_err(),
        WordleError::UnknownWord {
            word: "ZZZZZ".into()
        }
    );

    let mut game = Wordle::new(&dictionary, "cigar").unwrap();
    assert_eq!(
        game.submit_guess(&dictionary, "zzzzz").unwrap_err(),
        WordleError::UnknownWord {
            word: "ZZZZZ".into()
        }
    );
}

#[test]
fn rejects_words_of_incorrect_length() {
    let dictionary = game_dictionary();
    assert!(Wordle::new(&dictionary, "tool").is_err());
    let mut game = Wordle::new(&dictionary, "cigar").unwrap();
    assert!(game.submit_guess(&dictionary, "longer").is_err());
}

#[test]
fn scores_guesses_with_duplicate_letters() {
    let letters = score("APPLE", "ALLOT");
    assert_eq!(
        letters,
        vec![
            LetterState::Correct('A'),
            LetterState::Present('L'),
            LetterState::Absent('L'),
            LetterState::Absent('O'),
            LetterState::Absent('T')
        ]
    );
}

#[test]
fn records_history_and_detects_wins() {
    let dictionary = game_dictionary();
    let mut game = Wordle::new(&dictionary, "cigar").unwrap();
    assert!(!game.submit_guess(&dictionary, "cairn").unwrap().is_correct());
    assert!(game.submit_guess(&dictionary, "cigar").unwrap().is_correct());
    assert_eq!(game.guesses().len(), 2);
}

#[test]
fn colored_string_contains_ansi_sequences() {
    let dictionary = game_dictionary();
    let mut game = Wordle::new(&dictionary, "cigar").unwrap();
    let guess = game.submit_guess(&dictionary, "cairn").unwrap();
    let colored = guess.colored_string();
    assert!(colored.contains("\x1b[")); // basic sanity check for ANSI output
}

#[test]
fn remaining_secrets_keeps_actual_solution() {
    let dictionary = game_dictionary();
    let mut game = Wordle::new(&dictionary, "cigar").unwrap();
    game.submit_guess(&dictionary, "cairn").unwrap();
    let secrets = remaining_secrets(&dictionary, &game);
    assert!(secrets.contains(&"CIGAR"));
}

#[test]
fn remaining_secrets_collapses_after_solution_found() {
    let dictionary = game_dictionary();
    let mut game = Wordle::new(&dictionary, "cigar").unwrap();
    game.submit_guess(&dictionary, "cigar").unwrap();
    let secrets = remaining_secrets(&dictionary, &game);
    assert_eq!(secrets, vec!["CIGAR"]);
}

#[test]
fn fibble_history_requires_single_lie() {
    let dictionary = game_dictionary();
    let mut game = Wordle::new_with_mode(&dictionary, "cigar", GameMode::Fibble).unwrap();
    let row = game
        .submit_guess_with_lie(&dictionary, "CIGAR", 4, 0)
        .unwrap();
    assert_eq!(row.guess(), "CIGAR");
    assert_eq!(
        row.letters(),
        vec![
            LetterState::Correct('C'),
            LetterState::Correct('I'),
            LetterState::Correct('G'),
            LetterState::Correct('A'),
            LetterState::Present('R'),
        ]
    );
    let secrets = remaining_secrets(&dictionary, &game);
    assert!(secrets.contains(&"CIGAR"));
    assert!(!secrets.contains(&"TIGAR"));
}

#[test]
fn new_game_normalizes_the_secret() {
    let dictionary = game_dictionary();
    let game = Wordle::new(&dictionary, "  Cigar\n").unwrap();
    assert_eq!(game.secret(), "CIGAR");
    assert_eq!(game.mode(), GameMode::Wordle);
    assert!(game.guesses().is_empty());
    let lying = Wordle::new_with_mode(&dictionary, "rebut", GameMode::Fibble).unwrap();
    assert_eq!(lying.mode(), GameMode::Fibble);
    assert_eq!(lying.secret(), "REBUT");
}

#[test]
fn wrong_length_reports_both_lengths() {
    let dictionary = game_dictionary();
    assert_eq!(
        Wordle::new(&dictionary, "tool").unwrap_err(),
        WordleError::InvalidLength {
            expected: 5,
            found: 4
        }
    );
    let mut game = Wordle::new(&dictionary, "cigar").unwrap();
    assert_eq!(
        game.submit_guess(&dictionary, "longer").unwrap_err(),
        WordleError::InvalidLength {
            expected: 5,
            found: 6
        }
    );
    assert_eq!(
        game.submit_guess(&dictionary, "   ").unwrap_err(),
        WordleError::InvalidLength {
            expected: 5,
            found: 0
        }
    );
}

#[test]
fn rejected_guess_leaves_history_untouched() {
    let dictionary = game_dictionary();
    let mut game = Wordle::new(&dictionary, "cigar").unwrap();
    game.submit_guess(&dictionary, "cairn").unwrap();
    assert!(game.submit_guess(&dictionary, "zzzzz").is_err());
    assert!(game.submit_guess(&dictionary, "ab").is_err());
    assert!(game.submit_guess(&dictionary, "12345").is_err());
    assert_eq!(game.guesses().len(), 1);
    assert_eq!(game.guesses()[0].guess(), "CAIRN");
    assert_eq!(game.secret(), "CIGAR");
}

#[test]
fn strict_rows_report_the_true_pattern() {
    let dictionary = game_dictionary();
    let mut game = Wordle::new(&dictionary, "cigar").unwrap();
    let row = game.submit_guess(&dictionary, " cairn ").unwrap();
    assert_eq!(row.guess(), "CAIRN");
    assert_eq!(
        row.letters(),
        vec![
            LetterState::Correct('C'),
            LetterState::Present('A'),
            LetterState::Present('I'),
            LetterState::Present('R'),
            LetterState::Absent('N'),
        ]
    );
    assert_eq!(row.letters(), score("CIGAR", "CAIRN"));
    let ignored = game
        .submit_guess_with_lie(&dictionary, "rebut", 2, 1)
        .unwrap();
    assert_eq!(ignored.letters(), score("CIGAR", "REBUT"));
}

#[test]
fn lying_rows_differ_from_the_truth_in_one_tile() {
    let dictionary = game_dictionary();
    for _ in 0..200 {
        let mut game = Wordle::new_with_mode(&dictionary, "cigar", GameMode::Fibble).unwrap();
        let row = game.submit_guess(&dictionary, "cairn").unwrap().clone();
        let truth = score("CIGAR", "CAIRN");
        let differing = truth
            .iter()
            .zip(row.letters())
            .filter(|(actual, reported)| actual != reported)
            .count();
        assert_eq!(differing, 1);
        for (actual, reported) in truth.iter().zip(row.letters()) {
            assert_eq!(actual.letter(), reported.letter());
        }
        assert!(remaining_secrets(&dictionary, &game).contains(&"CIGAR"));
    }
}

#[test]
fn named_lie_replaces_the_named_tile() {
    let dictionary = game_dictionary();
    let mut game = Wordle::new_with_mode(&dictionary, "cigar", GameMode::Fibble).unwrap();
    let first = game
        .submit_guess_with_lie(&dictionary, "cairn", 4, 0)
        .unwrap()
        .clone();
    assert_eq!(
        first.letters(),
        vec![
            LetterState::Correct('C'),
            LetterState::Present('A'),
            LetterState::Present('I'),
            LetterState::Present('R'),
            LetterState::Correct('N'),
        ]
    );
    let second = game
        .submit_guess_with_lie(&dictionary, "cairn", 1, 1)
        .unwrap()
        .clone();
    assert_eq!(
        second.letters(),
        vec![
            LetterState::Correct('C'),
            LetterState::Absent('A'),
            LetterState::Present('I'),
            LetterState::Present('R'),
            LetterState::Absent('N'),
        ]
    );
    assert_eq!(game.guesses().len(), 2);
    assert_eq!(game.guesses()[0], first);
    assert_eq!(game.guesses()[1], second);
}

#[test]
fn colored_string_spells_every_block() {
    let dictionary = game_dictionary();
    let mut game = Wordle::new(&dictionary, "cigar").unwrap();
    let row = game.submit_guess(&dictionary, "cairn").unwrap();
    let green = "\x1b[48;5;34m\x1b[97m";
    let yellow = "\x1b[48;5;178m\x1b[30m";
    let grey = "\x1b[48;5;240m\x1b[97m";
    let expected = format!(
        "{green} C \x1b[0m {yellow} A \x1b[0m {yellow} I \x1b[0m {yellow} R \x1b[0m {grey} N \x1b[0m"
    );
    assert_eq!(row.colored_string(), expected);
    assert_eq!(LetterState::Correct('C').color_code(), green);
    assert_eq!(LetterState::Present('A').color_code(), yellow);
    assert_eq!(LetterState::Absent('N').color_code(), grey);
    assert_eq!(
        LetterState::Absent('N').colored_block(),
        format!("{grey} N \x1b[0m")
    );
    assert_eq!(LetterState::Present('Q').letter(), 'Q');
}
