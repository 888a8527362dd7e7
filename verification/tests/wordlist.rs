use fibble::selector::Ranked;
use fibble::wordlist::word_list_from_text;
use fibble::{Dictionary, GuessEntropy, WordleError};

#[test]
fn every_line_of_five_characters_gives_an_entry() {
    let text = "cigar\nrebut\r\n  sissy  \n\ntool\nlonger\nHUMPH";
    assert_eq!(
        word_list_from_text(text, false),
        vec!["CIGAR", "REBUT", "SISSY", "HUMPH"]
    );
    assert_eq!(
        word_list_from_text(text, true),
        vec!["CIGAR", "REBUT", "SISSY", "HUMPH"]
    );
}

#[test]
fn letters_only_passes_over_other_characters() {
    let text = "cigar\nc1gar\nab cd\nh\u{e9}llo\nrebut\n";
    assert_eq!(
        word_list_from_text(text, false),
        vec!["CIGAR", "C1GAR", "AB CD", "H\u{e9}LLO", "REBUT"]
    );
    assert_eq!(word_list_from_text(text, true), vec!["CIGAR", "REBUT"]);
}

#[test]
fn empty_text_gives_no_entries() {
    assert!(word_list_from_text("", false).is_empty());
    assert!(word_list_from_text("\n\n  \n", true).is_empty());
    assert_eq!(word_list_from_text("cigar", true), vec!["CIGAR"]);
    assert_eq!(word_list_from_text("\ncigar\n", true), vec!["CIGAR"]);
}

#[test]
fn dictionary_from_text_checks_the_rules() {
    let dictionary = Dictionary::from_text("cigar\nrebut\naahed\n", "rebut\ncigar\nnope\n").unwrap();
    assert_eq!(dictionary.allowed(), vec!["CIGAR", "REBUT", "AAHED"]);
    assert_eq!(dictionary.secrets(), vec!["REBUT", "CIGAR"]);
    assert_eq!(
        Dictionary::from_text("cigar\n", "cigar\nrebut\n").unwrap_err(),
        WordleError::FatalConfig {
            word: "REBUT".into()
        }
    );
    assert_eq!(
        Dictionary::from_text("cigar\nc1gar\n", "cigar\n").unwrap_err(),
        WordleError::FatalConfig {
            word: "C1GAR".into()
        }
    );
    // Among the secrets a line with other characters is passed over.
    assert!(Dictionary::from_text("cigar\n", "cigar\nc1gar\n").is_ok());
}

#[test]
fn the_earlier_of_equals_is_kept() {
    let candidates = ["CIGAR", "TIGAR", "REBUT"];
    let lumping = GuessEntropy::of_word("HUMPH", &candidates);
    let parting = GuessEntropy::of_word("TIGAR", &candidates);
    let parting_too = GuessEntropy::of_word("CIGAR", &candidates);
    let kept = Ranked::new(lumping).challenge(parting);
    assert_eq!(kept.analysis().guess(), "TIGAR");
    let kept = kept.challenge(parting_too);
    assert_eq!(kept.analysis().guess(), "TIGAR");
    let kept = kept.challenge(GuessEntropy::of_word("SISSY", &candidates));
    assert_eq!(kept.analysis().guess(), "TIGAR");
    let analysis = kept.into_analysis();
    assert_eq!(analysis.guess(), "TIGAR");
    assert_eq!(analysis.distinct_patterns(), 3);
}
