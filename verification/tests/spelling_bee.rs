use spelling_bee::Dictionary;
use spelling_bee::Game;
use spelling_bee::GameError;
use spelling_bee::GameProcessed;
use spelling_bee::Guess;
use spelling_bee::GuessingError;

fn dict_of(words: &[&str]) -> Dictionary {
    let lines: Vec<String> = words.iter().map(|w| w.to_string()).collect();
    Dictionary::from_lines(&lines)
}

fn puzzle(center: char, others: &[char]) -> GameProcessed {
    let game = Game::new(center, others.to_vec());
    GameProcessed::try_from_game(&game).unwrap()
}

#[test]
fn concrete_scenario_fact_scores_one() {
    let dict = dict_of(&["GALACTIC", "ACTICAL", "FACT"]);
    let game = puzzle('C', &['A', 'L', 'T', 'E', 'F', 'I']);
    let word = "FACT".to_string();
    assert_eq!(Guess::new(&word).eval_points(&game, &dict), Ok(1));
}

#[test]
fn concrete_scenario_disallowed_letter() {
    let dict = dict_of(&["GALACTIC", "ACTICAL", "FACT"]);
    let game = puzzle('C', &['A', 'L', 'T', 'E', 'F', 'I']);
    let word = "GALACTIC".to_string();
    assert_eq!(
        Guess::new(&word).eval_points(&game, &dict),
        Err(GuessingError::DisallowedLetter('G'))
    );
}

#[test]
fn concrete_scenario_disallowed_letter_z() {
    let dict = dict_of(&["CALZ"]);
    let game = puzzle('C', &['A', 'L', 'T', 'E', 'F', 'I']);
    let word = "CALZ".to_string();
    assert_eq!(
        Guess::new(&word).eval_points(&game, &dict),
        Err(GuessingError::DisallowedLetter('Z'))
    );
}

#[test]
fn concrete_scenario_longer_word_scores_per_letter() {
    let dict = dict_of(&["ACTICAL"]);
    let game = puzzle('C', &['A', 'L', 'T', 'E', 'F', 'I']);
    let word = "ACTICAL".to_string();
    // length 7: 1 base point + 3 extra letters, no pangram bonus.
    assert_eq!(Guess::new(&word).eval_points(&game, &dict), Ok(4));
}

#[test]
fn pangram_earns_bonus() {
    let dict = dict_of(&["AFFLICTATE"]);
    let game = puzzle('C', &['A', 'L', 'T', 'E', 'F', 'I']);
    let word = "AFFLICTATE".to_string();
    // length 10 and all seven permitted letters used: 1 + 6 + 7.
    assert_eq!(Guess::new(&word).eval_points(&game, &dict), Ok(14));
}

#[test]
fn one_letter_short_of_pangram_gets_no_bonus() {
    let dict = dict_of(&["AFFLICTA"]);
    let game = puzzle('C', &['A', 'L', 'T', 'E', 'F', 'I']);
    let word = "AFFLICTA".to_string();
    // length 8, letter E never used: 1 + 4, no bonus.
    assert_eq!(Guess::new(&word).eval_points(&game, &dict), Ok(5));
}

#[test]
fn four_letter_pangram_scores_eight() {
    let dict = dict_of(&["FACT"]);
    let game = puzzle('C', &['A', 'T', 'F']);
    let word = "FACT".to_string();
    assert_eq!(Guess::new(&word).eval_points(&game, &dict), Ok(8));
}

#[test]
fn too_short_word_rejected() {
    let dict = dict_of(&["FACT"]);
    let game = puzzle('C', &['A', 'T', 'F']);
    let word = "CAT".to_string();
    assert_eq!(
        Guess::new(&word).eval_points(&game, &dict),
        Err(GuessingError::TooShort)
    );
}

#[test]
fn unknown_word_rejected() {
    let dict = dict_of(&["FACT"]);
    let game = puzzle('C', &['A', 'L', 'T', 'E', 'F', 'I']);
    let word = "FACTS".to_string();
    assert_eq!(
        Guess::new(&word).eval_points(&game, &dict),
        Err(GuessingError::UnknownWord)
    );
}

#[test]
fn missing_center_letter_rejected() {
    let dict = dict_of(&["TALE"]);
    let game = puzzle('C', &['A', 'L', 'T', 'E', 'F', 'I']);
    let word = "TALE".to_string();
    assert_eq!(
        Guess::new(&word).eval_points(&game, &dict),
        Err(GuessingError::MissingCenterLetter)
    );
}

#[test]
fn center_letter_among_others_fails_normalization() {
    let game = Game::new('C', vec!['A', 'C', 'L']);
    assert_eq!(
        GameProcessed::try_from_game(&game).err(),
        Some(GameError::InvalidPuzzle)
    );
}

#[test]
fn duplicate_non_center_letters_are_merged() {
    let game = Game::new('C', vec!['A', 'A', 'L', 'L', 'L']);
    let processed = GameProcessed::try_from_game(&game).unwrap();
    assert_eq!(processed.letter_count(), 3);
}

#[test]
fn letter_count_counts_center_and_others() {
    let game = puzzle('C', &['A', 'L', 'T', 'E', 'F', 'I']);
    assert_eq!(game.letter_count(), 7);
}

#[test]
fn from_lines_filters_and_deduplicates() {
    let lines: Vec<String> = vec![
        "FACT".to_string(),
        "".to_string(),
        "cat".to_string(),
        "TOO".to_string(),
        "FACT".to_string(),
        "FaCT".to_string(),
        "ACTICAL".to_string(),
    ];
    let dict = Dictionary::from_lines(&lines);
    assert_eq!(dict.word_count(), 2);
    assert!(dict.contains_word(&"FACT".to_string()));
    assert!(dict.contains_word(&"ACTICAL".to_string()));
    assert!(!dict.contains_word(&"TOO".to_string()));
    assert!(!dict.contains_word(&"cat".to_string()));
    assert!(!dict.contains_word(&"FaCT".to_string()));
    assert!(!dict.contains_word(&"".to_string()));
}
