use spelling_bee::BruteForce;
use spelling_bee::Dictionary;
use spelling_bee::Game;
use spelling_bee::GameResult;
use spelling_bee::GameSolver;
use spelling_bee::LetterMap;
use spelling_bee::ParallelBruteForce;
use spelling_bee::ParallelLetterMap;

fn dict_of(words: &[&str]) -> Dictionary {
    let lines: Vec<String> = words.iter().map(|w| w.to_string()).collect();
    Dictionary::from_lines(&lines)
}

const WORDS: &[&str] = &["GALACTIC", "ACTICAL", "FACT", "TALE", "CELL", "CAT", "AFFLICTATE"];

fn check_expected(result: &GameResult) {
    assert_eq!(result.len(), 4);
    assert_eq!(result.get(&"FACT".to_string()), Some(1));
    assert_eq!(result.get(&"ACTICAL".to_string()), Some(4));
    assert_eq!(result.get(&"CELL".to_string()), Some(1));
    assert_eq!(result.get(&"AFFLICTATE".to_string()), Some(14));
    assert_eq!(result.get(&"GALACTIC".to_string()), None);
    assert_eq!(result.get(&"TALE".to_string()), None);
    assert_eq!(result.get(&"CAT".to_string()), None);
}

#[test]
fn brute_force_finds_expected_words() {
    let dict = dict_of(WORDS);
    let game = Game::new('C', vec!['A', 'L', 'T', 'E', 'F', 'I']);
    let solver = GameSolver::<BruteForce>::new(&dict);
    check_expected(&solver.solve(&game).unwrap());
}

#[test]
fn parallel_brute_force_finds_expected_words() {
    let dict = dict_of(WORDS);
    let game = Game::new('C', vec!['A', 'L', 'T', 'E', 'F', 'I']);
    let solver = GameSolver::<ParallelBruteForce>::new(&dict);
    check_expected(&solver.solve(&game).unwrap());
}

#[test]
fn letter_map_finds_expected_words() {
    let dict = dict_of(WORDS);
    let game = Game::new('C', vec!['A', 'L', 'T', 'E', 'F', 'I']);
    let solver = GameSolver::<LetterMap>::new(&dict);
    check_expected(&solver.solve(&game).unwrap());
}

#[test]
fn parallel_letter_map_finds_expected_words() {
    let dict = dict_of(WORDS);
    let game = Game::new('C', vec!['A', 'L', 'T', 'E', 'F', 'I']);
    let solver = GameSolver::<ParallelLetterMap>::new(&dict);
    check_expected(&solver.solve(&game).unwrap());
}

fn results_agree(a: &GameResult, b: &GameResult) {
    assert_eq!(a.len(), b.len());
    let n = a.entry_count();
    for i in 0..n {
        let (word, points) = a.entry_at(i);
        assert_eq!(b.get(word), Some(points));
    }
}

#[test]
fn all_strategies_agree() {
    let dict = dict_of(WORDS);
    let game = Game::new('C', vec!['A', 'L', 'T', 'E', 'F', 'I']);
    let r1 = GameSolver::<BruteForce>::new(&dict).solve(&game).unwrap();
    let r2 = GameSolver::<ParallelBruteForce>::new(&dict).solve(&game).unwrap();
    let r3 = GameSolver::<LetterMap>::new(&dict).solve(&game).unwrap();
    let r4 = GameSolver::<ParallelLetterMap>::new(&dict).solve(&game).unwrap();
    results_agree(&r1, &r2);
    results_agree(&r1, &r3);
    results_agree(&r1, &r4);
    results_agree(&r4, &r1);
}

#[test]
fn solving_twice_is_idempotent() {
    let dict = dict_of(WORDS);
    let game = Game::new('C', vec!['A', 'L', 'T', 'E', 'F', 'I']);
    let solver = GameSolver::<LetterMap>::new(&dict);
    let first = solver.solve(&game).unwrap();
    let second = solver.solve(&game).unwrap();
    results_agree(&first, &second);
    let par_solver = GameSolver::<ParallelLetterMap>::new(&dict);
    let par_first = par_solver.solve(&game).unwrap();
    let par_second = par_solver.solve(&game).unwrap();
    results_agree(&par_first, &par_second);
}

#[test]
fn invalid_puzzle_is_rejected_by_solver() {
    let dict = dict_of(WORDS);
    let game = Game::new('C', vec!['A', 'C']);
    let solver = GameSolver::<BruteForce>::new(&dict);
    assert!(solver.solve(&game).is_err());
}

#[test]
fn center_letter_in_no_word_gives_empty_result() {
    let dict = dict_of(&["TALE", "FELT", "LATE"]);
    let game = Game::new('C', vec!['A', 'L', 'T', 'E', 'F', 'I']);
    let r1 = GameSolver::<BruteForce>::new(&dict).solve(&game).unwrap();
    let r2 = GameSolver::<ParallelBruteForce>::new(&dict).solve(&game).unwrap();
    let r3 = GameSolver::<LetterMap>::new(&dict).solve(&game).unwrap();
    let r4 = GameSolver::<ParallelLetterMap>::new(&dict).solve(&game).unwrap();
    assert!(r1.is_empty());
    assert!(r2.is_empty());
    assert!(r3.is_empty());
    assert!(r4.is_empty());
    assert_eq!(r3.len(), 0);
    assert_eq!(r4.len(), 0);
}

#[test]
fn empty_dictionary_gives_empty_result() {
    let dict = dict_of(&[]);
    let game = Game::new('C', vec!['A', 'L', 'T', 'E', 'F', 'I']);
    let r = GameSolver::<LetterMap>::new(&dict).solve(&game).unwrap();
    assert!(r.is_empty());
}

#[test]
fn solve_can_be_reused_across_puzzles() {
    let dict = dict_of(WORDS);
    let solver = GameSolver::<LetterMap>::new(&dict);
    let around_c = solver.solve(&Game::new('C', vec!['A', 'L', 'T', 'E', 'F', 'I'])).unwrap();
    assert_eq!(around_c.len(), 4);
    let around_t = solver.solve(&Game::new('T', vec!['A', 'L', 'E', 'F', 'I', 'C'])).unwrap();
    // TALE and every C-word containing T qualify now.
    assert_eq!(around_t.get(&"TALE".to_string()), Some(1));
    assert_eq!(around_t.get(&"FACT".to_string()), Some(1));
    assert_eq!(around_t.get(&"ACTICAL".to_string()), Some(4));
    assert_eq!(around_t.get(&"AFFLICTATE".to_string()), Some(14));
    assert_eq!(around_t.get(&"CELL".to_string()), None);
    assert_eq!(around_t.len(), 4);
}
