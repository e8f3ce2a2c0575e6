use wordle_solver::fact::{AbsentPosition, Fact, RightPosition, WrongPosition};
use wordle_solver::feedback::generate_results_for_guess;
use wordle_solver::scoring::{calculate_score, facts_weight, find_best_word};

fn word(text: &str) -> String {
    String::from(text)
}

fn pool(texts: &[&str]) -> Vec<String> {
    texts.iter().map(|text| word(text)).collect()
}

fn score(guess: &str, texts: &[&str]) -> u64 {
    let words = pool(texts);
    let guess = word(guess);
    calculate_score(generate_results_for_guess(&words, &guess))
}

#[test]
fn each_kind_of_fact_has_its_weight() {
    let right = Fact::Right(RightPosition { letter_index: 0, letter: 'A' });
    let somewhere = Fact::Somewhere(WrongPosition {
        impossible_positions: vec![1],
        letter_index: 1,
        letter: 'B',
    });
    let absent = Fact::Absent(AbsentPosition { letter: 'C', letter_index: 2 });
    assert_eq!(facts_weight(&vec![right.clone()]), 2);
    assert_eq!(facts_weight(&vec![somewhere.clone()]), 1);
    assert_eq!(facts_weight(&vec![absent.clone()]), 0);
    assert_eq!(facts_weight(&vec![]), 0);
    assert_eq!(facts_weight(&vec![right.clone(), somewhere, absent, right]), 5);
}

#[test]
fn score_sums_over_the_pool() {
    assert_eq!(score("CAT", &["CAT", "DOG", "CAR"]), 10);
    assert_eq!(score("DOG", &["CAT", "DOG", "CAR"]), 6);
    assert_eq!(score("CAR", &["CAT", "DOG", "CAR"]), 10);
}

#[test]
fn misplaced_letters_score_one_point() {
    // T and C are found elsewhere, A is in place.
    assert_eq!(score("TAC", &["CAT"]), 4);
    // Only one of the two P is found.
    assert_eq!(score("PPAAA", &["QQQQP"]), 1);
}

#[test]
fn score_against_an_empty_pool_is_zero() {
    assert_eq!(score("CAT", &[]), 0);
}

#[test]
fn score_counts_only_the_words_left_in_the_walk() {
    let words = pool(&["CAT", "DOG", "CAR"]);
    let guess = word("CAT");
    let mut results = generate_results_for_guess(&words, &guess);
    assert!(results.next().is_some());
    assert_eq!(calculate_score(results), 4);
}

#[test]
fn score_is_full_exactly_when_every_word_is_the_guess() {
    // Two points for each of the 3 letters and each of the 4 words.
    assert_eq!(score("CAT", &["CAT", "CAT", "CAT", "CAT"]), 24);
    assert_eq!(score("CAT", &["CAT"]), 6);
    assert!(score("CAT", &["CAT", "CAT", "CAR", "CAT"]) < 24);
    assert!(score("CAT", &["TCA"]) < 6);
    assert_eq!(score("", &["", ""]), 0);
}

#[test]
fn best_word_scores_highest() {
    assert_eq!(find_best_word(&pool(&["DOG", "CAR", "CAB", "CAT"])), "CAR");
    // CAR: 0 + 6 + 4 + 4 = 14, as CAB and CAT; DOG: 6.
    assert_eq!(score("CAR", &["DOG", "CAR", "CAB", "CAT"]), 14);
    assert_eq!(find_best_word(&pool(&["ABC", "XYZ", "XYW"])), "XYZ");
}

#[test]
fn best_word_keeps_the_first_of_equals() {
    assert_eq!(find_best_word(&pool(&["CAT", "DOG", "CAR"])), "CAT");
    assert_eq!(find_best_word(&pool(&["CAR", "DOG", "CAT"])), "CAR");
    assert_eq!(find_best_word(&pool(&["AB", "CD"])), "AB");
}

#[test]
fn best_word_of_a_single_word_is_that_word() {
    assert_eq!(find_best_word(&pool(&["CRANE"])), "CRANE");
    assert_eq!(find_best_word(&pool(&[""])), "");
}
