use wordle_solver::fact::{AbsentPosition, Fact, RightPosition, WrongPosition};
use wordle_solver::feedback::{compare, compare_letters, generate_results_for_guess, letters_of};

fn right(letter: char, letter_index: usize) -> Fact {
    Fact::Right(RightPosition { letter_index, letter })
}

fn somewhere(letter: char, letter_index: usize) -> Fact {
    Fact::Somewhere(WrongPosition {
        impossible_positions: vec![letter_index],
        letter_index,
        letter,
    })
}

fn absent(letter: char, letter_index: usize) -> Fact {
    Fact::Absent(AbsentPosition { letter, letter_index })
}

fn word(text: &str) -> String {
    String::from(text)
}

fn placed(facts: &[Fact], letter: char) -> usize {
    facts
        .iter()
        .filter(|fact| match fact {
            Fact::Right(r) => r.letter == letter,
            Fact::Somewhere(w) => w.letter == letter,
            Fact::Absent(_) => false,
        })
        .count()
}

#[test]
fn all_but_last_letter_in_place() {
    let facts = compare(&word("APPLE"), &word("APPLY"));
    assert_eq!(
        facts,
        vec![right('A', 0), right('P', 1), right('P', 2), right('L', 3), absent('Y', 4)]
    );
}

#[test]
fn misplaced_letters_take_first_free_occurrence() {
    let facts = compare(&word("APPLE"), &word("PLEAS"));
    assert_eq!(
        facts,
        vec![
            somewhere('P', 0),
            somewhere('L', 1),
            somewhere('E', 2),
            somewhere('A', 3),
            absent('S', 4)
        ]
    );
}

#[test]
fn facts_come_grouped_by_kind() {
    // T is found elsewhere, A is in place, X is absent: the fact for A comes first.
    let facts = compare(&word("CAT"), &word("TAX"));
    assert_eq!(facts, vec![right('A', 1), somewhere('T', 0), absent('X', 2)]);
}

#[test]
fn letter_in_place_wins_over_earlier_duplicate() {
    // The only P of the target is taken by the P in place; the earlier P finds none.
    let facts = compare(&word("XPX"), &word("PPA"));
    assert_eq!(facts, vec![right('P', 1), absent('P', 0), absent('A', 2)]);
}

#[test]
fn leftmost_duplicate_is_found_elsewhere() {
    let facts = compare(&word("XYC"), &word("CCZ"));
    assert_eq!(facts, vec![somewhere('C', 0), absent('C', 1), absent('Z', 2)]);
}

#[test]
fn two_duplicates_find_two_occurrences() {
    let facts = compare(&word("ABCAA"), &word("XAAXA"));
    assert_eq!(
        facts,
        vec![
            right('A', 4),
            somewhere('A', 1),
            somewhere('A', 2),
            absent('X', 0),
            absent('X', 3)
        ]
    );
}

#[test]
fn identical_words_are_all_in_place() {
    let facts = compare(&word("CRANE"), &word("CRANE"));
    assert_eq!(
        facts,
        vec![right('C', 0), right('R', 1), right('A', 2), right('N', 3), right('E', 4)]
    );
}

#[test]
fn disjoint_words_are_all_absent() {
    let facts = compare(&word("ABC"), &word("XYZ"));
    assert_eq!(facts, vec![absent('X', 0), absent('Y', 1), absent('Z', 2)]);
}

#[test]
fn empty_guess_gives_no_fact() {
    assert_eq!(compare(&word("ABC"), &word("")), Vec::<Fact>::new());
    assert_eq!(compare(&word(""), &word("")), Vec::<Fact>::new());
}

#[test]
fn one_fact_for_each_letter_of_the_guess() {
    for (target, guess) in [("APPLE", "PLEAS"), ("APPLE", "APPLY"), ("XYC", "CCZ"), ("AB", "ABAB")]
    {
        assert_eq!(compare(&word(target), &word(guess)).len(), guess.chars().count());
    }
}

#[test]
fn longer_guess_matches_what_the_target_has() {
    // Positions past the end of the target are never in place.
    let facts = compare(&word("AB"), &word("ABAB"));
    assert_eq!(facts, vec![right('A', 0), right('B', 1), absent('A', 2), absent('B', 3)]);
}

#[test]
fn shorter_guess_is_judged_letter_by_letter() {
    let facts = compare(&word("ABCA"), &word("CA"));
    assert_eq!(facts, vec![somewhere('C', 0), somewhere('A', 1)]);
}

#[test]
fn no_letter_is_placed_more_often_than_the_target_holds_it() {
    let pairs = [
        ("APPLE", "PPPPP"),
        ("APPLE", "PLEAS"),
        ("XYC", "CCZ"),
        ("ABCAA", "XAAXA"),
        ("LEVEL", "EEEEE"),
    ];
    for (target, guess) in pairs {
        let facts = compare(&word(target), &word(guess));
        for letter in guess.chars() {
            let held = target.chars().filter(|c| *c == letter).count();
            assert!(placed(&facts, letter) <= held);
        }
    }
    // Exactly: two of the five P find the two P of the target.
    let facts = compare(&word("APPLE"), &word("PPPPP"));
    assert_eq!(placed(&facts, 'P'), 2);
    assert_eq!(
        facts,
        vec![right('P', 1), right('P', 2), absent('P', 0), absent('P', 3), absent('P', 4)]
    );
}

#[test]
fn letters_of_splits_a_word() {
    assert_eq!(letters_of(&word("CAT")), vec!['C', 'A', 'T']);
    assert_eq!(letters_of(&word("")), Vec::<char>::new());
    assert_eq!(letters_of(&word("né")), vec!['n', 'é']);
}

#[test]
fn compare_letters_agrees_with_compare() {
    let facts = compare_letters(&vec!['C', 'A', 'R'], &vec!['C', 'A', 'T']);
    assert_eq!(facts, compare(&word("CAR"), &word("CAT")));
    assert_eq!(facts, vec![right('C', 0), right('A', 1), absent('T', 2)]);
}

#[test]
fn results_walk_compares_each_word_in_turn() {
    let words = vec![word("CAT"), word("DOG"), word("CAR")];
    let guess = word("CAT");
    let mut results = generate_results_for_guess(&words, &guess);
    assert_eq!(results.next(), Some(vec![right('C', 0), right('A', 1), right('T', 2)]));
    assert_eq!(results.next(), Some(vec![absent('C', 0), absent('A', 1), absent('T', 2)]));
    assert_eq!(results.next(), Some(vec![right('C', 0), right('A', 1), absent('T', 2)]));
    assert_eq!(results.next(), None);
    assert_eq!(results.next(), None);
}

#[test]
fn results_walk_over_no_words_ends_at_once() {
    let words: Vec<String> = Vec::new();
    let guess = word("CAT");
    let mut results = generate_results_for_guess(&words, &guess);
    assert_eq!(results.next(), None);
}
