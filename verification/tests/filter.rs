use wordle_solver::fact::{AbsentPosition, Fact, RightPosition, WrongPosition};
use wordle_solver::feedback::compare;
use wordle_solver::filter::{filter_words, is_consistent};

fn right(letter: char, letter_index: usize) -> Fact {
    Fact::Right(RightPosition { letter_index, letter })
}

fn somewhere(letter: char, letter_index: usize, impossible_positions: Vec<usize>) -> Fact {
    Fact::Somewhere(WrongPosition { impossible_positions, letter_index, letter })
}

fn absent(letter: char, letter_index: usize) -> Fact {
    Fact::Absent(AbsentPosition { letter, letter_index })
}

fn word(text: &str) -> String {
    String::from(text)
}

fn pool(texts: &[&str]) -> Vec<String> {
    texts.iter().map(|text| word(text)).collect()
}

#[test]
fn letter_in_place_must_stand_at_its_position() {
    let kept = filter_words(&pool(&["CAT", "DOG", "CAR", "ACT"]), &vec![right('C', 0)]);
    assert_eq!(kept, pool(&["CAT", "CAR"]));
}

#[test]
fn letter_in_place_past_the_end_rejects_the_word() {
    assert!(!is_consistent(&word("CAT"), &vec![right('C', 3)]));
    assert!(is_consistent(&word("CAT"), &vec![right('T', 2)]));
}

#[test]
fn letter_found_elsewhere_must_occur_off_its_position() {
    let facts = vec![somewhere('A', 0, vec![0])];
    let kept = filter_words(&pool(&["CAT", "ABC", "DOG", "TCA"]), &facts);
    assert_eq!(kept, pool(&["CAT", "TCA"]));
}

#[test]
fn letter_found_elsewhere_avoids_every_impossible_position() {
    let facts = vec![somewhere('A', 0, vec![0, 1])];
    let kept = filter_words(&pool(&["CAT", "ABC", "TCA"]), &facts);
    assert_eq!(kept, pool(&["TCA"]));
    // A position past the end of the word forbids nothing.
    assert!(is_consistent(&word("CAT"), &vec![somewhere('A', 0, vec![0, 7])]));
    // With no impossible position the letter only has to occur.
    assert!(is_consistent(&word("ABC"), &vec![somewhere('A', 0, vec![])]));
    assert!(!is_consistent(&word("XBC"), &vec![somewhere('A', 0, vec![])]));
}

#[test]
fn absent_letter_must_not_occur() {
    let kept = filter_words(&pool(&["CAT", "DOG", "CAR"]), &vec![absent('T', 2)]);
    assert_eq!(kept, pool(&["DOG", "CAR"]));
}

#[test]
fn absent_letter_may_stand_where_an_earlier_fact_claimed_it() {
    let facts = vec![right('A', 0), absent('A', 1)];
    assert!(is_consistent(&word("AB"), &facts));
    assert!(!is_consistent(&word("AA"), &facts));
    let facts = vec![somewhere('A', 1, vec![1]), absent('A', 2)];
    // The claim is on position 1, where the letter was tried.
    assert!(!is_consistent(&word("ABC"), &facts));
    assert!(!is_consistent(&word("BCA"), &facts));
}

#[test]
fn claim_counts_only_for_its_own_letter() {
    let facts = vec![somewhere('A', 0, vec![0]), absent('B', 1)];
    assert!(!is_consistent(&word("BA"), &facts));
    assert!(is_consistent(&word("CA"), &facts));
}

#[test]
fn absent_fact_claims_nothing() {
    let facts = vec![absent('X', 0), absent('B', 1)];
    assert!(!is_consistent(&word("BA"), &facts));
}

#[test]
fn claim_must_come_before_the_absent_fact() {
    assert!(is_consistent(&word("AB"), &vec![right('A', 0), absent('A', 1)]));
    assert!(!is_consistent(&word("AB"), &vec![absent('A', 1), right('A', 0)]));
}

#[test]
fn word_failing_one_fact_is_dropped() {
    let facts = vec![right('C', 0), right('A', 1), absent('T', 2)];
    let kept = filter_words(&pool(&["CAT", "DOG", "CAR", "CAB"]), &facts);
    assert_eq!(kept, pool(&["CAR", "CAB"]));
}

#[test]
fn filter_keeps_the_order_of_the_pool() {
    let facts = vec![absent('Z', 0)];
    let words = pool(&["DOG", "CAT", "ZOO", "ANT", "CAT"]);
    assert_eq!(filter_words(&words, &facts), pool(&["DOG", "CAT", "ANT", "CAT"]));
}

#[test]
fn filter_without_facts_keeps_the_pool() {
    let words = pool(&["CAT", "DOG", "CAR"]);
    assert_eq!(filter_words(&words, &vec![]), words);
    assert_eq!(filter_words(&vec![], &vec![]), Vec::<String>::new());
}

#[test]
fn filter_never_grows_the_pool() {
    let words = pool(&["CAT", "DOG", "CAR", "COT", "TAC"]);
    for guess in ["CAT", "DOG", "TAC", "XYZ"] {
        for target in ["CAR", "COT"] {
            let facts = compare(&word(target), &word(guess));
            assert!(filter_words(&words, &facts).len() <= words.len());
        }
    }
}

#[test]
fn word_passes_the_filter_on_its_own_feedback() {
    let pairs = [
        ("APPLE", "APPLY"),
        ("APPLE", "PLEAS"),
        ("CAR", "CAT"),
        ("CAR", "CAR"),
        ("LEVEL", "EQUIP"),
        ("ABCAA", "XAAXA"),
    ];
    for (target, guess) in pairs {
        let facts = compare(&word(target), &word(guess));
        assert_eq!(filter_words(&pool(&[target]), &facts), pool(&[target]));
    }
}

#[test]
fn word_is_lost_when_its_feedback_splits_a_letter() {
    // The first C is found elsewhere, the second is absent: the C of the
    // word stands at a position that no fact claims.
    let facts = compare(&word("XYC"), &word("CCZ"));
    assert_eq!(filter_words(&pool(&["XYC"]), &facts), Vec::<String>::new());
    let facts = compare(&word("APPLE"), &word("EEQQQ"));
    assert_eq!(filter_words(&pool(&["APPLE"]), &facts), Vec::<String>::new());
}
