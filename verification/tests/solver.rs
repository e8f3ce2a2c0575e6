use wordle_solver::fact::{AbsentPosition, Fact, RightPosition, WrongPosition};
use wordle_solver::solver::{
    contains_word, resolve, scoring_fits, solve_wordle, start, step, Attempt,
    ConfigurationError, Session, SolverState, MAX_ATTEMPTS,
};

fn word(text: &str) -> String {
    String::from(text)
}

fn pool(texts: &[&str]) -> Vec<String> {
    texts.iter().map(|text| word(text)).collect()
}

fn attempt(pool_size: usize, guess: &str) -> Attempt {
    Attempt { pool_size, guess: word(guess) }
}

fn run(texts: &[&str], target: &str) -> Session {
    solve_wordle(&pool(texts), &word(target)).expect("the session starts")
}

#[test]
fn small_dictionary_is_solved_in_two_attempts() {
    let session = run(&["CAT", "DOG", "CAR"], "CAR");
    assert_eq!(session.outcome, SolverState::Found { attempt: 2 });
    assert_eq!(session.attempts, vec![attempt(3, "CAT"), attempt(1, "CAR")]);
}

#[test]
fn first_guess_can_be_the_hidden_word() {
    let session = run(&["CAT", "DOG", "CAR"], "CAT");
    assert_eq!(session.outcome, SolverState::Found { attempt: 1 });
    assert_eq!(session.attempts, vec![attempt(3, "CAT")]);
}

#[test]
fn session_is_exhausted_after_six_misses() {
    let words = ["AAAB", "AAAC", "AAAD", "AAAE", "AAAF", "AAAG", "AAAH"];
    let session = run(&words, "AAAH");
    assert_eq!(session.outcome, SolverState::Exhausted);
    assert_eq!(
        session.attempts,
        vec![
            attempt(7, "AAAB"),
            attempt(6, "AAAC"),
            attempt(5, "AAAD"),
            attempt(4, "AAAE"),
            attempt(3, "AAAF"),
            attempt(2, "AAAG"),
        ]
    );
}

#[test]
fn sixth_attempt_may_still_find_the_word() {
    let words = ["AAAB", "AAAC", "AAAD", "AAAE", "AAAF", "AAAG", "AAAH"];
    let session = run(&words, "AAAG");
    assert_eq!(session.outcome, SolverState::Found { attempt: 6 });
    assert_eq!(session.attempts.len(), 6);
    assert_eq!(session.attempts[5], attempt(2, "AAAG"));
}

#[test]
fn empty_dictionary_is_a_configuration_error() {
    assert_eq!(solve_wordle(&vec![], &word("CAR")), Err(ConfigurationError::EmptyDictionary));
    assert_eq!(start(&vec![], &word("CAR")), Err(ConfigurationError::EmptyDictionary));
}

#[test]
fn word_of_another_length_is_a_configuration_error() {
    let words = pool(&["CAT", "DOGS", "CAR"]);
    assert_eq!(solve_wordle(&words, &word("CAR")), Err(ConfigurationError::LengthMismatch));
    assert_eq!(start(&words, &word("CAR")), Err(ConfigurationError::LengthMismatch));
    assert_eq!(
        solve_wordle(&pool(&["CAT", "CAR"]), &word("CARS")),
        Err(ConfigurationError::LengthMismatch)
    );
}

#[test]
fn session_starts_with_the_first_attempt_on_the_whole_dictionary() {
    let words = pool(&["CAT", "DOG", "CAR"]);
    assert_eq!(
        start(&words, &word("CAR")),
        Ok(SolverState::Searching { attempt: 1, pool: words.clone() })
    );
}

#[test]
fn hidden_word_outside_the_dictionary_is_inconsistent() {
    let session = run(&["CAT", "DOG"], "CAR");
    let facts = vec![
        Fact::Right(RightPosition { letter_index: 0, letter: 'C' }),
        Fact::Right(RightPosition { letter_index: 1, letter: 'A' }),
        Fact::Absent(AbsentPosition { letter: 'T', letter_index: 2 }),
    ];
    assert_eq!(session.outcome, SolverState::Inconsistent { facts });
    assert_eq!(session.attempts, vec![attempt(2, "CAT")]);
}

#[test]
fn split_letter_prunes_the_hidden_word() {
    let session = run(&["CCZ", "XYC"], "XYC");
    let facts = vec![
        Fact::Somewhere(WrongPosition { impossible_positions: vec![0], letter_index: 0, letter: 'C' }),
        Fact::Absent(AbsentPosition { letter: 'C', letter_index: 1 }),
        Fact::Absent(AbsentPosition { letter: 'Z', letter_index: 2 }),
    ];
    assert_eq!(session.outcome, SolverState::Inconsistent { facts });
    assert_eq!(session.attempts, vec![attempt(2, "CCZ")]);
}

#[test]
fn step_makes_one_attempt() {
    let state = SolverState::Searching { attempt: 1, pool: pool(&["CAT", "DOG", "CAR"]) };
    let state = step(state, &word("CAR"));
    assert_eq!(state, SolverState::Searching { attempt: 2, pool: pool(&["CAR"]) });
    let state = step(state, &word("CAR"));
    assert_eq!(state, SolverState::Found { attempt: 2 });
}

#[test]
fn step_past_the_budget_is_exhausted() {
    let state = SolverState::Searching { attempt: MAX_ATTEMPTS + 1, pool: pool(&["CAR"]) };
    assert_eq!(step(state, &word("CAR")), SolverState::Exhausted);
    let state = SolverState::Searching { attempt: MAX_ATTEMPTS, pool: pool(&["CAR"]) };
    assert_eq!(step(state, &word("CAR")), SolverState::Found { attempt: MAX_ATTEMPTS });
}

#[test]
fn step_leaves_a_finished_session_as_it_is() {
    assert_eq!(step(SolverState::Exhausted, &word("CAR")), SolverState::Exhausted);
    assert_eq!(
        step(SolverState::Found { attempt: 3 }, &word("CAR")),
        SolverState::Found { attempt: 3 }
    );
    let facts = vec![Fact::Absent(AbsentPosition { letter: 'T', letter_index: 2 })];
    assert_eq!(
        step(SolverState::Inconsistent { facts: facts.clone() }, &word("CAR")),
        SolverState::Inconsistent { facts }
    );
}

#[test]
fn found_wins_over_the_check_of_the_pool() {
    // The guess is the hidden word, though the pool does not hold it.
    let state = resolve(4, pool(&["CAT"]), &word("CAR"), &word("CAR"));
    assert_eq!(state, SolverState::Found { attempt: 4 });
}

#[test]
fn resolve_prunes_the_pool_with_the_feedback() {
    let state = resolve(1, pool(&["CAT", "COT", "CAR", "CAB"]), &word("CAT"), &word("CAB"));
    assert_eq!(state, SolverState::Searching { attempt: 2, pool: pool(&["CAR", "CAB"]) });
}

#[test]
fn contains_word_looks_for_the_whole_word() {
    let words = pool(&["CAT", "DOG"]);
    assert!(contains_word(&words, &word("DOG")));
    assert!(!contains_word(&words, &word("DO")));
    assert!(!contains_word(&vec![], &word("DOG")));
}

#[test]
fn budget_is_six_attempts() {
    assert_eq!(MAX_ATTEMPTS, 6);
}

#[test]
fn scores_of_an_ordinary_dictionary_fit() {
    assert!(scoring_fits(&pool(&["CAT", "DOG", "CAR"]), &word("CAR")));
    assert!(scoring_fits(&vec![], &word("CAR")));
    assert!(scoring_fits(&pool(&["CAT"]), &word("")));
}
