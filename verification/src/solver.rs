//! The solver: it guesses the best word of the pool, takes the feedback of
//! the hidden word, prunes the pool with it, and goes on until the hidden
//! word is found, the attempts are used up, or the hidden word has fallen out
//! of the pool.

use vstd::prelude::*;
use crate::agreement::{has_split_letter, lemma_target_stays_in_pool};
use crate::fact::{Fact, FactView};
use crate::feedback::{compare, feedback};
use crate::filter::{consistent_with, filter_words};
use crate::scoring::{
    best_guess, find_best_word, lemma_best_index_exists, lemma_score_bounded,
    lemma_score_filter, score, scores_fit,
};

verus! {

/// The number of guesses that the solver may make.
pub const MAX_ATTEMPTS: u32 = 6;

/// Where a puzzle session stands.
#[derive(Debug, Clone, PartialEq, Eq)]
pub enum SolverState {
    /// The attempt with this number is about to be made on this pool.
    Searching { attempt: u32, pool: Vec<String> },
    /// The attempt with this number guessed the hidden word.
    Found { attempt: u32 },
    /// All attempts were made, and none guessed the hidden word.
    Exhausted,
    /// These facts, the feedback on the last guess, pruned the hidden word
    /// from the pool.
    Inconsistent { facts: Vec<Fact> },
}

/// The mathematical content of a [`SolverState`].
pub enum SolverStateView {
    Searching { attempt: int, pool: Seq<Seq<char>> },
    Found { attempt: int },
    Exhausted,
    Inconsistent { facts: Seq<FactView> },
}

impl View for SolverState {
    type V = SolverStateView;

    open spec fn view(&self) -> SolverStateView {
        match *self {
            SolverState::Searching { attempt, pool } => SolverStateView::Searching {
                attempt: attempt as int,
                pool: pool.deep_view(),
            },
            SolverState::Found { attempt } => SolverStateView::Found { attempt: attempt as int },
            SolverState::Exhausted => SolverStateView::Exhausted,
            SolverState::Inconsistent { facts } => SolverStateView::Inconsistent {
                facts: facts.deep_view(),
            },
        }
    }
}

/// Why a session cannot start.
#[derive(Debug, Clone, Copy, PartialEq, Eq)]
pub enum ConfigurationError {
    /// The dictionary holds no word.
    EmptyDictionary,
    /// A word of the dictionary is not as long as the hidden word.
    LengthMismatch,
}

/// One guess of a session, as it is reported.
#[derive(Debug, Clone, PartialEq, Eq)]
pub struct Attempt {
    /// How many words the pool held before the guess.
    pub pool_size: usize,
    /// The word that was guessed.
    pub guess: String,
}

/// The mathematical content of an [`Attempt`].
pub struct AttemptView {
    pub pool_size: int,
    pub guess: Seq<char>,
}

impl View for Attempt {
    type V = AttemptView;

    open spec fn view(&self) -> AttemptView {
        AttemptView { pool_size: self.pool_size as int, guess: self.guess@ }
    }
}

impl DeepView for Attempt {
    type V = AttemptView;

    open spec fn deep_view(&self) -> AttemptView {
        self@
    }
}

/// A whole session: the guesses in the order in which they were made, and
/// the state in which it ended.
#[derive(Debug, Clone, PartialEq, Eq)]
pub struct Session {
    pub attempts: Vec<Attempt>,
    pub outcome: SolverState,
}

/// A state on which the solver can work: while it searches within its
/// attempts, its pool is not empty, and the scores fit.
pub open spec fn workable(state: SolverStateView) -> bool {
    match state {
        SolverStateView::Searching { attempt, pool } => attempt <= MAX_ATTEMPTS ==> pool.len() > 0
            && scores_fit(pool),
        _ => true,
    }
}

/// Why a session on this dictionary and hidden word cannot start, if it
/// cannot.
pub open spec fn configuration_error(words: Seq<Seq<char>>, target: Seq<char>) -> Option<
    ConfigurationError,
> {
    if words.len() == 0 {
        Some(ConfigurationError::EmptyDictionary)
    } else if exists|i: int| 0 <= i < words.len() && (#[trigger] words[i]).len() != target.len() {
        Some(ConfigurationError::LengthMismatch)
    } else {
        None
    }
}

/// The state in which a session starts: the first attempt, on the whole
/// dictionary.
pub open spec fn initial_state(words: Seq<Seq<char>>) -> SolverStateView {
    SolverStateView::Searching { attempt: 1, pool: words }
}

/// The state after the attempt with number `attempt` has made `guess` on
/// `pool`.
pub open spec fn after_guess(
    attempt: int,
    pool: Seq<Seq<char>>,
    guess: Seq<char>,
    target: Seq<char>,
) -> SolverStateView {
    let facts = feedback(target, guess);
    let kept = pool.filter(consistent_with(facts));
    if guess == target {
        SolverStateView::Found { attempt }
    } else if !kept.contains(target) {
        SolverStateView::Inconsistent { facts }
    } else {
        SolverStateView::Searching { attempt: attempt + 1, pool: kept }
    }
}

/// One transition of the solver. From a state that searches, the attempt
/// is made unless the attempts are used up; every other state stays as it
/// is.
pub open spec fn next_state(state: SolverStateView, target: Seq<char>) -> SolverStateView {
    match state {
        SolverStateView::Searching { attempt, pool } => if attempt > MAX_ATTEMPTS {
            SolverStateView::Exhausted
        } else {
            after_guess(attempt, pool, best_guess(pool), target)
        },
        _ => state,
    }
}

/// A bound on the number of transitions that a state is away from the end
/// of its session.
pub open spec fn steps_left(state: SolverStateView) -> nat {
    match state {
        SolverStateView::Searching { attempt, .. } => if attempt <= MAX_ATTEMPTS {
            (MAX_ATTEMPTS + 2 - attempt) as nat
        } else {
            1
        },
        _ => 0,
    }
}

/// The state in which the session of `state` ends.
pub open spec fn session_outcome(state: SolverStateView, target: Seq<char>) -> SolverStateView
    decreases steps_left(state),
{
    if state is Searching {
        session_outcome(next_state(state, target), target)
    } else {
        state
    }
}

/// The guesses that the session of `state` still makes, with the size of
/// the pool before each.
pub open spec fn session_attempts(state: SolverStateView, target: Seq<char>) -> Seq<AttemptView>
    decreases steps_left(state),
{
    match state {
        SolverStateView::Searching { attempt, pool } => if attempt <= MAX_ATTEMPTS {
            seq![AttemptView { pool_size: pool.len() as int, guess: best_guess(pool) }]
                + session_attempts(next_state(state, target), target)
        } else {
            Seq::empty()
        },
        _ => Seq::empty(),
    }
}

/// Pruning a pool whose scores fit leaves a pool whose scores fit.
pub proof fn lemma_scores_fit_filter(pool: Seq<Seq<char>>, pred: spec_fn(Seq<char>) -> bool)
    requires
        scores_fit(pool),
    ensures
        scores_fit(pool.filter(pred)),
{
    let kept = pool.filter(pred);
    assert forall|i: int| 0 <= i < kept.len() implies score(#[trigger] kept[i], kept)
        <= u64::MAX by {
        // The word is one of the pool, where its score fits; against the
        // pruned pool it scores no more.
        pool.lemma_filter_contains_rev(pred, kept[i]);
        let j = choose|j: int| 0 <= j < pool.len() && pool[j] == kept[i];
        assert(score(pool[j], pool) <= u64::MAX);
        lemma_score_filter(kept[i], pool, pred);
    }
}

/// The scores of a dictionary of words of one length fit if twice that
/// length, times the number of words, fits.
pub proof fn lemma_scores_fit(words: Seq<Seq<char>>, target: Seq<char>)
    requires
        forall|i: int| 0 <= i < words.len() ==> (#[trigger] words[i]).len() == target.len(),
        2 * target.len() * words.len() <= u64::MAX,
    ensures
        scores_fit(words),
{
    assert forall|i: int| 0 <= i < words.len() implies score(#[trigger] words[i], words)
        <= u64::MAX by {
        lemma_score_bounded(words[i], words);
    }
}

/// Whether the word is one of the words.
pub fn contains_word(words: &Vec<String>, word: &String) -> (found: bool)
    ensures
        found == words.deep_view().contains(word@),
{
    let ghost pool = words.deep_view();
    let mut i: usize = 0;
    while i < words.len()
        invariant
            i <= words@.len(),
            pool == words.deep_view(),
            forall|m: int| 0 <= m < i ==> pool[m] != word@,
        decreases words@.len() - i,
    {
        if words[i] == *word {
            assert(pool[i as int] == word@);
            return true;
        }
        i += 1;
    }
    false
}

/// Whether a session on `words` for `target` keeps its scores within 64
/// bits: twice the length of the hidden word, times the number of words,
/// must fit.
pub fn scoring_fits(words: &Vec<String>, target: &String) -> (fits: bool)
    ensures
        fits == (2 * target@.len() * words@.len() <= u64::MAX),
{
    let letters: usize = target.as_str().unicode_len();
    let count: usize = words.len();
    assert(letters * count <= u64::MAX * u64::MAX) by (nonlinear_arith)
        requires
            letters <= u64::MAX,
            count <= u64::MAX,
    ;
    assert(2 * target@.len() * words@.len() == 2 * (letters * count)) by (nonlinear_arith)
        requires
            letters == target@.len(),
            count == words@.len(),
    ;
    let product: u128 = letters as u128 * count as u128;
    product <= 0x7fff_ffff_ffff_ffff
}

/// The state in which a session on `words` starts, unless the dictionary is
/// empty or holds a word that is not as long as the hidden word.
pub fn start(words: &Vec<String>, target: &String) -> (started: Result<
    SolverState,
    ConfigurationError,
>)
    requires
        2 * target@.len() * words@.len() <= u64::MAX,
    ensures
        match started {
            Ok(state) => {
                &&& configuration_error(words.deep_view(), target@) is None
                &&& state@ == initial_state(words.deep_view())
                &&& workable(state@)
            },
            Err(error) => configuration_error(words.deep_view(), target@) == Some(error),
        },
{
    let ghost dictionary = words.deep_view();
    if words.len() == 0 {
        return Err(ConfigurationError::EmptyDictionary);
    }
    let length: usize = target.as_str().unicode_len();
    let mut pool: Vec<String> = Vec::new();
    let mut i: usize = 0;
    while i < words.len()
        invariant
            i <= words@.len(),
            dictionary == words.deep_view(),
            length == target@.len(),
            pool.deep_view() == dictionary.take(i as int),
            forall|m: int| 0 <= m < i ==> (#[trigger] dictionary[m]).len() == length,
        decreases words@.len() - i,
    {
        assert(dictionary[i as int] == words@[i as int]@);
        if words[i].as_str().unicode_len() != length {
            return Err(ConfigurationError::LengthMismatch);
        }
        pool.push(words[i].clone());
        assert(dictionary.take(i + 1) =~= dictionary.take(i as int).push(dictionary[i as int]));
        i += 1;
    }
    proof {
        assert(dictionary.take(i as int) =~= dictionary);
        lemma_scores_fit(dictionary, target@);
    }
    Ok(SolverState::Searching { attempt: 1, pool })
}

/// The state after the attempt with number `attempt` has made `guess` on
/// `pool`: the feedback of the hidden word prunes the pool; then the guess
/// is the hidden word, or the hidden word has fallen out of the pool, or the
/// search goes on.
pub fn resolve(attempt: u32, pool: Vec<String>, guess: &String, target: &String) -> (next:
    SolverState)
    requires
        attempt < u32::MAX,
        scores_fit(pool.deep_view()),
    ensures
        next@ == after_guess(attempt as int, pool.deep_view(), guess@, target@),
        workable(next@),
{
    let facts = compare(target, guess);
    let kept = filter_words(&pool, &facts);
    proof {
        lemma_scores_fit_filter(pool.deep_view(), consistent_with(facts.deep_view()));
    }
    if *guess == *target {
        SolverState::Found { attempt }
    } else if !contains_word(&kept, target) {
        SolverState::Inconsistent { facts }
    } else {
        SolverState::Searching { attempt: attempt + 1, pool: kept }
    }
}

/// One transition of the solver.
pub fn step(state: SolverState, target: &String) -> (next: SolverState)
    requires
        workable(state@),
    ensures
        next@ == next_state(state@, target@),
        workable(next@),
{
    match state {
        SolverState::Searching { attempt, pool } => {
            if attempt > MAX_ATTEMPTS {
                SolverState::Exhausted
            } else {
                let guess = find_best_word(&pool);
                resolve(attempt, pool, &guess, target)
            }
        },
        other => other,
    }
}

/// Runs a whole session on the dictionary `words` for the hidden word
/// `wordle`.
pub fn solve_wordle(words: &Vec<String>, wordle: &String) -> (solved: Result<
    Session,
    ConfigurationError,
>)
    requires
        2 * wordle@.len() * words@.len() <= u64::MAX,
    ensures
        match solved {
            Ok(session) => {
                &&& configuration_error(words.deep_view(), wordle@) is None
                &&& session.outcome@ == session_outcome(initial_state(words.deep_view()), wordle@)
                &&& session.attempts.deep_view() == session_attempts(
                    initial_state(words.deep_view()),
                    wordle@,
                )
            },
            Err(error) => configuration_error(words.deep_view(), wordle@) == Some(error),
        },
{
    let ghost initial = initial_state(words.deep_view());
    let mut state = match start(words, wordle) {
        Ok(state) => state,
        Err(error) => {
            return Err(error);
        },
    };
    let mut attempts: Vec<Attempt> = Vec::new();
    loop
        invariant
            initial == initial_state(words.deep_view()),
            configuration_error(words.deep_view(), wordle@) is None,
            workable(state@),
            session_outcome(state@, wordle@) == session_outcome(initial, wordle@),
            attempts.deep_view() + session_attempts(state@, wordle@) == session_attempts(
                initial,
                wordle@,
            ),
        decreases steps_left(state@),
    {
        match state {
            SolverState::Searching { attempt, pool } => {
                if attempt > MAX_ATTEMPTS {
                    state = SolverState::Exhausted;
                } else {
                    let guess = find_best_word(&pool);
                    attempts.push(Attempt { pool_size: pool.len(), guess: guess.clone() });
                    state = resolve(attempt, pool, &guess, wordle);
                }
            },
            other => {
                return Ok(Session { attempts, outcome: other });
            },
        }
    }
}

/// How a session ends. It ends in a state that searches no more. It makes
/// no more guesses than attempts are left. If the hidden word is found, the
/// last guess is the hidden word, and the attempt that found it is the
/// number of that guess. If the session is exhausted, every attempt that
/// was left has been made.
pub proof fn lemma_session_ends(state: SolverStateView, target: Seq<char>)
    requires
        state matches SolverStateView::Searching { attempt, .. } && 1 <= attempt <= MAX_ATTEMPTS
            + 1,
    ensures
        !(session_outcome(state, target) is Searching),
        session_attempts(state, target).len() <= MAX_ATTEMPTS + 1 - state->Searching_attempt,
        session_outcome(state, target) matches SolverStateView::Found { attempt } ==> {
            &&& attempt == state->Searching_attempt + session_attempts(state, target).len() - 1
            &&& session_attempts(state, target).len() > 0
            &&& session_attempts(state, target).last().guess == target
        },
        session_outcome(state, target) is Exhausted ==> session_attempts(state, target).len()
            == MAX_ATTEMPTS + 1 - state->Searching_attempt,
    decreases steps_left(state),
{
    let next = next_state(state, target);
    if next is Searching {
        lemma_session_ends(next, target);
    } else {
        assert(session_outcome(next, target) == next);
        assert(session_attempts(next, target) == Seq::<AttemptView>::empty());
    }
}

/// A session never ends with the hidden word pruned from the pool, if the
/// pool holds the hidden word and no word of the pool, taken as a guess,
/// gets a feedback that splits a letter.
pub proof fn lemma_session_stays_consistent(state: SolverStateView, target: Seq<char>)
    requires
        state matches SolverStateView::Searching { pool, .. } && pool.contains(target)
            && forall|i: int|
            0 <= i < pool.len() ==> !has_split_letter(target, #[trigger] pool[i]),
    ensures
        !(session_outcome(state, target) is Inconsistent),
    decreases steps_left(state),
{
    let pool = state->Searching_pool;
    let next = next_state(state, target);
    if next is Searching {
        let guess = best_guess(pool);
        let kept = next->Searching_pool;
        lemma_best_index_exists(pool);
        lemma_target_stays_in_pool(pool, target, guess);
        assert forall|i: int| 0 <= i < kept.len() implies !has_split_letter(
            target,
            #[trigger] kept[i],
        ) by {
            pool.lemma_filter_contains_rev(consistent_with(feedback(target, guess)), kept[i]);
        }
        lemma_session_stays_consistent(next, target);
    } else if next is Inconsistent {
        lemma_best_index_exists(pool);
        lemma_target_stays_in_pool(pool, target, best_guess(pool));
    } else {
        assert(session_outcome(next, target) == next);
    }
}

} // verus!
