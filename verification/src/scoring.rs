//! Ranking of guesses: a guess scores, against every word that may still be
//! the hidden one, two points for each letter in place and one for each
//! letter found elsewhere.

use vstd::prelude::*;
use crate::counting::{collect_below, count_below, lemma_count_full, lemma_count_partition};
use crate::fact::{Fact, FactView};
use crate::feedback::{
    absent_at, absent_fact, absent_facts, feedback, generate_results_for_guess, is_right,
    right_at, right_count, right_fact, right_facts, somewhere_at, somewhere_count,
    somewhere_fact, somewhere_facts, WordleResultsIterator,
};

verus! {

/// What one fact adds to a score.
pub open spec fn weight(fact: FactView) -> nat {
    match fact {
        FactView::Absent { .. } => 0,
        FactView::Somewhere { .. } => 1,
        FactView::Right { .. } => 2,
    }
}

/// The sum of the weights of the facts.
pub open spec fn total_weight(facts: Seq<FactView>) -> nat
    decreases facts.len(),
{
    if facts.len() == 0 {
        0
    } else {
        total_weight(facts.drop_last()) + weight(facts.last())
    }
}

/// What `guess` scores if `word` is the hidden word.
pub open spec fn word_score(word: Seq<char>, guess: Seq<char>) -> nat {
    total_weight(feedback(word, guess))
}

/// What `guess` scores against all the words of `pool`.
pub open spec fn score(guess: Seq<char>, pool: Seq<Seq<char>>) -> nat
    decreases pool.len(),
{
    if pool.len() == 0 {
        0
    } else {
        word_score(pool.first(), guess) + score(guess, pool.drop_first())
    }
}

/// The word at `k` scores at least as much against the pool as every word of
/// it, and more than every word before it.
pub open spec fn is_best_index(pool: Seq<Seq<char>>, k: int) -> bool {
    &&& 0 <= k < pool.len()
    &&& forall|j: int|
        0 <= j < pool.len() ==> score(#[trigger] pool[j], pool) <= score(pool[k], pool)
    &&& forall|j: int| 0 <= j < k ==> score(#[trigger] pool[j], pool) < score(pool[k], pool)
}

/// Every guess from the pool has a score that fits in 64 bits.
pub open spec fn scores_fit(pool: Seq<Seq<char>>) -> bool {
    forall|i: int| 0 <= i < pool.len() ==> score(#[trigger] pool[i], pool) <= u64::MAX
}

/// The position of the best guess in a pool that is not empty.
pub open spec fn best_index(pool: Seq<Seq<char>>) -> int {
    choose|k: int| is_best_index(pool, k)
}

/// The best guess in a pool that is not empty: the first of the words that
/// score highest against the pool.
pub open spec fn best_guess(pool: Seq<Seq<char>>) -> Seq<char> {
    pool[best_index(pool)]
}

/// A guess scores against one word two points for each letter in place and
/// one for each letter found elsewhere.
pub proof fn lemma_word_score(word: Seq<char>, guess: Seq<char>)
    ensures
        word_score(word, guess) == 2 * right_count(word, guess) + somewhere_count(word, guess),
{
    let n = guess.len() as int;
    lemma_weight_concat(
        right_facts(word, guess, n) + somewhere_facts(word, guess, n),
        absent_facts(word, guess, n),
    );
    lemma_weight_concat(right_facts(word, guess, n), somewhere_facts(word, guess, n));
    lemma_weight_of_kind(n, right_at(word, guess), right_fact(guess), 2);
    lemma_weight_of_kind(n, somewhere_at(word, guess), somewhere_fact(guess), 1);
    lemma_weight_of_kind(n, absent_at(word, guess), absent_fact(guess), 0);
}

/// A guess scores against one word at most two points for each of its
/// letters, and that much exactly when all of them are in place.
pub proof fn lemma_word_score_bounded(word: Seq<char>, guess: Seq<char>)
    ensures
        word_score(word, guess) <= 2 * guess.len(),
        word_score(word, guess) == 2 * guess.len() <==> forall|i: int|
            0 <= i < guess.len() ==> is_right(word, guess, i),
{
    let n = guess.len() as int;
    lemma_word_score(word, guess);
    lemma_count_partition(
        n,
        right_at(word, guess),
        somewhere_at(word, guess),
        absent_at(word, guess),
    );
    lemma_count_full(n, right_at(word, guess));
    if forall|i: int| 0 <= i < guess.len() ==> is_right(word, guess, i) {
        assert forall|k: int| 0 <= k < n implies #[trigger] right_at(word, guess)(k) by {
            assert(is_right(word, guess, k));
        }
    }
    if word_score(word, guess) == 2 * guess.len() {
        assert forall|i: int| 0 <= i < guess.len() implies is_right(word, guess, i) by {
            assert(right_at(word, guess)(i));
        }
    }
}

/// A guess scores at most two points for each of its letters against each
/// word of the pool.
pub proof fn lemma_score_bounded(guess: Seq<char>, pool: Seq<Seq<char>>)
    ensures
        score(guess, pool) <= 2 * guess.len() * pool.len(),
    decreases pool.len(),
{
    if pool.len() > 0 {
        lemma_score_bounded(guess, pool.drop_first());
        lemma_word_score_bounded(pool.first(), guess);
        let each = 2 * guess.len();
        assert(each * (pool.len() - 1) + each == each * pool.len()) by (nonlinear_arith);
    } else {
        assert(2 * guess.len() * 0 == 0) by (nonlinear_arith);
    }
}

/// Against a pool of words of its own length a guess scores nothing less
/// than zero and nothing more than two points for each of its letters and
/// each word, and it scores that much exactly when every word of the pool
/// is the guess itself.
pub proof fn lemma_full_score(guess: Seq<char>, pool: Seq<Seq<char>>)
    requires
        forall|i: int| 0 <= i < pool.len() ==> (#[trigger] pool[i]).len() == guess.len(),
    ensures
        0 <= score(guess, pool) <= 2 * guess.len() * pool.len(),
        score(guess, pool) == 2 * guess.len() * pool.len() <==> forall|i: int|
            0 <= i < pool.len() ==> #[trigger] pool[i] == guess,
    decreases pool.len(),
{
    let each = 2 * guess.len();
    if pool.len() > 0 {
        let first = pool.first();
        let rest = pool.drop_first();
        assert forall|i: int| 0 <= i < rest.len() implies (#[trigger] rest[i]).len()
            == guess.len() by {
            assert(rest[i] == pool[i + 1]);
        }
        lemma_full_score(guess, rest);
        lemma_word_score_bounded(first, guess);
        assert(each * (pool.len() - 1) + each == each * pool.len()) by (nonlinear_arith);
        if forall|i: int| 0 <= i < pool.len() ==> #[trigger] pool[i] == guess {
            assert forall|i: int| 0 <= i < rest.len() implies #[trigger] rest[i] == guess by {
                assert(rest[i] == pool[i + 1]);
            }
        }
        if score(guess, pool) == each * pool.len() {
            assert(first =~= guess) by {
                assert forall|i: int| 0 <= i < guess.len() implies first[i] == guess[i] by {
                    assert(is_right(first, guess, i));
                }
            }
            assert forall|i: int| 0 <= i < pool.len() implies #[trigger] pool[i] == guess by {
                if i > 0 {
                    assert(pool[i] == rest[i - 1]);
                }
            }
        }
    } else {
        assert(each * 0 == 0) by (nonlinear_arith);
    }
}

/// One more word in the pool adds what the guess scores against it.
pub proof fn lemma_score_push(guess: Seq<char>, pool: Seq<Seq<char>>, word: Seq<char>)
    ensures
        score(guess, pool.push(word)) == score(guess, pool) + word_score(word, guess),
    decreases pool.len(),
{
    let longer = pool.push(word);
    if pool.len() == 0 {
        assert(longer.drop_first() =~= pool);
    } else {
        lemma_score_push(guess, pool.drop_first(), word);
        assert(longer.drop_first() =~= pool.drop_first().push(word));
    }
}

/// A guess scores no more against a part of the pool than against the
/// whole of it.
pub proof fn lemma_score_filter(
    guess: Seq<char>,
    pool: Seq<Seq<char>>,
    pred: spec_fn(Seq<char>) -> bool,
)
    ensures
        score(guess, pool.filter(pred)) <= score(guess, pool),
    decreases pool.len(),
{
    reveal(Seq::filter);
    if pool.len() > 0 {
        let front = pool.drop_last();
        lemma_score_filter(guess, front, pred);
        lemma_score_push(guess, front, pool.last());
        lemma_score_push(guess, front.filter(pred), pool.last());
        assert(front.push(pool.last()) =~= pool);
    }
}

/// A pool has at most one best position.
pub proof fn lemma_best_index_unique(pool: Seq<Seq<char>>, a: int, b: int)
    requires
        is_best_index(pool, a),
        is_best_index(pool, b),
    ensures
        a == b,
{
    if a < b {
        assert(score(pool[b], pool) <= score(pool[a], pool));
    } else if b < a {
        assert(score(pool[a], pool) <= score(pool[b], pool));
    }
}

/// A pool that is not empty has a best guess.
pub proof fn lemma_best_index_exists(pool: Seq<Seq<char>>)
    requires
        pool.len() > 0,
    ensures
        is_best_index(pool, best_index(pool)),
{
    let k = lemma_first_best(pool, pool.len() as int);
    assert(is_best_index(pool, k));
}

/// The sum of the weights of the facts.
pub fn facts_weight(facts: &Vec<Fact>) -> (total: u64)
    requires
        total_weight(facts.deep_view()) <= u64::MAX,
    ensures
        total == total_weight(facts.deep_view()),
{
    let mut total: u64 = 0;
    let mut i: usize = 0;
    while i < facts.len()
        invariant
            i <= facts@.len(),
            total_weight(facts.deep_view()) <= u64::MAX,
            total == total_weight(facts.deep_view().take(i as int)),
        decreases facts@.len() - i,
    {
        proof {
            let view = facts.deep_view();
            assert(view.take(i + 1).drop_last() =~= view.take(i as int));
            lemma_weight_concat(view.take(i + 1), view.skip(i + 1));
            assert(view.take(i + 1) + view.skip(i + 1) =~= view);
        }
        match &facts[i] {
            Fact::Absent(_) => {},
            Fact::Somewhere(_) => {
                total += 1;
            },
            Fact::Right(_) => {
                total += 2;
            },
        }
        i += 1;
    }
    proof {
        assert(facts.deep_view().take(i as int) =~= facts.deep_view());
    }
    total
}

/// What the guess of a walk scores against the words that the walk has not
/// yet compared.
pub fn calculate_score<'a, 'b>(possible_resulting_facts: WordleResultsIterator<'a, 'b>) -> (total:
    u64)
    requires
        score(possible_resulting_facts@.guess, possible_resulting_facts@.remaining) <= u64::MAX,
    ensures
        total == score(possible_resulting_facts@.guess, possible_resulting_facts@.remaining),
{
    let mut results = possible_resulting_facts;
    let ghost guess = results@.guess;
    let ghost all = results@.remaining;
    let mut total: u64 = 0;
    loop
        invariant
            results@.guess == guess,
            total + score(guess, results@.remaining) == score(guess, all),
            score(guess, all) <= u64::MAX,
        ensures
            total == score(guess, all),
        decreases results@.remaining.len(),
    {
        match results.next() {
            None => {
                break;
            },
            Some(facts) => {
                let points: u64 = facts_weight(&facts);
                total += points;
            },
        }
    }
    total
}

/// The best guess in a pool that is not empty.
pub fn find_best_word(words: &Vec<String>) -> (best: String)
    requires
        words@.len() > 0,
        scores_fit(words.deep_view()),
    ensures
        is_best_index(words.deep_view(), best_index(words.deep_view())),
        best@ == best_guess(words.deep_view()),
{
    let ghost pool = words.deep_view();
    let mut best: usize = 0;
    let mut best_score: u64 = calculate_score(generate_results_for_guess(words, &words[0]));
    let mut i: usize = 1;
    while i < words.len()
        invariant
            1 <= i <= words@.len(),
            pool == words.deep_view(),
            scores_fit(pool),
            best < i,
            best_score == score(pool[best as int], pool),
            forall|j: int|
                0 <= j < i ==> score(#[trigger] pool[j], pool) <= score(pool[best as int], pool),
            forall|j: int|
                0 <= j < best ==> score(#[trigger] pool[j], pool) < score(pool[best as int], pool),
        decreases words@.len() - i,
    {
        assert(pool[i as int] == words@[i as int]@);
        let candidate: u64 = calculate_score(generate_results_for_guess(words, &words[i]));
        if candidate > best_score {
            best_score = candidate;
            best = i;
        }
        i += 1;
    }
    proof {
        lemma_best_index_unique(pool, best as int, best_index(pool));
    }
    words[best].clone()
}

/// The weight of facts that are all of one kind.
proof fn lemma_weight_of_kind(
    n: int,
    p: spec_fn(int) -> bool,
    f: spec_fn(int) -> FactView,
    each: nat,
)
    requires
        forall|k: int| 0 <= k < n ==> weight(#[trigger] f(k)) == each,
    ensures
        total_weight(collect_below(n, p, f)) == each * count_below(n, p),
    decreases n,
{
    if n > 0 {
        lemma_weight_of_kind(n - 1, p, f, each);
        let rest = collect_below(n - 1, p, f);
        if p(n - 1) {
            assert(rest.push(f(n - 1)).drop_last() =~= rest);
            assert(each * (count_below(n - 1, p) + 1) == each * count_below(n - 1, p) + each)
                by (nonlinear_arith);
        }
    } else {
        assert(each * 0 == 0) by (nonlinear_arith);
    }
}

/// The weight of a concatenation is the sum of the weights of its parts.
proof fn lemma_weight_concat(a: Seq<FactView>, b: Seq<FactView>)
    ensures
        total_weight(a + b) == total_weight(a) + total_weight(b),
    decreases b.len(),
{
    if b.len() > 0 {
        lemma_weight_concat(a, b.drop_last());
        assert((a + b).drop_last() =~= a + b.drop_last());
    }
}

/// Among the first `n` words of a pool there is one that scores at least
/// as much against the pool as each of them, and more than each of them
/// before it.
proof fn lemma_first_best(pool: Seq<Seq<char>>, n: int) -> (k: int)
    requires
        0 < n <= pool.len(),
    ensures
        0 <= k < n,
        forall|j: int| 0 <= j < n ==> score(#[trigger] pool[j], pool) <= score(pool[k], pool),
        forall|j: int| 0 <= j < k ==> score(#[trigger] pool[j], pool) < score(pool[k], pool),
    decreases n,
{
    if n == 1 {
        0
    } else {
        let k = lemma_first_best(pool, n - 1);
        if score(pool[n - 1], pool) > score(pool[k], pool) {
            n - 1
        } else {
            k
        }
    }
}

} // verus!
