//! How feedback and filter agree: when the hidden word itself passes the
//! filter on the feedback that it gave.

use vstd::prelude::*;
use crate::counting::{lemma_count_none, lemma_count_positive, lemma_count_witness};
use crate::feedback::{
    feedback, is_absent, is_right, is_somewhere, lemma_fact_position, lemma_position_fact,
    lemma_somewhere_count, loose_at, somewhere_with, spare, spare_at,
};
use crate::filter::{
    claimed, claims, consistent, consistent_with, fact_holds, lemma_filter_keeps_all,
};

verus! {

/// Some letter of the guess is reported once as found elsewhere and once
/// as absent: the guess holds it, outside the positions where it is in
/// place, more often than the target does, and the target does hold it
/// there.
pub open spec fn has_split_letter(target: Seq<char>, guess: Seq<char>) -> bool {
    exists|i: int, k: int|
        #![trigger is_somewhere(target, guess, i), is_absent(target, guess, k)]
        is_somewhere(target, guess, i) && is_absent(target, guess, k) && guess[i] == guess[k]
}

/// Where no letter is split, the target has no spare occurrence of an
/// absent letter.
proof fn lemma_absent_letter_has_no_spare(target: Seq<char>, guess: Seq<char>, p: int)
    requires
        !has_split_letter(target, guess),
        is_absent(target, guess, p),
    ensures
        spare(target, guess, guess[p]) == 0,
{
    let n = guess.len() as int;
    let letter = guess[p];
    // No occurrence of the letter is found elsewhere: it would split the
    // letter with the absent one at `p`.
    assert forall|i: int| 0 <= i < n implies !#[trigger] somewhere_with(target, guess, letter)(
        i,
    ) by {
        assert(is_somewhere(target, guess, i) && guess[i] == letter ==> is_absent(
            target,
            guess,
            p,
        ));
    }
    lemma_count_none(n, somewhere_with(target, guess, letter));
    // So the smaller of the loose and the spare occurrences is zero, and the
    // occurrence at `p` is loose.
    lemma_somewhere_count(target, guess, letter, n);
    lemma_count_positive(n, loose_at(target, guess, letter), p);
}

/// Where no letter is split, the target agrees with the fact at `k` of the
/// feedback that it gives.
proof fn lemma_own_fact_holds(target: Seq<char>, guess: Seq<char>, k: int)
    requires
        !has_split_letter(target, guess),
        0 <= k < feedback(target, guess).len(),
    ensures
        fact_holds(target, feedback(target, guess), k),
{
    let facts = feedback(target, guess);
    let p = lemma_fact_position(target, guess, k);
    let letter = guess[p];
    if is_right(target, guess, p) {
        // In place: the target holds the letter at `p`.
    } else if is_somewhere(target, guess, p) {
        // Found elsewhere: the target has a spare occurrence, and none at `p`.
        let j = lemma_count_witness(target.len() as int, spare_at(target, guess, letter));
        assert(target[j] == letter);
    } else {
        // Absent: the target holds the letter only where the guess has it in
        // place, and one of the first facts claims each such position.
        lemma_absent_letter_has_no_spare(target, guess, p);
        assert forall|q: int| 0 <= q < target.len() && target[q] == letter implies claimed(
            facts,
            k,
            letter,
            q,
        ) by {
            if !is_right(target, guess, q) {
                lemma_count_positive(target.len() as int, spare_at(target, guess, letter), q);
            }
            let j = lemma_position_fact(target, guess, q);
            assert(claims(facts[j], letter, q));
        }
    }
}

/// Where a letter is split, the target does not agree with the fact that
/// reports the letter as absent.
proof fn lemma_split_fact_fails(target: Seq<char>, guess: Seq<char>) -> (k: int)
    requires
        has_split_letter(target, guess),
    ensures
        0 <= k < feedback(target, guess).len(),
        !fact_holds(target, feedback(target, guess), k),
{
    let facts = feedback(target, guess);
    let (i, a) = choose|i: int, a: int|
        #![trigger is_somewhere(target, guess, i), is_absent(target, guess, a)]
        is_somewhere(target, guess, i) && is_absent(target, guess, a) && guess[i] == guess[a];
    let letter = guess[a];
    let k = lemma_position_fact(target, guess, a);
    // The occurrence at `i` found a spare occurrence at some `q`.
    let q = lemma_count_witness(target.len() as int, spare_at(target, guess, letter));
    // No fact claims `q` for the letter: the guess would hold the letter
    // there, and so have it in place.
    if claimed(facts, k, letter, q) {
        let m = choose|m: int|
            0 <= m < k && m < facts.len() && claims(#[trigger] facts[m], letter, q);
        let p = lemma_fact_position(target, guess, m);
        assert(p == q && guess[q] == letter);
    }
    assert(target[q] == letter && !claimed(facts, k, letter, q));
    k
}

/// The target agrees with the feedback that it gives to a guess exactly
/// when that feedback splits no letter.
pub proof fn lemma_own_feedback(target: Seq<char>, guess: Seq<char>)
    ensures
        consistent(target, feedback(target, guess)) <==> !has_split_letter(target, guess),
{
    let facts = feedback(target, guess);
    if has_split_letter(target, guess) {
        let k = lemma_split_fact_fails(target, guess);
    } else {
        assert forall|k: int| 0 <= k < facts.len() implies #[trigger] fact_holds(
            target,
            facts,
            k,
        ) by {
            lemma_own_fact_holds(target, guess, k);
        }
    }
}

/// A word passes the filter on the feedback that it gives to a guess, as
/// long as that feedback splits no letter.
pub proof fn lemma_word_survives_own_feedback(word: Seq<char>, guess: Seq<char>)
    requires
        !has_split_letter(word, guess),
    ensures
        seq![word].filter(consistent_with(feedback(word, guess))) == seq![word],
{
    lemma_own_feedback(word, guess);
    lemma_filter_keeps_all(seq![word], consistent_with(feedback(word, guess)));
}

/// A word does not pass the filter on the feedback that it gives to a
/// guess, if that feedback splits a letter.
pub proof fn lemma_word_lost_to_own_feedback(word: Seq<char>, guess: Seq<char>)
    requires
        has_split_letter(word, guess),
    ensures
        seq![word].filter(consistent_with(feedback(word, guess))) == Seq::<Seq<char>>::empty(),
{
    lemma_own_feedback(word, guess);
    reveal_with_fuel(Seq::filter, 2);
}

/// The hidden word stays in the pool when the pool is pruned with the
/// feedback that it gave, as long as that feedback splits no letter.
pub proof fn lemma_target_stays_in_pool(
    pool: Seq<Seq<char>>,
    target: Seq<char>,
    guess: Seq<char>,
)
    requires
        pool.contains(target),
        !has_split_letter(target, guess),
    ensures
        pool.filter(consistent_with(feedback(target, guess))).contains(target),
{
    lemma_own_feedback(target, guess);
    let i = choose|i: int| 0 <= i < pool.len() && pool[i] == target;
    pool.lemma_filter_contains(consistent_with(feedback(target, guess)), i);
}

} // verus!
