//! Pruning of the candidate pool: a word stays only if it agrees with every
//! fact that a guess has brought.

use vstd::prelude::*;
use crate::fact::{Fact, FactView};
use crate::feedback::letters_of;

verus! {

/// The word holds `letter` at `position`.
pub open spec fn letter_at(word: Seq<char>, position: int, letter: char) -> bool {
    0 <= position < word.len() && word[position] == letter
}

/// The fact reports `letter`, tried at `position`, as in place or as found
/// elsewhere.
pub open spec fn claims(fact: FactView, letter: char, position: int) -> bool {
    match fact {
        FactView::Right { position: p, letter: l } => p == position && l == letter,
        FactView::Somewhere { position: p, letter: l, .. } => p == position && l == letter,
        FactView::Absent { .. } => false,
    }
}

/// One of the first `k` facts claims `position` for `letter`.
pub open spec fn claimed(facts: Seq<FactView>, k: int, letter: char, position: int) -> bool {
    exists|m: int| 0 <= m < k && m < facts.len() && claims(#[trigger] facts[m], letter, position)
}

/// The word agrees with the fact at `k`.
///
/// A letter in place must stand at its position. A letter found elsewhere
/// must occur in the word, and at none of its impossible positions. An
/// absent letter may occur only at positions that an earlier fact for the
/// same letter has claimed.
pub open spec fn fact_holds(word: Seq<char>, facts: Seq<FactView>, k: int) -> bool {
    match facts[k] {
        FactView::Right { position, letter } => letter_at(word, position, letter),
        FactView::Somewhere { letter, impossible, .. } => {
            &&& word.contains(letter)
            &&& forall|m: int|
                0 <= m < impossible.len() ==> !letter_at(word, #[trigger] impossible[m], letter)
        },
        FactView::Absent { letter, .. } => forall|p: int|
            #![trigger word[p]]
            0 <= p < word.len() && word[p] == letter ==> claimed(facts, k, letter, p),
    }
}

/// The word agrees with every fact.
pub open spec fn consistent(word: Seq<char>, facts: Seq<FactView>) -> bool {
    forall|k: int| 0 <= k < facts.len() ==> #[trigger] fact_holds(word, facts, k)
}

/// `consistent` as a predicate on words.
pub open spec fn consistent_with(facts: Seq<FactView>) -> spec_fn(Seq<char>) -> bool {
    |word: Seq<char>| consistent(word, facts)
}

/// Whether the letter occurs among the letters.
fn contains_letter(letters: &Vec<char>, letter: char) -> (found: bool)
    ensures
        found == letters@.contains(letter),
{
    let mut i: usize = 0;
    while i < letters.len()
        invariant
            i <= letters@.len(),
            forall|m: int| 0 <= m < i ==> letters@[m] != letter,
        decreases letters@.len() - i,
    {
        if letters[i] == letter {
            return true;
        }
        i += 1;
    }
    false
}

/// Whether the letter stands at one of the positions.
fn stands_at_any(letters: &Vec<char>, positions: &Vec<usize>, letter: char) -> (found: bool)
    ensures
        found == exists|m: int|
            0 <= m < positions@.len() && letter_at(letters@, #[trigger] positions@[m] as int, letter),
{
    let mut i: usize = 0;
    while i < positions.len()
        invariant
            i <= positions@.len(),
            forall|m: int| 0 <= m < i ==> !letter_at(letters@, #[trigger] positions@[m] as int, letter),
        decreases positions@.len() - i,
    {
        let position: usize = positions[i];
        if position < letters.len() && letters[position] == letter {
            return true;
        }
        i += 1;
    }
    false
}

/// Whether one of the first `k` facts claims `position` for `letter`.
fn is_claimed(facts: &Vec<Fact>, k: usize, letter: char, position: usize) -> (found: bool)
    requires
        k <= facts@.len(),
    ensures
        found == claimed(facts.deep_view(), k as int, letter, position as int),
{
    let ghost view = facts.deep_view();
    let mut m: usize = 0;
    while m < k
        invariant
            m <= k <= facts@.len(),
            view == facts.deep_view(),
            forall|e: int| 0 <= e < m ==> !claims(#[trigger] view[e], letter, position as int),
        decreases k - m,
    {
        let claims_it = match &facts[m] {
            Fact::Right(right) => right.letter_index == position && right.letter == letter,
            Fact::Somewhere(wrong) => wrong.letter_index == position && wrong.letter == letter,
            Fact::Absent(_) => false,
        };
        assert(claims_it == claims(view[m as int], letter, position as int));
        if claims_it {
            return true;
        }
        m += 1;
    }
    false
}

/// Whether every occurrence of `letter` stands at a position that one of
/// the first `k` facts claims for it.
fn occurs_only_claimed(letters: &Vec<char>, facts: &Vec<Fact>, k: usize, letter: char) -> (ok: bool)
    requires
        k <= facts@.len(),
    ensures
        ok == forall|p: int|
            #![trigger letters@[p]]
            0 <= p < letters@.len() && letters@[p] == letter ==> claimed(
                facts.deep_view(),
                k as int,
                letter,
                p,
            ),
{
    let mut p: usize = 0;
    while p < letters.len()
        invariant
            p <= letters@.len(),
            k <= facts@.len(),
            forall|e: int|
                #![trigger letters@[e]]
                0 <= e < p && letters@[e] == letter ==> claimed(
                    facts.deep_view(),
                    k as int,
                    letter,
                    e,
                ),
        decreases letters@.len() - p,
    {
        if letters[p] == letter && !is_claimed(facts, k, letter, p) {
            return false;
        }
        p += 1;
    }
    true
}

/// Whether the letters agree with the fact at `k`.
fn fact_agrees(letters: &Vec<char>, facts: &Vec<Fact>, k: usize) -> (ok: bool)
    requires
        k < facts@.len(),
    ensures
        ok == fact_holds(letters@, facts.deep_view(), k as int),
{
    match &facts[k] {
        Fact::Right(right) => right.letter_index < letters.len() && letters[right.letter_index]
            == right.letter,
        Fact::Somewhere(wrong) => {
            let found = contains_letter(letters, wrong.letter);
            let misplaced = stands_at_any(letters, &wrong.impossible_positions, wrong.letter);
            proof {
                let tried = wrong.impossible_positions@;
                let impossible = tried.map_values(|p: usize| p as int);
                assert(facts.deep_view()[k as int]->impossible == impossible);
                if misplaced {
                    let m = choose|m: int|
                        0 <= m < tried.len() && letter_at(
                            letters@,
                            #[trigger] tried[m] as int,
                            wrong.letter,
                        );
                    assert(letter_at(letters@, impossible[m], wrong.letter));
                } else {
                    assert forall|m: int| 0 <= m < impossible.len() implies !letter_at(
                        letters@,
                        #[trigger] impossible[m],
                        wrong.letter,
                    ) by {
                        assert(impossible[m] == tried[m] as int);
                    }
                }
            }
            found && !misplaced
        },
        Fact::Absent(absent) => occurs_only_claimed(letters, facts, k, absent.letter),
    }
}

/// Whether the word agrees with every fact.
pub fn is_consistent(word: &String, facts: &Vec<Fact>) -> (ok: bool)
    ensures
        ok == consistent(word@, facts.deep_view()),
{
    let letters = letters_of(word);
    let mut k: usize = 0;
    while k < facts.len()
        invariant
            k <= facts@.len(),
            letters@ == word@,
            forall|m: int| 0 <= m < k ==> #[trigger] fact_holds(word@, facts.deep_view(), m),
        decreases facts@.len() - k,
    {
        if !fact_agrees(&letters, facts, k) {
            return false;
        }
        k += 1;
    }
    true
}

/// A filter keeps a sequence whole if all its elements pass.
pub proof fn lemma_filter_keeps_all<T>(s: Seq<T>, pred: spec_fn(T) -> bool)
    requires
        forall|i: int| 0 <= i < s.len() ==> pred(#[trigger] s[i]),
    ensures
        s.filter(pred) == s,
    decreases s.len(),
{
    reveal(Seq::filter);
    if s.len() > 0 {
        lemma_filter_keeps_all(s.drop_last(), pred);
    }
}

/// The words of `words` that agree with every fact, in their order.
pub fn filter_words(words: &Vec<String>, facts: &Vec<Fact>) -> (kept: Vec<String>)
    ensures
        kept.deep_view() == words.deep_view().filter(consistent_with(facts.deep_view())),
        kept@.len() <= words@.len(),
        facts@.len() == 0 ==> kept.deep_view() == words.deep_view(),
{
    let ghost pool = words.deep_view();
    let ghost pred = consistent_with(facts.deep_view());
    let mut kept: Vec<String> = Vec::new();
    let mut i: usize = 0;
    proof {
        reveal(Seq::filter);
    }
    while i < words.len()
        invariant
            i <= words@.len(),
            pool == words.deep_view(),
            pred == consistent_with(facts.deep_view()),
            kept.deep_view() == pool.take(i as int).filter(pred),
        decreases words@.len() - i,
    {
        proof {
            reveal(Seq::filter);
            assert(pool.take(i + 1).drop_last() =~= pool.take(i as int));
        }
        if is_consistent(&words[i], facts) {
            kept.push(words[i].clone());
        }
        i += 1;
    }
    proof {
        assert(pool.take(i as int) =~= pool);
        pool.lemma_filter_len(pred);
        if facts@.len() == 0 {
            lemma_filter_keeps_all(pool, pred);
        }
    }
    kept
}

} // verus!
