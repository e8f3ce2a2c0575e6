//! Feedback on a guess: which of its letters are in place, which occur
//! elsewhere in the hidden word, and which the hidden word has no more of.
//!
//! A letter of the guess that equals the hidden word's letter at the same
//! position is in place. Each remaining letter of the guess is matched, from
//! left to right, with a remaining occurrence of the same letter in the hidden
//! word, as long as there is one; so no letter of the hidden word is counted
//! twice.

use vstd::prelude::*;
use crate::counting::{
    collect_below, count_below, count_in, lemma_collect_holds, lemma_collect_len,
    lemma_collect_source, lemma_count_agree, lemma_count_in_collect, lemma_count_in_concat,
    lemma_count_none, lemma_count_partition, lemma_count_split, lemma_count_strict,
    lemma_count_switch_on, lemma_count_tail,
};
use crate::fact::{AbsentPosition, Fact, FactView, RightPosition, WrongPosition};

verus! {

/// The guess holds at `i` the letter that the target holds there.
pub open spec fn is_right(target: Seq<char>, guess: Seq<char>, i: int) -> bool {
    0 <= i < guess.len() && i < target.len() && guess[i] == target[i]
}

/// `is_right` as a predicate on positions.
pub open spec fn right_at(target: Seq<char>, guess: Seq<char>) -> spec_fn(int) -> bool {
    |i: int| is_right(target, guess, i)
}

/// The target holds `letter` at `j`, and the guess does not match it there.
pub open spec fn spare_at(target: Seq<char>, guess: Seq<char>, letter: char) -> spec_fn(
    int,
) -> bool {
    |j: int| target[j] == letter && !is_right(target, guess, j)
}

/// The guess holds `letter` at `k`, and the target does not match it there.
pub open spec fn loose_at(target: Seq<char>, guess: Seq<char>, letter: char) -> spec_fn(
    int,
) -> bool {
    |k: int| guess[k] == letter && !is_right(target, guess, k)
}

/// How many occurrences of `letter` the target has outside the positions
/// where the guess is right.
pub open spec fn spare(target: Seq<char>, guess: Seq<char>, letter: char) -> nat {
    count_below(target.len() as int, spare_at(target, guess, letter))
}

/// How many occurrences of `letter` the guess has before position `i`
/// outside the positions where it is right.
pub open spec fn loose_before(target: Seq<char>, guess: Seq<char>, letter: char, i: int) -> nat {
    count_below(i, loose_at(target, guess, letter))
}

/// The letter at `i` is not in place, and the target has more spare
/// occurrences of it than the guess has tried before `i`.
pub open spec fn is_somewhere(target: Seq<char>, guess: Seq<char>, i: int) -> bool {
    &&& 0 <= i < guess.len()
    &&& !is_right(target, guess, i)
    &&& loose_before(target, guess, guess[i], i) < spare(target, guess, guess[i])
}

/// `is_somewhere` as a predicate on positions.
pub open spec fn somewhere_at(target: Seq<char>, guess: Seq<char>) -> spec_fn(int) -> bool {
    |i: int| is_somewhere(target, guess, i)
}

/// The letter at `i` is neither in place nor matched elsewhere.
pub open spec fn is_absent(target: Seq<char>, guess: Seq<char>, i: int) -> bool {
    &&& 0 <= i < guess.len()
    &&& !is_right(target, guess, i)
    &&& !is_somewhere(target, guess, i)
}

/// `is_absent` as a predicate on positions.
pub open spec fn absent_at(target: Seq<char>, guess: Seq<char>) -> spec_fn(int) -> bool {
    |i: int| is_absent(target, guess, i)
}

/// The fact that reports the letter at `i` as in place.
pub open spec fn right_fact(guess: Seq<char>) -> spec_fn(int) -> FactView {
    |i: int| FactView::Right { position: i, letter: guess[i] }
}

/// The fact that reports the letter at `i` as occurring elsewhere. The one
/// position known to be impossible is `i` itself.
pub open spec fn somewhere_fact(guess: Seq<char>) -> spec_fn(int) -> FactView {
    |i: int| FactView::Somewhere { position: i, letter: guess[i], impossible: seq![i] }
}

/// The fact that reports the letter at `i` as absent.
pub open spec fn absent_fact(guess: Seq<char>) -> spec_fn(int) -> FactView {
    |i: int| FactView::Absent { position: i, letter: guess[i] }
}

/// The facts for the letters in place among the first `n` of the guess.
pub open spec fn right_facts(target: Seq<char>, guess: Seq<char>, n: int) -> Seq<FactView> {
    collect_below(n, right_at(target, guess), right_fact(guess))
}

/// The facts for the letters found elsewhere among the first `n` of the
/// guess.
pub open spec fn somewhere_facts(target: Seq<char>, guess: Seq<char>, n: int) -> Seq<FactView> {
    collect_below(n, somewhere_at(target, guess), somewhere_fact(guess))
}

/// The facts for the absent letters among the first `n` of the guess.
pub open spec fn absent_facts(target: Seq<char>, guess: Seq<char>, n: int) -> Seq<FactView> {
    collect_below(n, absent_at(target, guess), absent_fact(guess))
}

/// The feedback on `guess` against `target`: one fact for each letter of the
/// guess; first the letters in place, then those found elsewhere, then the
/// absent ones, each group from left to right.
pub open spec fn feedback(target: Seq<char>, guess: Seq<char>) -> Seq<FactView> {
    right_facts(target, guess, guess.len() as int) + somewhere_facts(
        target,
        guess,
        guess.len() as int,
    ) + absent_facts(target, guess, guess.len() as int)
}

/// The fact for the letter at `i` of the guess.
pub open spec fn fact_for(target: Seq<char>, guess: Seq<char>, i: int) -> FactView {
    if is_right(target, guess, i) {
        right_fact(guess)(i)
    } else if is_somewhere(target, guess, i) {
        somewhere_fact(guess)(i)
    } else {
        absent_fact(guess)(i)
    }
}

/// How many letters of the guess are in place.
pub open spec fn right_count(target: Seq<char>, guess: Seq<char>) -> nat {
    count_below(guess.len() as int, right_at(target, guess))
}

/// How many letters of the guess are found elsewhere.
pub open spec fn somewhere_count(target: Seq<char>, guess: Seq<char>) -> nat {
    count_below(guess.len() as int, somewhere_at(target, guess))
}

/// The smaller of two numbers.
pub open spec fn least(a: nat, b: nat) -> nat {
    if a <= b {
        a
    } else {
        b
    }
}

/// The fact says that the hidden word holds `letter`: it reports that letter
/// as in place or as found elsewhere.
pub open spec fn places(letter: char) -> spec_fn(FactView) -> bool {
    |fact: FactView|
        match fact {
            FactView::Right { letter: l, .. } => l == letter,
            FactView::Somewhere { letter: l, .. } => l == letter,
            FactView::Absent { .. } => false,
        }
}

/// How many of the facts say that the hidden word holds `letter`.
pub open spec fn placed(facts: Seq<FactView>, letter: char) -> nat {
    count_in(facts, places(letter))
}

/// The word holds `letter` at `j`.
pub open spec fn holds_at(word: Seq<char>, letter: char) -> spec_fn(int) -> bool {
    |j: int| word[j] == letter
}

/// How often `letter` occurs in the word.
pub open spec fn occurrences(word: Seq<char>, letter: char) -> nat {
    count_below(word.len() as int, holds_at(word, letter))
}

/// The guess holds `letter` at `k`, in place.
pub open spec fn right_with(target: Seq<char>, guess: Seq<char>, letter: char) -> spec_fn(
    int,
) -> bool {
    |k: int| is_right(target, guess, k) && guess[k] == letter
}

/// The guess holds `letter` at `k`, found elsewhere.
pub open spec fn somewhere_with(target: Seq<char>, guess: Seq<char>, letter: char) -> spec_fn(
    int,
) -> bool {
    |k: int| is_somewhere(target, guess, k) && guess[k] == letter
}

/// Feedback has one fact for each letter of the guess.
pub proof fn lemma_feedback_len(target: Seq<char>, guess: Seq<char>)
    ensures
        feedback(target, guess).len() == guess.len(),
{
    let n = guess.len() as int;
    lemma_collect_len(n, right_at(target, guess), right_fact(guess));
    lemma_collect_len(n, somewhere_at(target, guess), somewhere_fact(guess));
    lemma_collect_len(n, absent_at(target, guess), absent_fact(guess));
    lemma_count_partition(
        n,
        right_at(target, guess),
        somewhere_at(target, guess),
        absent_at(target, guess),
    );
}

/// Every fact of a feedback is the fact for one position of the guess.
/// The facts for the letters in place come first, then those for the
/// letters found elsewhere, then those for the absent letters.
pub proof fn lemma_fact_position(target: Seq<char>, guess: Seq<char>, k: int) -> (p: int)
    requires
        0 <= k < feedback(target, guess).len(),
    ensures
        0 <= p < guess.len(),
        feedback(target, guess)[k] == fact_for(target, guess, p),
        is_right(target, guess, p) <==> k < right_count(target, guess),
        is_absent(target, guess, p) <==> right_count(target, guess) + somewhere_count(
            target,
            guess,
        ) <= k,
{
    let n = guess.len() as int;
    lemma_collect_len(n, right_at(target, guess), right_fact(guess));
    lemma_collect_len(n, somewhere_at(target, guess), somewhere_fact(guess));
    let rights = right_count(target, guess);
    let somewheres = somewhere_count(target, guess);
    if k < rights {
        lemma_collect_source(n, right_at(target, guess), right_fact(guess), k)
    } else if k < rights + somewheres {
        lemma_collect_source(n, somewhere_at(target, guess), somewhere_fact(guess), k - rights)
    } else {
        lemma_collect_source(n, absent_at(target, guess), absent_fact(guess), k - rights - somewheres)
    }
}

/// Every position of the guess has its fact in the feedback: among the
/// first if its letter is in place, among the last if it is absent, and
/// between these if it is found elsewhere.
pub proof fn lemma_position_fact(target: Seq<char>, guess: Seq<char>, p: int) -> (k: int)
    requires
        0 <= p < guess.len(),
    ensures
        0 <= k < feedback(target, guess).len(),
        feedback(target, guess)[k] == fact_for(target, guess, p),
        is_right(target, guess, p) <==> k < right_count(target, guess),
        is_absent(target, guess, p) <==> right_count(target, guess) + somewhere_count(
            target,
            guess,
        ) <= k,
{
    let n = guess.len() as int;
    lemma_collect_len(n, right_at(target, guess), right_fact(guess));
    lemma_collect_len(n, somewhere_at(target, guess), somewhere_fact(guess));
    let rights = right_count(target, guess);
    let somewheres = somewhere_count(target, guess);
    if is_right(target, guess, p) {
        lemma_collect_holds(n, right_at(target, guess), right_fact(guess), p)
    } else if is_somewhere(target, guess, p) {
        rights + lemma_collect_holds(n, somewhere_at(target, guess), somewhere_fact(guess), p)
    } else {
        rights + somewheres + lemma_collect_holds(
            n,
            absent_at(target, guess),
            absent_fact(guess),
            p,
        )
    }
}

/// Among the first `n` letters of the guess, as many occurrences of
/// `letter` are found elsewhere as the guess has loose ones, up to the
/// number of spare ones in the target.
pub proof fn lemma_somewhere_count(target: Seq<char>, guess: Seq<char>, letter: char, n: int)
    requires
        0 <= n <= guess.len(),
    ensures
        count_below(n, somewhere_with(target, guess, letter)) == least(
            loose_before(target, guess, letter, n),
            spare(target, guess, letter),
        ),
    decreases n,
{
    if n > 0 {
        lemma_somewhere_count(target, guess, letter, n - 1);
    }
}

/// The letters in place are the same occurrences in the guess and in the
/// target.
proof fn lemma_right_count(target: Seq<char>, guess: Seq<char>, letter: char)
    ensures
        count_below(guess.len() as int, right_with(target, guess, letter)) + spare(
            target,
            guess,
            letter,
        ) == occurrences(target, letter),
{
    let glen = guess.len() as int;
    let tlen = target.len() as int;
    let shorter = if glen <= tlen {
        glen
    } else {
        tlen
    };
    let rw = right_with(target, guess, letter);
    lemma_count_tail(shorter, glen, rw);
    lemma_count_tail(shorter, tlen, rw);
    let held = holds_at(target, letter);
    let right = right_at(target, guess);
    lemma_count_split(tlen, held, right);
    lemma_count_agree(tlen, |k: int| held(k) && right(k), rw);
    lemma_count_agree(tlen, |k: int| held(k) && !right(k), spare_at(target, guess, letter));
}

/// Feedback never says more often that the hidden word holds a letter than
/// the hidden word holds it.
pub proof fn lemma_feedback_conserves_letters(target: Seq<char>, guess: Seq<char>, letter: char)
    ensures
        placed(feedback(target, guess), letter) <= occurrences(target, letter),
{
    let n = guess.len() as int;
    let r = places(letter);
    let rights = right_facts(target, guess, n);
    let somewheres = somewhere_facts(target, guess, n);
    let absents = absent_facts(target, guess, n);
    lemma_count_in_concat(rights + somewheres, absents, r);
    lemma_count_in_concat(rights, somewheres, r);

    let p_right = right_at(target, guess);
    let f_right = right_fact(guess);
    lemma_count_in_collect(n, p_right, f_right, r);
    lemma_count_agree(
        n,
        |k: int| p_right(k) && r(f_right(k)),
        right_with(target, guess, letter),
    );

    let p_some = somewhere_at(target, guess);
    let f_some = somewhere_fact(guess);
    lemma_count_in_collect(n, p_some, f_some, r);
    lemma_count_agree(
        n,
        |k: int| p_some(k) && r(f_some(k)),
        somewhere_with(target, guess, letter),
    );

    let p_absent = absent_at(target, guess);
    let f_absent = absent_fact(guess);
    lemma_count_in_collect(n, p_absent, f_absent, r);
    lemma_count_none(n, |k: int| p_absent(k) && r(f_absent(k)));

    lemma_somewhere_count(target, guess, letter, n);
    lemma_right_count(target, guess, letter);
}

/// The letters of a word, one by one.
pub fn letters_of(word: &String) -> (letters: Vec<char>)
    ensures
        letters@ == word@,
{
    let text = word.as_str();
    let n: usize = text.unicode_len();
    let mut letters: Vec<char> = Vec::new();
    let mut i: usize = 0;
    while i < n
        invariant
            i <= n,
            n == text@.len(),
            letters@ == text@.take(i as int),
        decreases n - i,
    {
        letters.push(text.get_char(i));
        i += 1;
    }
    letters
}

/// A vector of `n` flags, none of them set.
fn cleared_flags(n: usize) -> (flags: Vec<bool>)
    ensures
        flags@.len() == n,
        forall|k: int| 0 <= k < n ==> !flags@[k],
{
    let mut flags: Vec<bool> = Vec::new();
    let mut i: usize = 0;
    while i < n
        invariant
            i <= n,
            flags@.len() == i,
            forall|k: int| 0 <= k < i ==> !flags@[k],
        decreases n - i,
    {
        flags.push(false);
        i += 1;
    }
    flags
}

/// The first position of `target` that holds `letter` and is not yet used.
fn first_unused(target: &Vec<char>, used: &Vec<bool>, letter: char) -> (found: Option<usize>)
    requires
        used@.len() == target@.len(),
    ensures
        match found {
            Some(j) => {
                &&& j < target@.len()
                &&& !used@[j as int]
                &&& target@[j as int] == letter
                &&& forall|m: int| 0 <= m < j ==> used@[m] || target@[m] != letter
            },
            None => forall|m: int| 0 <= m < target@.len() ==> used@[m] || target@[m] != letter,
        },
{
    let mut j: usize = 0;
    while j < target.len()
        invariant
            j <= target@.len(),
            used@.len() == target@.len(),
            forall|m: int| 0 <= m < j ==> used@[m] || target@[m] != letter,
        decreases target@.len() - j,
    {
        if !used[j] && target[j] == letter {
            return Some(j);
        }
        j += 1;
    }
    None
}

/// The feedback on `guess` against `target`, both given letter by letter.
pub fn compare_letters(target: &Vec<char>, guess: &Vec<char>) -> (facts: Vec<Fact>)
    ensures
        facts.deep_view() == feedback(target@, guess@),
{
    let ghost t = target@;
    let ghost g = guess@;
    let tlen: usize = target.len();
    let glen: usize = guess.len();
    let mut facts: Vec<Fact> = Vec::new();
    let mut guess_used = cleared_flags(glen);
    let mut target_used = cleared_flags(tlen);

    // The letters in place: each takes the target's letter at its position.
    let mut i: usize = 0;
    while i < glen
        invariant
            i <= glen,
            glen == g.len(),
            tlen == t.len(),
            g == guess@,
            t == target@,
            guess_used@.len() == glen,
            target_used@.len() == tlen,
            forall|k: int| 0 <= k < glen ==> guess_used@[k] == (k < i && is_right(t, g, k)),
            forall|j: int| 0 <= j < tlen ==> target_used@[j] == (j < i && is_right(t, g, j)),
            facts.deep_view() == right_facts(t, g, i as int),
        decreases glen - i,
    {
        if i < tlen && guess[i] == target[i] {
            let ghost before = facts@;
            guess_used.set(i, true);
            target_used.set(i, true);
            let fact = Fact::Right(RightPosition { letter_index: i, letter: guess[i] });
            facts.push(fact);
            proof {
                lemma_deep_view_push(before, fact);
            }
        }
        i += 1;
    }

    // The letters found elsewhere: each takes the first occurrence of its
    // letter in the target that no letter has taken yet.
    let ghost rights = facts.deep_view();
    i = 0;
    proof {
        assert forall|letter: char| #[trigger]
            taken(target_used@, t, g, letter) == least(
                loose_before(t, g, letter, 0),
                spare(t, g, letter),
            ) by {
            lemma_count_none(tlen as int, taken_at(target_used@, t, g, letter));
        }
    }
    while i < glen
        invariant
            i <= glen,
            glen == g.len(),
            tlen == t.len(),
            g == guess@,
            t == target@,
            guess_used@.len() == glen,
            target_used@.len() == tlen,
            rights == right_facts(t, g, glen as int),
            forall|k: int|
                0 <= k < glen ==> guess_used@[k] == (is_right(t, g, k) || (k < i && is_somewhere(
                    t,
                    g,
                    k,
                ))),
            forall|j: int| 0 <= j < tlen && is_right(t, g, j) ==> target_used@[j],
            forall|letter: char| #[trigger]
                taken(target_used@, t, g, letter) == least(
                    loose_before(t, g, letter, i as int),
                    spare(t, g, letter),
                ),
            facts.deep_view() == rights + somewhere_facts(t, g, i as int),
        decreases glen - i,
    {
        if !guess_used[i] {
            let letter = guess[i];
            let ghost used_before = target_used@;
            match first_unused(target, &target_used, letter) {
                Some(j) => {
                    let ghost before = facts@;
                    target_used.set(j, true);
                    guess_used.set(i, true);
                    let mut impossible_positions: Vec<usize> = Vec::new();
                    impossible_positions.push(i);
                    let fact = Fact::Somewhere(
                        WrongPosition { impossible_positions, letter_index: i, letter },
                    );
                    proof {
                        lemma_take_spare(used_before, target_used@, t, g, letter, j as int);
                        assert forall|other: char| #[trigger]
                            taken(target_used@, t, g, other) == least(
                                loose_before(t, g, other, i + 1),
                                spare(t, g, other),
                            ) by {
                            if other != letter {
                                lemma_take_other(
                                    used_before,
                                    target_used@,
                                    t,
                                    g,
                                    letter,
                                    other,
                                    j as int,
                                );
                            }
                        }
                        assert(fact@->impossible =~= seq![i as int]);
                    }
                    facts.push(fact);
                    proof {
                        lemma_deep_view_push(before, fact);
                    }
                },
                None => {
                    proof {
                        lemma_none_spare(target_used@, t, g, letter);
                    }
                },
            }
        }
        i += 1;
    }

    // The letters that found no occurrence to take.
    let ghost found = facts.deep_view();
    i = 0;
    while i < glen
        invariant
            i <= glen,
            glen == g.len(),
            g == guess@,
            guess_used@.len() == glen,
            forall|k: int|
                0 <= k < glen ==> guess_used@[k] == (is_right(t, g, k) || is_somewhere(t, g, k)),
            found == right_facts(t, g, glen as int) + somewhere_facts(t, g, glen as int),
            facts.deep_view() == found + absent_facts(t, g, i as int),
        decreases glen - i,
    {
        if !guess_used[i] {
            let ghost before = facts@;
            let fact = Fact::Absent(AbsentPosition { letter: guess[i], letter_index: i });
            facts.push(fact);
            proof {
                lemma_deep_view_push(before, fact);
            }
        }
        i += 1;
    }
    facts
}

/// The feedback on `guess` against `target`.
pub fn compare(target: &String, guess: &String) -> (facts: Vec<Fact>)
    ensures
        facts.deep_view() == feedback(target@, guess@),
        facts@.len() == guess@.len(),
        forall|letter: char| #[trigger]
            placed(facts.deep_view(), letter) <= occurrences(target@, letter),
{
    let target_letters = letters_of(target);
    let guess_letters = letters_of(guess);
    let facts = compare_letters(&target_letters, &guess_letters);
    proof {
        lemma_feedback_len(target@, guess@);
        assert forall|letter: char| #[trigger]
            placed(facts.deep_view(), letter) <= occurrences(target@, letter) by {
            lemma_feedback_conserves_letters(target@, guess@, letter);
        }
    }
    facts
}

/// Walks a list of words and gives, for each in turn, the feedback that one
/// guess would get if that word were the hidden one.
pub struct WordleResultsIterator<'a, 'b> {
    index: usize,
    possible_words: &'a Vec<String>,
    guess: &'b String,
}

/// What is left of a walk: the words not yet compared, and the guess.
pub struct ResultsView {
    pub remaining: Seq<Seq<char>>,
    pub guess: Seq<char>,
}

impl<'a, 'b> View for WordleResultsIterator<'a, 'b> {
    type V = ResultsView;

    closed spec fn view(&self) -> ResultsView {
        let words = self.possible_words.deep_view();
        ResultsView {
            remaining: if self.index <= words.len() {
                words.skip(self.index as int)
            } else {
                Seq::empty()
            },
            guess: self.guess@,
        }
    }
}

impl<'a, 'b> WordleResultsIterator<'a, 'b> {
    /// The feedback against the next word, or `None` when every word has
    /// been compared.
    pub fn next(&mut self) -> (facts: Option<Vec<Fact>>)
        ensures
            final(self)@.guess == old(self)@.guess,
            old(self)@.remaining.len() == 0 ==> facts is None && final(self)@ == old(self)@,
            old(self)@.remaining.len() > 0 ==> facts is Some && facts->0.deep_view() == feedback(
                old(self)@.remaining[0],
                old(self)@.guess,
            ) && final(self)@.remaining == old(self)@.remaining.drop_first(),
    {
        if self.index >= self.possible_words.len() {
            return None;
        }
        let facts = compare(&self.possible_words[self.index], self.guess);
        self.index += 1;
        Some(facts)
    }
}

/// Starts a walk over `words` that compares `guess` with each of them.
pub fn generate_results_for_guess<'a, 'b>(words: &'a Vec<String>, guess: &'b String) -> (results:
    WordleResultsIterator<'a, 'b>)
    ensures
        results@.remaining == words.deep_view(),
        results@.guess == guess@,
{
    WordleResultsIterator { index: 0, possible_words: words, guess }
}

/// The target position `j` holds `letter`, was not matched in place, and
/// has been handed to a letter of the guess.
spec fn taken_at(used: Seq<bool>, target: Seq<char>, guess: Seq<char>, letter: char)
    -> spec_fn(int) -> bool {
    |j: int| used[j] && target[j] == letter && !is_right(target, guess, j)
}

/// How many spare occurrences of `letter` in the target have been handed to
/// letters of the guess.
spec fn taken(used: Seq<bool>, target: Seq<char>, guess: Seq<char>, letter: char) -> nat {
    count_below(target.len() as int, taken_at(used, target, guess, letter))
}

/// The view of a list of facts after one more is pushed.
proof fn lemma_deep_view_push(facts: Seq<Fact>, fact: Fact)
    ensures
        Seq::new(facts.push(fact).len(), |k: int| facts.push(fact)[k].deep_view()) == Seq::new(
            facts.len(),
            |k: int| facts[k].deep_view(),
        ).push(fact@),
{
}

/// Handing the unused spare occurrence at `j` to a letter of the guess
/// raises the number of taken occurrences of that letter by one, and shows
/// that not all of them were taken before.
proof fn lemma_take_spare(
    before: Seq<bool>,
    after: Seq<bool>,
    target: Seq<char>,
    guess: Seq<char>,
    letter: char,
    j: int,
)
    requires
        before.len() == target.len(),
        after == before.update(j, true),
        0 <= j < target.len(),
        !before[j],
        target[j] == letter,
        forall|m: int| 0 <= m < target.len() && is_right(target, guess, m) ==> before[m],
    ensures
        taken(after, target, guess, letter) == taken(before, target, guess, letter) + 1,
        taken(before, target, guess, letter) < spare(target, guess, letter),
{
    let n = target.len() as int;
    lemma_count_switch_on(
        n,
        taken_at(before, target, guess, letter),
        taken_at(after, target, guess, letter),
        j,
    );
    lemma_count_strict(
        n,
        taken_at(before, target, guess, letter),
        spare_at(target, guess, letter),
        j,
    );
}

/// Handing an occurrence of one letter out leaves the taken occurrences of
/// every other letter as they were.
proof fn lemma_take_other(
    before: Seq<bool>,
    after: Seq<bool>,
    target: Seq<char>,
    guess: Seq<char>,
    letter: char,
    other: char,
    j: int,
)
    requires
        before.len() == target.len(),
        after == before.update(j, true),
        0 <= j < target.len(),
        target[j] == letter,
        other != letter,
    ensures
        taken(after, target, guess, other) == taken(before, target, guess, other),
{
    lemma_count_agree(
        target.len() as int,
        taken_at(before, target, guess, other),
        taken_at(after, target, guess, other),
    );
}

/// Where no occurrence of a letter is left unused, all its spare
/// occurrences are taken.
proof fn lemma_none_spare(used: Seq<bool>, target: Seq<char>, guess: Seq<char>, letter: char)
    requires
        used.len() == target.len(),
        forall|m: int| 0 <= m < target.len() ==> used[m] || target[m] != letter,
    ensures
        taken(used, target, guess, letter) == spare(target, guess, letter),
{
    lemma_count_agree(
        target.len() as int,
        taken_at(used, target, guess, letter),
        spare_at(target, guess, letter),
    );
}

} // verus!
