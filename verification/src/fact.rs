//! What one guess tells about the hidden word, letter by letter.

use vstd::prelude::*;

verus! {

/// The letter occurs in the hidden word, but not where it was tried.
#[derive(Debug, Clone, PartialEq, Eq)]
pub struct WrongPosition {
    /// Every position at which the letter is known not to rest.
    pub impossible_positions: Vec<usize>,
    /// The position of the letter in the guess.
    pub letter_index: usize,
    pub letter: char,
}

/// The letter occurs in the hidden word at exactly this position.
#[derive(Debug, Clone, PartialEq, Eq)]
pub struct RightPosition {
    pub letter_index: usize,
    pub letter: char,
}

/// The hidden word has no occurrence of the letter left.
#[derive(Debug, Clone, PartialEq, Eq)]
pub struct AbsentPosition {
    pub letter: char,
    pub letter_index: usize,
}

/// One letter of a guess, judged against the hidden word.
#[derive(Debug, Clone, PartialEq, Eq)]
pub enum Fact {
    Absent(AbsentPosition),
    Somewhere(WrongPosition),
    Right(RightPosition),
}

/// The mathematical content of a [`Fact`].
pub enum FactView {
    Absent { position: int, letter: char },
    Somewhere { position: int, letter: char, impossible: Seq<int> },
    Right { position: int, letter: char },
}

impl View for Fact {
    type V = FactView;

    open spec fn view(&self) -> FactView {
        match *self {
            Fact::Absent(a) => FactView::Absent { position: a.letter_index as int, letter: a.letter },
            Fact::Somewhere(w) => FactView::Somewhere {
                position: w.letter_index as int,
                letter: w.letter,
                impossible: w.impossible_positions@.map_values(|p: usize| p as int),
            },
            Fact::Right(r) => FactView::Right { position: r.letter_index as int, letter: r.letter },
        }
    }
}

impl DeepView for Fact {
    type V = FactView;

    open spec fn deep_view(&self) -> FactView {
        self@
    }
}

} // verus!
