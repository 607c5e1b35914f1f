//! Digits: the contents of one cell of a puzzle.

use std::borrow::Cow;
use vstd::prelude::*;

verus! {

/// The mathematical value of a digit: either a placed numeral or the list of
/// numerals that are still considered possible.
pub enum Cell {
    Known(u32),
    Unknown(Seq<u32>),
}

impl Cell {
    /// The cell holds numerals from one to nine only: as its value if it is
    /// known, as its candidates otherwise.
    pub open spec fn in_range(self) -> bool {
        match self {
            Cell::Known(value) => 1 <= value <= 9,
            Cell::Unknown(candidates) => forall|i: int|
                0 <= i < candidates.len() ==> 1 <= #[trigger] candidates[i] <= 9,
        }
    }

    /// The cell is undetermined and `value` is one of its candidates.
    pub open spec fn has_candidate(self, value: u32) -> bool {
        match self {
            Cell::Known(_) => false,
            Cell::Unknown(candidates) => candidates.contains(value),
        }
    }
}

/// An undetermined cell together with its candidate numerals.
#[derive(Debug, PartialEq, Eq, PartialOrd, Ord)]
pub struct UnknownDigit {
    pub possible_values: Vec<u32>,
}

/// One cell of a puzzle.
#[derive(Debug, PartialEq, Eq, PartialOrd, Ord)]
pub enum Digit {
    Known(u32),
    Unknown(UnknownDigit),
}

impl View for Digit {
    type V = Cell;

    open spec fn view(&self) -> Cell {
        match *self {
            Digit::Known(value) => Cell::Known(value),
            Digit::Unknown(unknown) => Cell::Unknown(unknown.possible_values@),
        }
    }
}

impl UnknownDigit {
    /// An undetermined cell with the given candidates.
    pub fn new(possible_values: Vec<u32>) -> (result: Self)
        ensures
            result.possible_values == possible_values,
    {
        Self { possible_values }
    }
}

impl Clone for UnknownDigit {
    fn clone(&self) -> (result: Self)
        ensures
            result.possible_values@ == self.possible_values@,
    {
        Self { possible_values: self.possible_values.clone() }
    }
}

impl Clone for Digit {
    fn clone(&self) -> (result: Self)
        ensures
            result@ == self@,
    {
        match self {
            Digit::Known(value) => Digit::Known(*value),
            Digit::Unknown(unknown) => Digit::Unknown(unknown.clone()),
        }
    }
}

impl Default for UnknownDigit {
    fn default() -> (result: Self)
        ensures
            result.possible_values@ == Seq::<u32>::empty(),
    {
        Self::new(Vec::new())
    }
}

impl Default for Digit {
    fn default() -> (result: Self)
        ensures
            result@ == Cell::Unknown(Seq::empty()),
    {
        Digit::Unknown(UnknownDigit::default())
    }
}

impl Digit {
    /// The digit that a numeral of the textual form stands for: zero is an
    /// undetermined cell without candidates, anything else a known value.
    pub open spec fn of_numeral(numeral: u32) -> Cell {
        if numeral == 0 {
            Cell::Unknown(Seq::empty())
        } else {
            Cell::Known(numeral)
        }
    }
}

impl From<u32> for Digit {
    fn from(digit: u32) -> (result: Self)
        ensures
            result@ == Digit::of_numeral(digit),
    {
        if digit == 0 {
            Digit::Unknown(UnknownDigit { possible_values: Vec::new() })
        } else {
            Digit::Known(digit)
        }
    }
}

/// The conversion is stated by the `ensures` of `from`, over views: a fresh
/// vector is only determined up to its contents, so no equation between
/// digits is claimed.
impl vstd::std_specs::convert::FromSpecImpl<u32> for Digit {
    open spec fn obeys_from_spec() -> bool {
        false
    }

    open spec fn from_spec(digit: u32) -> Self {
        choose|result: Digit| result@ == Digit::of_numeral(digit)
    }
}

/// A digit together with the coordinates of the cell it belongs to. The
/// digit is either borrowed from a grid or owned.
#[derive(Debug, PartialEq, Eq, PartialOrd, Ord)]
pub struct LocalizedDigit<'a> {
    pub digit: Cow<'a, Digit>,
    pub x: usize,
    pub y: usize,
}

/// The mathematical value of a localized digit.
pub struct LocalizedCell {
    pub cell: Cell,
    pub x: int,
    pub y: int,
}

impl<'a> View for LocalizedDigit<'a> {
    type V = LocalizedCell;

    open spec fn view(&self) -> LocalizedCell {
        LocalizedCell { cell: self.digit@, x: self.x as int, y: self.y as int }
    }
}

impl<'a> LocalizedDigit<'a> {
    /// Attaches the coordinates `(x, y)` to `digit`.
    pub fn new(digit: Cow<'a, Digit>, x: usize, y: usize) -> (result: Self)
        ensures
            result == (LocalizedDigit { digit, x, y }),
    {
        Self { digit, x, y }
    }

    /// Attaches the coordinates `(x, y)` to a digit that the caller gives away.
    pub fn from_owned(digit: Digit, x: usize, y: usize) -> (result: Self)
        ensures
            result == (LocalizedDigit { digit: Cow::Owned(digit), x, y }),
    {
        let digit = Cow::Owned(digit);
        Self::new(digit, x, y)
    }

    /// Attaches the coordinates `(x, y)` to a digit that the caller keeps.
    pub fn from_borrowed(digit: &'a Digit, x: usize, y: usize) -> (result: Self)
        ensures
            result == (LocalizedDigit { digit: Cow::Borrowed(digit), x, y }),
    {
        let digit = Cow::Borrowed(digit);
        Self::new(digit, x, y)
    }

    /// Splits the value into the digit and its coordinates. A borrowed digit
    /// is copied, an owned one handed over.
    pub fn into_owned_tuple(self) -> (result: (Digit, usize, usize))
        ensures
            result.0@ == self.digit@,
            result.1 == self.x,
            result.2 == self.y,
            self.digit matches Cow::Owned(digit) ==> result.0 == digit,
    {
        let digit = match self.digit {
            Cow::Borrowed(digit) => digit.clone(),
            Cow::Owned(digit) => digit,
        };
        (digit, self.x, self.y)
    }

    /// The digit, whether it is borrowed or owned.
    pub fn get_digit(&self) -> (digit: &Digit)
        ensures
            digit@ == self.digit@,
            *digit == match self.digit {
                Cow::Borrowed(borrowed) => *borrowed,
                Cow::Owned(owned) => owned,
            },
    {
        match &self.digit {
            Cow::Borrowed(digit) => digit,
            Cow::Owned(digit) => digit,
        }
    }
}

impl<'a> Clone for LocalizedDigit<'a> {
    fn clone(&self) -> (result: Self)
        ensures
            result@ == self@,
    {
        let digit = match &self.digit {
            Cow::Borrowed(digit) => Cow::Borrowed(*digit),
            Cow::Owned(digit) => Cow::Owned(digit.clone()),
        };
        Self { digit, x: self.x, y: self.y }
    }
}

} // verus!
