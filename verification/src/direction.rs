//! The way something moves along one axis.

use vstd::prelude::*;

verus! {

/// Which way a quantity points along one axis: below zero, above zero, or
/// neither (zero, or a value that does not compare with zero at all).
#[derive(Clone, Copy, Debug, PartialEq, Eq, Structural)]
pub enum Direction {
    Negative,
    Still,
    Positive,
}

/// The pull of one side: one where it holds, else nothing.
pub open spec fn pull(holds: bool) -> int {
    if holds {
        1
    } else {
        0
    }
}

impl Direction {
    /// The direction as a number: -1, 0 or 1.
    pub open spec fn sign(self) -> int {
        match self {
            Direction::Negative => -1,
            Direction::Still => 0,
            Direction::Positive => 1,
        }
    }

    /// The opposite way. What stands still stays still.
    pub open spec fn reversed(self) -> Direction {
        match self {
            Direction::Negative => Direction::Positive,
            Direction::Still => Direction::Still,
            Direction::Positive => Direction::Negative,
        }
    }

    /// The direction of a quantity, from its two comparisons with zero:
    /// what is above zero pulls one way, what is below zero the other, and a
    /// quantity for which both or neither hold stands still.
    pub fn from_signs(below_zero: bool, above_zero: bool) -> (d: Direction)
        ensures
            d.sign() == pull(above_zero) - pull(below_zero),
    {
        if above_zero && !below_zero {
            Direction::Positive
        } else if below_zero && !above_zero {
            Direction::Negative
        } else {
            Direction::Still
        }
    }

    /// The direction as a number: -1, 0 or 1.
    pub fn signum(self) -> (s: i8)
        ensures
            s == self.sign(),
    {
        match self {
            Direction::Negative => -1,
            Direction::Still => 0,
            Direction::Positive => 1,
        }
    }

    /// Turns the direction round.
    pub fn reverse(self) -> (d: Direction)
        ensures
            d == self.reversed(),
    {
        match self {
            Direction::Negative => Direction::Positive,
            Direction::Still => Direction::Still,
            Direction::Positive => Direction::Negative,
        }
    }
}

/// Turning round changes the sign and nothing else: turning round twice
/// leads back, and a direction is known by its sign.
pub proof fn lemma_reversed_negates(d: Direction, e: Direction)
    ensures
        d.reversed().sign() == -d.sign(),
        d.reversed().reversed() == d,
        d.sign() == e.sign() ==> d == e,
{
}

} // verus!
