//! How a ball turns when it meets a collider.
//!
//! The engine's overlap test says on which side of the collider the ball
//! stands. The rule here is the fixed one of the game: the ball turns round on
//! the axis of that side, and only if it was moving towards the collider.

use vstd::prelude::*;
use crate::direction::Direction;

verus! {

/// The side of a collider on which an overlapping ball stands, as the
/// engine's bounding-box test reports it. `Inside` is an overlap with no
/// side to name.
#[derive(Clone, Copy, Debug, PartialEq, Eq, Structural)]
pub enum Collision {
    Left,
    Right,
    Top,
    Bottom,
    Inside,
}

/// Which way a ball is going along each axis. `x` grows to the right and `y`
/// grows upwards. The speed itself stays with the engine: a bounce neither
/// reads nor changes it.
#[derive(Clone, Copy, Debug, PartialEq, Eq, Structural)]
pub struct Heading {
    pub x: Direction,
    pub y: Direction,
}

/// What one bounce did: on which axes the ball turned round.
#[derive(Clone, Copy, Debug, PartialEq, Eq, Structural)]
pub struct Reflection {
    pub x: bool,
    pub y: bool,
}

impl Collision {
    /// Whether the side lies on the horizontal axis.
    pub open spec fn is_horizontal(self) -> bool {
        self == Collision::Left || self == Collision::Right
    }

    /// Whether the side lies on the vertical axis.
    pub open spec fn is_vertical(self) -> bool {
        self == Collision::Top || self == Collision::Bottom
    }
}

impl Heading {
    /// Whether the ball is moving into a collider that it met on `side`: to
    /// the right when it stands on the collider's left, and so on round.
    pub open spec fn approaches(self, side: Collision) -> bool {
        match side {
            Collision::Left => self.x == Direction::Positive,
            Collision::Right => self.x == Direction::Negative,
            Collision::Top => self.y == Direction::Negative,
            Collision::Bottom => self.y == Direction::Positive,
            Collision::Inside => false,
        }
    }

    /// What a bounce on `side` turns round.
    pub open spec fn reflection(self, side: Collision) -> Reflection {
        Reflection {
            x: side.is_horizontal() && self.approaches(side),
            y: side.is_vertical() && self.approaches(side),
        }
    }

    /// The heading with the axes of `r` turned round.
    pub open spec fn reflected(self, r: Reflection) -> Heading {
        Heading {
            x: if r.x { self.x.reversed() } else { self.x },
            y: if r.y { self.y.reversed() } else { self.y },
        }
    }

    /// The heading after a bounce on `side`.
    pub open spec fn bounced(self, side: Collision) -> Heading {
        self.reflected(self.reflection(side))
    }

    /// A heading from the directions along the two axes.
    pub fn new(x: Direction, y: Direction) -> (h: Heading)
        ensures
            h == (Heading { x, y }),
    {
        Heading { x, y }
    }

    /// Bounces the ball off a collider that it met on `side`, and reports on
    /// which axes it turned round.
    pub fn bounce(&mut self, side: Collision) -> (r: Reflection)
        ensures
            r == old(self).reflection(side),
            *final(self) == old(self).bounced(side),
    {
        let mut reflect_x = false;
        let mut reflect_y = false;
        match side {
            Collision::Left => {
                reflect_x = self.x == Direction::Positive;
            },
            Collision::Right => {
                reflect_x = self.x == Direction::Negative;
            },
            Collision::Top => {
                reflect_y = self.y == Direction::Negative;
            },
            Collision::Bottom => {
                reflect_y = self.y == Direction::Positive;
            },
            Collision::Inside => {},
        }
        if reflect_x {
            self.x = self.x.reverse();
        }
        if reflect_y {
            self.y = self.y.reverse();
        }
        Reflection { x: reflect_x, y: reflect_y }
    }
}

/// A bounce turns the ball round exactly when it was moving into the
/// collider, and then only along the axis of the side that it met: the other
/// axis keeps its direction, and an overlap without a side changes nothing.
pub proof fn lemma_bounce_turns_the_met_axis(h: Heading, side: Collision)
    ensures
        side.is_horizontal() ==> h.bounced(side).y == h.y,
        side.is_vertical() ==> h.bounced(side).x == h.x,
        side == Collision::Inside ==> h.bounced(side) == h,
        h.approaches(side) && side.is_horizontal() ==> h.bounced(side).x == h.x.reversed(),
        h.approaches(side) && side.is_vertical() ==> h.bounced(side).y == h.y.reversed(),
        !h.approaches(side) ==> h.bounced(side) == h,
{
}

/// After a bounce the ball no longer moves into the collider, so a second
/// bounce on the same side changes nothing.
pub proof fn lemma_bounce_leads_away(h: Heading, side: Collision)
    ensures
        !h.bounced(side).approaches(side),
        h.bounced(side).bounced(side) == h.bounced(side),
{
}

/// A bounce never starts or stops the ball along an axis: what stood still
/// stays still, and what moved still moves.
pub proof fn lemma_bounce_keeps_motion(h: Heading, side: Collision)
    ensures
        (h.bounced(side).x == Direction::Still) == (h.x == Direction::Still),
        (h.bounced(side).y == Direction::Still) == (h.y == Direction::Still),
{
}

} // verus!
