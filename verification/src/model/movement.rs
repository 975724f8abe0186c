use vstd::prelude::*;

use crate::common::point::Point;

verus! {

/// A step of one cell in one of four directions.
#[derive(Clone, Copy, Debug, Hash, PartialEq, Eq, Structural)]
pub enum Movement {
    Left,
    Down,
    Up,
    Right,
}

/// The step of `m` as `(dx, dy)`; `y` grows downwards.
pub open spec fn spec_offset(m: Movement) -> (int, int) {
    match m {
        Movement::Left => (-1, 0),
        Movement::Down => (0, 1),
        Movement::Up => (0, -1),
        Movement::Right => (1, 0),
    }
}

pub open spec fn spec_opposite(m: Movement) -> Movement {
    match m {
        Movement::Left => Movement::Right,
        Movement::Down => Movement::Up,
        Movement::Up => Movement::Down,
        Movement::Right => Movement::Left,
    }
}

/// One movement is horizontal and the other vertical.
pub open spec fn spec_orthogonal(a: Movement, b: Movement) -> bool {
    match a {
        Movement::Left | Movement::Right => b == Movement::Up || b == Movement::Down,
        Movement::Down | Movement::Up => b == Movement::Left || b == Movement::Right,
    }
}

impl Movement {
    pub fn opposite(&self) -> (r: Self)
        ensures
            r == spec_opposite(*self),
    {
        match self {
            Movement::Left => Movement::Right,
            Movement::Down => Movement::Up,
            Movement::Up => Movement::Down,
            Movement::Right => Movement::Left,
        }
    }

    pub fn is_opposite(&self, other: Self) -> (r: bool)
        ensures
            r == (spec_opposite(*self) == other),
    {
        self.opposite() == other
    }

    pub fn is_orthogonal(&self, other: Self) -> (r: bool)
        ensures
            r == spec_orthogonal(*self, other),
    {
        match self {
            Movement::Left | Movement::Right => matches!(other, Movement::Up | Movement::Down),
            Movement::Down | Movement::Up => matches!(other, Movement::Left | Movement::Right),
        }
    }

    /// The step of this movement as a point.
    pub fn into_point(self) -> (r: Point)
        ensures
            r.x == spec_offset(self).0,
            r.y == spec_offset(self).1,
    {
        match self {
            Movement::Left => Point { x: -1, y: 0 },
            Movement::Down => Point { x: 0, y: 1 },
            Movement::Up => Point { x: 0, y: -1 },
            Movement::Right => Point { x: 1, y: 0 },
        }
    }
}

/// The opposite of the opposite is the movement itself, and opposite steps cancel.
pub proof fn lemma_opposite(m: Movement)
    ensures
        spec_opposite(spec_opposite(m)) == m,
        spec_opposite(m) != m,
        spec_offset(spec_opposite(m)).0 == -spec_offset(m).0,
        spec_offset(spec_opposite(m)).1 == -spec_offset(m).1,
{
}

/// Any two movements are equal, opposite or orthogonal, and exactly one of these.
pub proof fn lemma_relation(a: Movement, b: Movement)
    ensures
        a == b || spec_opposite(a) == b || spec_orthogonal(a, b),
        !(a == b && spec_orthogonal(a, b)),
        !(spec_opposite(a) == b && spec_orthogonal(a, b)),
        spec_orthogonal(a, b) == spec_orthogonal(b, a),
        (spec_opposite(a) == b) == (spec_opposite(b) == a),
{
}

/// How a cube is held back this turn; later variants hold it back harder.
#[derive(Clone, Copy, Debug, PartialEq, Eq, PartialOrd, Ord, Structural)]
pub enum Restriction {
    Free,
    Lock,
    Stop,
}

impl Default for Restriction {
    fn default() -> (r: Self)
        ensures
            r == Restriction::Free,
    {
        Restriction::Free
    }
}

/// A movement together with what holds it back.
#[derive(Clone, Copy, Debug, PartialEq, Eq, Structural)]
pub struct Action {
    pub movement: Movement,
    pub restriction: Restriction,
}

impl Action {
    pub fn new(movement: Movement, restriction: Restriction) -> (r: Self)
        ensures
            r.movement == movement,
            r.restriction == restriction,
    {
        Action { movement, restriction }
    }
}

} // verus!
