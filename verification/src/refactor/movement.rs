use vstd::prelude::*;

pub use crate::model::movement::Movement;

verus! {

impl Movement {
    /// Every movement, in the order left, down, up, right.
    pub const ALL: [Movement; 4] = [Movement::Left, Movement::Down, Movement::Up, Movement::Right];

    /// Whether `other` is the opposite of this movement.
    pub fn opposite_to(&self, other: Self) -> (r: bool)
        ensures
            r == (crate::model::movement::spec_opposite(*self) == other),
    {
        self.is_opposite(other)
    }

    /// Whether one of the two movements is horizontal and the other vertical.
    pub fn orthogonal_to(&self, other: Self) -> (r: bool)
        ensures
            r == crate::model::movement::spec_orthogonal(*self, other),
    {
        self.is_orthogonal(other)
    }
}

/// How a cube moves this turn; later variants hold it back harder.
#[derive(Clone, Copy, Debug, PartialEq, Eq, PartialOrd, Ord, Structural)]
pub enum Constraint {
    /// Free to move.
    Free,
    /// Hits other cubes.
    Pong,
    /// Blocked as competing for the same point.
    Lock,
    /// Obstacles on the path.
    Stop,
}

/// The strength of a constraint, in the order of the variants.
pub open spec fn spec_level(c: Constraint) -> int {
    match c {
        Constraint::Free => 0,
        Constraint::Pong => 1,
        Constraint::Lock => 2,
        Constraint::Stop => 3,
    }
}

impl Constraint {
    /// The strength of this constraint, in the order of the variants.
    pub fn level(&self) -> (r: u8)
        ensures
            r == spec_level(*self),
    {
        match self {
            Constraint::Free => 0,
            Constraint::Pong => 1,
            Constraint::Lock => 2,
            Constraint::Stop => 3,
        }
    }
}

impl Default for Constraint {
    fn default() -> (r: Self)
        ensures
            r == Constraint::Free,
    {
        Constraint::Free
    }
}

} // verus!
