use vstd::prelude::*;

verus! {

/// The type of cubes.
#[derive(Clone, Copy, Debug, PartialEq, Eq, Structural)]
pub enum Type {
    White,
    Red,
    Blue,
    Green,
}

/// Where a cube goes this turn, if anywhere.
#[derive(Clone, Copy, Debug, PartialEq, Eq, Structural)]
pub enum Movement {
    Idle,
    Left,
    Down,
    Up,
    Right,
}

} // verus!
