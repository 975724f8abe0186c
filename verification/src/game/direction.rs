use vstd::prelude::*;

verus! {

/// One of the eight cells around a cell, on a grid whose `y` grows upwards.
#[derive(Clone, Copy, Debug, PartialEq, Eq, Structural)]
#[allow(non_camel_case_types)]
pub enum Direction {
    LEFT,
    LEFT_TOP,
    TOP,
    RIGHT_TOP,
    RIGHT,
    RIGHT_BOTTOM,
    BOTTOM,
    LEFT_BOTTOM,
}

impl Direction {
    /// The bit that stands for this direction.
    pub open spec fn spec_mask(self) -> u8 {
        match self {
            Direction::LEFT => 0x80u8,
            Direction::LEFT_TOP => 0x40u8,
            Direction::TOP => 0x20u8,
            Direction::RIGHT_TOP => 0x10u8,
            Direction::RIGHT => 0x08u8,
            Direction::RIGHT_BOTTOM => 0x04u8,
            Direction::BOTTOM => 0x02u8,
            Direction::LEFT_BOTTOM => 0x01u8,
        }
    }

    /// The step from a cell to this neighbour (`y` grows upwards).
    pub open spec fn spec_offset(self) -> (int, int) {
        match self {
            Direction::LEFT => (-1, 0),
            Direction::LEFT_TOP => (-1, 1),
            Direction::TOP => (0, 1),
            Direction::RIGHT_TOP => (1, 1),
            Direction::RIGHT => (1, 0),
            Direction::RIGHT_BOTTOM => (1, -1),
            Direction::BOTTOM => (0, -1),
            Direction::LEFT_BOTTOM => (-1, -1),
        }
    }

    pub fn mask(&self) -> (r: u8)
        ensures
            r == self.spec_mask(),
    {
        match self {
            Direction::LEFT => 0x80u8,
            Direction::LEFT_TOP => 0x40u8,
            Direction::TOP => 0x20u8,
            Direction::RIGHT_TOP => 0x10u8,
            Direction::RIGHT => 0x08u8,
            Direction::RIGHT_BOTTOM => 0x04u8,
            Direction::BOTTOM => 0x02u8,
            Direction::LEFT_BOTTOM => 0x01u8,
        }
    }
}

/// The eight directions, clockwise from the left.
pub open spec fn direction_at(i: int) -> Direction {
    if i == 0 {
        Direction::LEFT
    } else if i == 1 {
        Direction::LEFT_TOP
    } else if i == 2 {
        Direction::TOP
    } else if i == 3 {
        Direction::RIGHT_TOP
    } else if i == 4 {
        Direction::RIGHT
    } else if i == 5 {
        Direction::RIGHT_BOTTOM
    } else if i == 6 {
        Direction::BOTTOM
    } else {
        Direction::LEFT_BOTTOM
    }
}

} // verus!
