use vstd::prelude::*;

use super::direction::{direction_at, Direction};

verus! {

/// Which of the eight cells around a cell are taken, one bit each.
#[derive(Clone, Copy, Debug, Default, PartialEq, Eq, Structural)]
pub struct Near(pub u8);

impl Near {
    /// The eight directions, clockwise from the left.
    pub const AROUND: [Direction; 8] = [
        Direction::LEFT,
        Direction::LEFT_TOP,
        Direction::TOP,
        Direction::RIGHT_TOP,
        Direction::RIGHT,
        Direction::RIGHT_BOTTOM,
        Direction::BOTTOM,
        Direction::LEFT_BOTTOM,
    ];

    /// The cell at `d` is marked taken.
    pub open spec fn spec_has(self, d: Direction) -> bool {
        self.0 & d.spec_mask() != 0
    }

    pub fn new() -> (r: Near)
        ensures
            r.0 == 0,
    {
        Near(0)
    }

    pub fn set(&mut self, bit: Direction)
        ensures
            final(self).0 == old(self).0 | bit.spec_mask(),
    {
        self.0 = self.0 | bit.mask();
    }

    fn has(&self, d: Direction) -> (r: bool)
        ensures
            r == self.spec_has(d),
    {
        self.0 & d.mask() != 0
    }

    /// Whether each of the eight cells, clockwise from the left, is taken.
    pub fn around(&self) -> (r: [bool; 8])
        ensures
            forall|i: int| 0 <= i < 8 ==> r[i] == self.spec_has(#[trigger] direction_at(i)),
    {
        [
            self.has(Direction::LEFT),
            self.has(Direction::LEFT_TOP),
            self.has(Direction::TOP),
            self.has(Direction::RIGHT_TOP),
            self.has(Direction::RIGHT),
            self.has(Direction::RIGHT_BOTTOM),
            self.has(Direction::BOTTOM),
            self.has(Direction::LEFT_BOTTOM),
        ]
    }
}

} // verus!
