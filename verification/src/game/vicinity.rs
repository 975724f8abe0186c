use vstd::prelude::*;

pub use crate::common::neighborhood::Adjacence;
use crate::common::neighborhood::around;

verus! {

/// Which of the eight cells around a cell are taken, one bit each.
#[derive(Clone, Copy, Debug, Default, PartialEq, Eq, Structural)]
pub struct Vicinity(pub u8);

impl Vicinity {
    /// The eight adjacences, clockwise from the left.
    pub const AROUND: [Adjacence; 8] = [
        Adjacence::LEFT,
        Adjacence::LEFT_TOP,
        Adjacence::TOP,
        Adjacence::RIGHT_TOP,
        Adjacence::RIGHT,
        Adjacence::RIGHT_BOTTOM,
        Adjacence::BOTTOM,
        Adjacence::LEFT_BOTTOM,
    ];

    /// The cell at `a` is marked taken.
    pub open spec fn spec_has(self, a: Adjacence) -> bool {
        self.0 & a.spec_mask() != 0
    }

    pub fn new() -> (r: Vicinity)
        ensures
            r.0 == 0,
    {
        Vicinity(0)
    }

    pub fn set(&mut self, mask: Adjacence)
        ensures
            final(self).0 == old(self).0 | mask.spec_mask(),
    {
        self.0 = self.0 | mask.mask();
    }

    fn has(&self, mask: Adjacence) -> (r: bool)
        ensures
            r == self.spec_has(mask),
    {
        self.0 & mask.mask() != 0
    }

    /// Whether each of the eight cells, clockwise from the left, is taken.
    pub fn states(&self) -> (r: [bool; 8])
        ensures
            forall|i: int| 0 <= i < 8 ==> r[i] == self.spec_has(#[trigger] around(i)),
    {
        [
            self.has(Adjacence::LEFT),
            self.has(Adjacence::LEFT_TOP),
            self.has(Adjacence::TOP),
            self.has(Adjacence::RIGHT_TOP),
            self.has(Adjacence::RIGHT),
            self.has(Adjacence::RIGHT_BOTTOM),
            self.has(Adjacence::BOTTOM),
            self.has(Adjacence::LEFT_BOTTOM),
        ]
    }
}

} // verus!
