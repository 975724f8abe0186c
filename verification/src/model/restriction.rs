use vstd::prelude::*;

verus! {

/// How a cube is held back from moving.
#[derive(Clone, Copy, Debug, PartialEq, Eq, Structural)]
pub enum Restriction {
    Free,
    Knock,
    Block,
}

impl Default for Restriction {
    fn default() -> (r: Self)
        ensures
            r == Restriction::Free,
    {
        Restriction::Free
    }
}

} // verus!
