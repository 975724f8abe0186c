use vstd::prelude::*;

use super::lookup::Collision;
use crate::common::neighborhood::{interior, neighbor, Adjacence, Neighborhood};
use crate::common::point::Point;

verus! {

/// What a lookup of occupied points tells of the cells around a point.
pub trait CollisionExtension {
    /// `p` is recorded as occupied.
    spec fn spec_occupied(&self, p: Point) -> bool;

    /// The neighbours of `point` that are recorded as occupied.
    fn neighborhood(&self, point: Point) -> (r: Neighborhood)
        requires
            interior(point),
        ensures
            forall|d: Adjacence|
                d != Adjacence::NONE ==> (r.spec_has(d) <==> self.spec_occupied(
                    #[trigger] neighbor(point, d),
                )),
            !r.spec_has(Adjacence::NONE),
    ;
}

impl CollisionExtension for Collision {
    open spec fn spec_occupied(&self, p: Point) -> bool {
        self.spec_hit(p)
    }

    fn neighborhood(&self, point: Point) -> (r: Neighborhood) {
        Collision::neighborhood(self, point)
    }
}

} // verus!
