use vstd::prelude::*;

use crate::common::neighborhood::Neighborhood;
use crate::common::point::Point;
use crate::refactor::kind::Kind;
use crate::refactor::movement::{Constraint, Movement};

verus! {

/// One unit of a snapshot.
#[derive(Clone, Copy, Debug, PartialEq, Eq, Structural)]
pub struct Item {
    pub id: usize,
    pub kind: Kind,
    pub position: Point,
    pub movement: Option<Movement>,
    pub constraint: Constraint,
    pub neighborhood: Neighborhood,
}

/// What changed in one unit between two snapshots; `None` fields did not change.
#[derive(Clone, Copy, Debug, Default, PartialEq, Eq)]
pub struct Diff {
    pub id: usize,
    pub kind: Option<Kind>,
    pub position: Option<Point>,
    pub movement: Option<Option<Movement>>,
    pub constraint: Option<Constraint>,
    pub neighborhood: Option<Neighborhood>,
}

} // verus!
