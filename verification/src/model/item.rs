use vstd::prelude::*;

use super::movement::Action;
use super::types::Kind;
use crate::common::neighborhood::Neighborhood;
use crate::common::point::Point;

verus! {

/// One unit on the board as shown to the player.
#[derive(Clone, Copy, Debug, PartialEq, Eq, Structural)]
pub struct Item {
    pub id: usize,
    pub kind: Kind,
    pub action: Option<Action>,
    pub position: Point,
    pub neighborhood: Neighborhood,
}

/// What changed in one unit; `None` fields did not change.
#[derive(Clone, Copy, Debug, Default, PartialEq, Eq)]
pub struct Diff {
    pub id: usize,
    pub kind: Option<Kind>,
    pub action: Option<Option<Action>>,
    pub position: Option<Point>,
    pub neighborhood: Option<Neighborhood>,
}

} // verus!
