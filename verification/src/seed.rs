use vstd::prelude::*;

use crate::common::point::Point;
use crate::model::movement::Movement;
use crate::model::types::Kind;

verus! {

/// A level: its title and author, its size, its cubes and the places to reach.
#[derive(Clone)]
pub struct Seed {
    pub info: Info,
    pub size: Size,
    pub cubes: Vec<Cube>,
    pub destnations: Vec<Point>,
}

#[derive(Clone)]
pub struct Info {
    pub title: String,
    pub author: String,
}

/// A cube: its colour, the cells it takes, and the moves it repeats, if any.
#[derive(Clone)]
pub struct Cube {
    pub kind: Kind,
    pub body: Vec<Point>,
    pub command: Option<Command>,
}

#[derive(Clone, Copy)]
pub struct Size {
    pub width: i32,
    pub height: i32,
}

/// Moves with their counts, run once or over and over; `None` stands still.
#[derive(Clone)]
pub struct Command {
    pub is_loop: bool,
    pub movements: Vec<(Option<Movement>, usize)>,
}

} // verus!
