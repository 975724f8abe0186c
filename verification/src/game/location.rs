use vstd::prelude::*;

use super::vicinity::Adjacence;

verus! {

/// Something placed at integer coordinates.
pub trait Location {
    spec fn spec_x(&self) -> i32;

    spec fn spec_y(&self) -> i32;

    fn x(&self) -> (r: i32)
        ensures
            r == self.spec_x(),
    ;

    fn y(&self) -> (r: i32)
        ensures
            r == self.spec_y(),
    ;
}

impl Location for (i32, i32) {
    open spec fn spec_x(&self) -> i32 {
        self.0
    }

    open spec fn spec_y(&self) -> i32 {
        self.1
    }

    fn x(&self) -> (r: i32) {
        self.0
    }

    fn y(&self) -> (r: i32) {
        self.1
    }
}

/// A cell of the board; `y` grows downwards.
#[derive(Clone, Copy, Debug, Default, PartialEq, Eq, Structural)]
pub struct Point {
    pub x: i32,
    pub y: i32,
}

impl Location for Point {
    open spec fn spec_x(&self) -> i32 {
        self.x
    }

    open spec fn spec_y(&self) -> i32 {
        self.y
    }

    fn x(&self) -> (r: i32) {
        self.x
    }

    fn y(&self) -> (r: i32) {
        self.y
    }
}

/// `p` can take a step by `d` without leaving the range of an `i32`.
pub open spec fn can_near(p: Point, d: Adjacence) -> bool {
    &&& i32::MIN <= p.x + d.spec_offset().0 <= i32::MAX
    &&& i32::MIN <= p.y + d.spec_offset().1 <= i32::MAX
}

impl Point {
    pub fn new(x: i32, y: i32) -> (r: Point)
        ensures
            r.x == x,
            r.y == y,
    {
        Point { x, y }
    }

    /// The point at the place of `o`.
    pub fn from<T: Location>(o: &T) -> (r: Point)
        ensures
            r.x == o.spec_x(),
            r.y == o.spec_y(),
    {
        Point { x: o.x(), y: o.y() }
    }

    /// The neighbour in direction `dir`; itself for `NONE`.
    pub fn near(&self, dir: Adjacence) -> (r: Point)
        requires
            can_near(*self, dir),
        ensures
            r.x == self.x + dir.spec_offset().0,
            r.y == self.y + dir.spec_offset().1,
    {
        match dir {
            Adjacence::LEFT => Point { x: self.x - 1, y: self.y },
            Adjacence::LEFT_TOP => Point { x: self.x - 1, y: self.y - 1 },
            Adjacence::TOP => Point { x: self.x, y: self.y - 1 },
            Adjacence::RIGHT_TOP => Point { x: self.x + 1, y: self.y - 1 },
            Adjacence::RIGHT => Point { x: self.x + 1, y: self.y },
            Adjacence::RIGHT_BOTTOM => Point { x: self.x + 1, y: self.y + 1 },
            Adjacence::BOTTOM => Point { x: self.x, y: self.y + 1 },
            Adjacence::LEFT_BOTTOM => Point { x: self.x - 1, y: self.y + 1 },
            Adjacence::NONE => Point { x: self.x, y: self.y },
        }
    }
}

} // verus!
