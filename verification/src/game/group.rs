use vstd::prelude::*;

use super::direction::{direction_at, Direction};
use super::location::{self, Location};
use super::lookup::{key_of, keys_of, Existence};
use super::near::Near;

verus! {

/// A cell of a group; `y` grows upwards.
#[derive(Clone, Copy, Debug, Default, PartialEq, Eq, Structural)]
pub struct Point {
    pub x: i32,
    pub y: i32,
}

/// `p` and every neighbour of it stay within the range of an `i32`.
pub open spec fn steps_fit(x: int, y: int) -> bool {
    i32::MIN < x < i32::MAX && i32::MIN < y < i32::MAX
}

/// The neighbour of `p` in direction `d` stays within the range of an `i32`.
pub open spec fn step_fits(p: Point, d: Direction) -> bool {
    &&& i32::MIN <= p.x + d.spec_offset().0 <= i32::MAX
    &&& i32::MIN <= p.y + d.spec_offset().1 <= i32::MAX
}

/// The neighbour of `p` in direction `d`.
pub open spec fn stepped(p: Point, d: Direction) -> Point {
    Point { x: (p.x + d.spec_offset().0) as i32, y: (p.y + d.spec_offset().1) as i32 }
}

/// The same place as a board point.
pub open spec fn as_location(p: Point) -> location::Point {
    location::Point { x: p.x, y: p.y }
}

impl Point {
    pub fn new(x: i32, y: i32) -> (r: Point)
        ensures
            r.x == x,
            r.y == y,
    {
        Point { x, y }
    }

    /// The neighbour in direction `dir`.
    pub fn step(&self, dir: Direction) -> (r: Point)
        requires
            step_fits(*self, dir),
        ensures
            r == stepped(*self, dir),
    {
        match dir {
            Direction::LEFT => Point { x: self.x - 1, y: self.y },
            Direction::LEFT_TOP => Point { x: self.x - 1, y: self.y + 1 },
            Direction::TOP => Point { x: self.x, y: self.y + 1 },
            Direction::RIGHT_TOP => Point { x: self.x + 1, y: self.y + 1 },
            Direction::RIGHT => Point { x: self.x + 1, y: self.y },
            Direction::RIGHT_BOTTOM => Point { x: self.x + 1, y: self.y - 1 },
            Direction::BOTTOM => Point { x: self.x, y: self.y - 1 },
            Direction::LEFT_BOTTOM => Point { x: self.x - 1, y: self.y - 1 },
        }
    }
}

impl Location for Point {
    open spec fn spec_x(&self) -> i32 {
        self.x
    }

    open spec fn spec_y(&self) -> i32 {
        self.y
    }

    fn x(&self) -> (r: i32) {
        self.x
    }

    fn y(&self) -> (r: i32) {
        self.y
    }
}

/// A cell of a group with the neighbours it has in the group.
#[derive(Clone, Copy, Debug, Default)]
pub struct Unit {
    pub o: Point,
    pub n: Near,
}

/// The places of some units, as board points.
pub open spec fn places(us: Seq<Unit>) -> Seq<location::Point> {
    us.map_values(|u: Unit| as_location(u.o))
}

/// `n` marks exactly the directions in which a key of `keys` lies next to `o`.
pub open spec fn marks_keys(n: Near, keys: Set<u64>, o: Point) -> bool {
    forall|i: int|
        0 <= i < 8 ==> (n.spec_has(#[trigger] direction_at(i)) <==> keys.contains(
            key_of(as_location(stepped(o, direction_at(i)))),
        ))
}

/// Cells that belong together, each with its neighbours, and a lookup of their places.
pub struct Group {
    pub units: Vec<Unit>,
    pub lookup: Existence,
}

fn direction_of(i: usize) -> (r: Direction)
    requires
        i < 8,
    ensures
        r == direction_at(i as int),
{
    if i == 0 {
        Direction::LEFT
    } else if i == 1 {
        Direction::LEFT_TOP
    } else if i == 2 {
        Direction::TOP
    } else if i == 3 {
        Direction::RIGHT_TOP
    } else if i == 4 {
        Direction::RIGHT
    } else if i == 5 {
        Direction::RIGHT_BOTTOM
    } else if i == 6 {
        Direction::BOTTOM
    } else {
        Direction::LEFT_BOTTOM
    }
}

proof fn lemma_mask_bits(x: u8, i: int, j: int)
    requires
        0 <= i < 8,
        0 <= j < 8,
    ensures
        ((x | direction_at(i).spec_mask()) & direction_at(j).spec_mask() != 0) <==> (x & direction_at(
            j,
        ).spec_mask() != 0 || i == j),
        0u8 & direction_at(j).spec_mask() == 0,
{
    let m = direction_at(i).spec_mask();
    let d = direction_at(j).spec_mask();
    assert(((x | m) & d != 0) <==> (x & d != 0 || m & d != 0)) by (bit_vector);
    assert(0u8 & d == 0) by (bit_vector);
    assert(m & d != 0 <==> m == d) by (bit_vector)
        requires
            m == 1 || m == 2 || m == 4 || m == 8 || m == 16 || m == 32 || m == 64 || m == 128,
            d == 1 || d == 2 || d == 4 || d == 8 || d == 16 || d == 32 || d == 64 || d == 128,
    ;
}

impl Group {
    /// No units.
    pub fn new() -> (r: Group)
        ensures
            r.units@.len() == 0,
            r.lookup@ == Set::<u64>::empty(),
    {
        let empty: Vec<location::Point> = Vec::new();
        let lookup = Existence::new(empty.as_slice());
        proof {
            assert(keys_of(empty@).to_set() =~= Set::<u64>::empty());
        }
        Group { units: Vec::new(), lookup }
    }

    /// A group of the cells at the places of `it`, each marked with its neighbours.
    pub fn from<T: Location>(it: &[T]) -> (r: Group)
        requires
            forall|k: int| 0 <= k < it@.len() ==> steps_fit((#[trigger] it@[k]).spec_x() as int, it@[k].spec_y() as int),
        ensures
            r.units@.len() == it@.len(),
            forall|k: int| 0 <= k < it@.len() ==> (#[trigger] r.units@[k]).o == (Point { x: it@[k].spec_x(), y: it@[k].spec_y() }),
            r.lookup@ == keys_of(places(r.units@)).to_set(),
            forall|k: int| 0 <= k < it@.len() ==> marks_keys((#[trigger] r.units@[k]).n, r.lookup@, r.units@[k].o),
    {
        let mut units: Vec<Unit> = Vec::new();
        let mut points: Vec<location::Point> = Vec::new();
        let mut k: usize = 0;
        while k < it.len()
            invariant
                k <= it@.len(),
                units@.len() == k,
                points@ == places(units@),
                forall|j: int| 0 <= j < k ==> (#[trigger] units@[j]).o == (Point { x: it@[j].spec_x(), y: it@[j].spec_y() }),
            decreases it@.len() - k,
        {
            let o = Point { x: it[k].x(), y: it[k].y() };
            units.push(Unit { o, n: Near::new() });
            points.push(location::Point { x: o.x, y: o.y });
            proof {
                assert(points@ =~= places(units@));
            }
            k = k + 1;
        }
        let lookup = Existence::new(points.as_slice());
        let ghost base = units@;
        let mut out: Vec<Unit> = Vec::new();
        let mut k: usize = 0;
        while k < units.len()
            invariant
                k <= units@.len(),
                units@ == base,
                out@.len() == k,
                lookup@ == keys_of(places(base)).to_set(),
                forall|j: int| 0 <= j < it@.len() ==> steps_fit((#[trigger] it@[j]).spec_x() as int, it@[j].spec_y() as int),
                base.len() == it@.len(),
                forall|j: int| 0 <= j < it@.len() ==> (#[trigger] base[j]).o == (Point { x: it@[j].spec_x(), y: it@[j].spec_y() }),
                forall|j: int| 0 <= j < k ==> (#[trigger] out@[j]).o == base[j].o,
                forall|j: int| 0 <= j < k ==> marks_keys((#[trigger] out@[j]).n, lookup@, out@[j].o),
            decreases units@.len() - k,
        {
            let mut u = units[k];
            assert(steps_fit(it@[k as int].spec_x() as int, it@[k as int].spec_y() as int));
            u.n = Near::new();
            proof {
                assert forall|j: int| 0 <= j < 8 implies !u.n.spec_has(#[trigger] direction_at(j)) by {
                    lemma_mask_bits(0u8, 0, j);
                }
            }
            let mut i: usize = 0;
            while i < 8
                invariant
                    i <= 8,
                    u.o == base[k as int].o,
                    steps_fit(u.o.x as int, u.o.y as int),
                    forall|j: int| 0 <= j < i ==> (u.n.spec_has(#[trigger] direction_at(j)) <==> lookup@.contains(
                        key_of(as_location(stepped(u.o, direction_at(j)))),
                    )),
                    forall|j: int| i <= j < 8 ==> !u.n.spec_has(#[trigger] direction_at(j)),
                decreases 8 - i,
            {
                let d = direction_of(i);
                let q = u.o.step(d);
                let ghost before = u.n;
                if lookup.has(location::Point { x: q.x, y: q.y }) {
                    u.n.set(d);
                    proof {
                        assert forall|j: int| 0 <= j < 8 implies (u.n.spec_has(#[trigger] direction_at(j)) <==> (before.spec_has(direction_at(j)) || i == j)) by {
                            lemma_mask_bits(before.0, i as int, j);
                        }
                    }
                }
                proof {
                    assert forall|j: int| 0 <= j < 8 && j != i implies direction_at(j) != d by {}
                }
                i = i + 1;
            }
            out.push(u);
            k = k + 1;
        }
        proof {
            assert(places(out@) =~= places(base)) by {
                assert forall|j: int| 0 <= j < out@.len() implies places(out@)[j] == places(base)[j] by {}
            }
        }
        Group { units: out, lookup }
    }

    /// Merging groups is not done yet: this leaves the group as it is.
    pub fn merge(&mut self, that: Self)
        ensures
            final(self).units@ == old(self).units@,
            final(self).lookup@ == old(self).lookup@,
    {
    }
}

} // verus!
