use vstd::prelude::*;

use super::kind::{spec_absorbable, spec_linkable, Kind};
use super::motion::{Agreement, Motion};
use crate::model::motion::vote_of;
use super::lookup::{in_bounds, BitmapCollision, Collision};
use super::movement::{spec_level, Constraint, Movement};
use crate::common::neighborhood::{interior, Adjacence, Neighborhood};
use crate::common::point::Point;
use crate::rule::frozen::{cells_of, flat_cells, lists_cells, points_of};
use crate::rule::item::Item;

verus! {

/// One cell of a cube, with the neighbours it has in that cube.
#[derive(Clone, Copy, Debug)]
pub struct Unit {
    pub index: usize,
    pub position: Point,
    pub neighborhood: Neighborhood,
}

/// `v` fits in an `i32`.
pub open spec fn fits(v: int) -> bool {
    i32::MIN <= v <= i32::MAX
}

/// The sides that outlines keep, in order: left, bottom, top, right.
pub open spec fn lbtr(i: int) -> Adjacence {
    if i == 0 {
        Adjacence::LEFT
    } else if i == 1 {
        Adjacence::BOTTOM
    } else if i == 2 {
        Adjacence::TOP
    } else {
        Adjacence::RIGHT
    }
}

/// The side that a cube moving by `m` pushes against.
pub open spec fn side_index(m: Movement) -> int {
    match m {
        Movement::Left => 0,
        Movement::Down => 1,
        Movement::Up => 2,
        Movement::Right => 3,
    }
}

/// The position of the first unit, or the origin.
pub open spec fn anchor_of(units: Seq<Unit>) -> Point {
    if units.len() > 0 {
        units[0].position
    } else {
        Point { x: 0, y: 0 }
    }
}

/// `first - u.position - offset(a)`.
pub open spec fn outline_offset(first: Point, u: Unit, a: Adjacence) -> Point {
    Point {
        x: (first.x - u.position.x - a.spec_offset().0) as i32,
        y: (first.y - u.position.y - a.spec_offset().1) as i32,
    }
}

/// The offsets kept for side `a`: one per unit without a neighbour there, in unit order.
pub open spec fn side(units: Seq<Unit>, a: Adjacence) -> Seq<Point> {
    let first = anchor_of(units);
    units.filter(|u: Unit| !u.neighborhood.spec_has(a)).map_values(
        |u: Unit| outline_offset(first, u, a),
    )
}

/// Every offset that the outlines of `units` keep fits, and so does each step to it.
pub open spec fn offsets_fit(units: Seq<Unit>) -> bool {
    forall|k: int, i: int|
        0 <= k < units.len() && 0 <= i < 4 && !(#[trigger] units[k]).neighborhood.spec_has(
            #[trigger] lbtr(i),
        ) ==> {
            let first = anchor_of(units);
            let p = units[k].position;
            let o = lbtr(i).spec_offset();
            &&& fits(first.x - p.x)
            &&& fits(first.y - p.y)
            &&& fits(first.x - p.x - o.0)
            &&& fits(first.y - p.y - o.1)
        }
}

/// `anchor - o` for each offset `o`.
pub open spec fn shifted(anchor: Point, s: Seq<Point>) -> Seq<Point> {
    s.map_values(|o: Point| Point { x: (anchor.x - o.x) as i32, y: (anchor.y - o.y) as i32 })
}

/// Every `anchor - o` fits.
pub open spec fn shift_fits(anchor: Point, s: Seq<Point>) -> bool {
    forall|k: int| 0 <= k < s.len() ==> fits(anchor.x - (#[trigger] s[k]).x) && fits(anchor.y - s[k].y)
}

/// The cells around a cube, side by side, kept as offsets from its first unit.
#[derive(Debug)]
pub struct Outlines {
    count: [usize; 3],
    slice: Vec<Point>,
}

fn side_at(i: usize) -> (r: Adjacence)
    requires
        i < 4,
    ensures
        r == lbtr(i as int),
{
    if i == 0 {
        Adjacence::LEFT
    } else if i == 1 {
        Adjacence::BOTTOM
    } else if i == 2 {
        Adjacence::TOP
    } else {
        Adjacence::RIGHT
    }
}

impl Outlines {
    pub closed spec fn wf(self) -> bool {
        self.count@[0] <= self.count@[1] <= self.count@[2] <= self.slice@.len()
    }

    /// The offsets kept for side `i` of `lbtr`.
    pub closed spec fn sides(self, i: int) -> Seq<Point> {
        let c = self.count@;
        let n = self.slice@.len() as int;
        let lo = if i == 0 { 0 } else { c[i - 1] as int };
        let hi = if i == 3 { n } else { c[i] as int };
        self.slice@.subrange(lo, hi)
    }

    /// Every offset kept, side by side.
    pub closed spec fn offsets(self) -> Seq<Point> {
        self.slice@
    }

    /// The outlines of a cube made of `units`.
    pub fn new(units: &[Unit]) -> (r: Outlines)
        requires
            offsets_fit(units@),
        ensures
            r.wf(),
            forall|i: int| 0 <= i < 4 ==> #[trigger] r.sides(i) == side(units@, lbtr(i)),
            r.offsets() == side(units@, lbtr(0)) + side(units@, lbtr(1)) + side(units@, lbtr(2))
                + side(units@, lbtr(3)),
    {
        let first = Self::anchor(units);
        let mut slice: Vec<Point> = Vec::new();
        let mut count: [usize; 3] = [0, 0, 0];
        let ghost mut done: Seq<Point> = Seq::empty();
        let mut i: usize = 0;
        while i < 4
            invariant
                i <= 4,
                offsets_fit(units@),
                first == anchor_of(units@),
                slice@ == done,
                done == (if i == 0 {
                    Seq::<Point>::empty()
                } else if i == 1 {
                    side(units@, lbtr(0))
                } else if i == 2 {
                    side(units@, lbtr(0)) + side(units@, lbtr(1))
                } else if i == 3 {
                    side(units@, lbtr(0)) + side(units@, lbtr(1)) + side(units@, lbtr(2))
                } else {
                    side(units@, lbtr(0)) + side(units@, lbtr(1)) + side(units@, lbtr(2)) + side(
                        units@,
                        lbtr(3),
                    )
                }),
                i >= 1 ==> count@[0] == side(units@, lbtr(0)).len(),
                i >= 2 ==> count@[1] == side(units@, lbtr(0)).len() + side(units@, lbtr(1)).len(),
                i >= 3 ==> count@[2] == side(units@, lbtr(0)).len() + side(units@, lbtr(1)).len()
                    + side(units@, lbtr(2)).len(),
            decreases 4 - i,
        {
            let a = side_at(i);
            let ghost kept = units@.filter(|u: Unit| !u.neighborhood.spec_has(a));
            let ghost start = slice@;
            let mut k: usize = 0;
            while k < units.len()
                invariant
                    i < 4,
                    k <= units@.len(),
                    a == lbtr(i as int),
                    offsets_fit(units@),
                    first == anchor_of(units@),
                    slice@ == start + units@.take(k as int).filter(
                        |u: Unit| !u.neighborhood.spec_has(a),
                    ).map_values(|u: Unit| outline_offset(first, u, a)),
                decreases units@.len() - k,
            {
                let u = units[k];
                proof {
                    assert(units@.take(k + 1) =~= units@.take(k as int).push(u));
                    units@.take(k as int).lemma_filter_push(
                        u,
                        |u: Unit| !u.neighborhood.spec_has(a),
                    );
                }
                if !u.neighborhood.has(a) {
                    proof {
                        assert(!units@[k as int].neighborhood.spec_has(lbtr(i as int)));
                    }
                    let o = a.into_point();
                    let p = first.sub(u.position).sub(o);
                    slice.push(p);
                    proof {
                        let f = units@.take(k as int).filter(|u: Unit| !u.neighborhood.spec_has(a));
                        assert(f.push(u).map_values(|u: Unit| outline_offset(first, u, a))
                            =~= f.map_values(|u: Unit| outline_offset(first, u, a)).push(
                            outline_offset(first, u, a),
                        ));
                    }
                }
                k = k + 1;
            }
            proof {
                assert(units@.take(units@.len() as int) =~= units@);
            }
            if i < 3 {
                count[i] = slice.len();
            }
            proof {
                done = slice@;
            }
            i = i + 1;
        }
        let r = Outlines { count, slice };
        proof {
            let s0 = side(units@, lbtr(0));
            let s1 = side(units@, lbtr(1));
            let s2 = side(units@, lbtr(2));
            let s3 = side(units@, lbtr(3));
            assert(r.sides(0) =~= s0);
            assert(r.sides(1) =~= s1);
            assert(r.sides(2) =~= s2);
            assert(r.sides(3) =~= s3);
        }
        r
    }

    /// The cells in front of a cube anchored at `anchor` that moves by `m`.
    pub fn one(&self, anchor: Point, m: Movement) -> (r: Vec<Point>)
        requires
            self.wf(),
            shift_fits(anchor, self.offsets()),
        ensures
            r@ == shifted(anchor, self.sides(side_index(m))),
    {
        let n = self.slice.len();
        let (lo, hi) = match m {
            Movement::Left => (0, self.count[0]),
            Movement::Down => (self.count[0], self.count[1]),
            Movement::Up => (self.count[1], self.count[2]),
            Movement::Right => (self.count[2], n),
        };
        let mut r: Vec<Point> = Vec::new();
        let mut k: usize = lo;
        while k < hi
            invariant
                lo <= k <= hi <= self.slice@.len(),
                shift_fits(anchor, self.offsets()),
                r@ == shifted(anchor, self.slice@.subrange(lo as int, k as int)),
            decreases hi - k,
        {
            let o = self.slice[k];
            assert(fits(anchor.x - self.slice@[k as int].x));
            r.push(anchor.sub(o));
            proof {
                assert(self.slice@.subrange(lo as int, k + 1) =~= self.slice@.subrange(
                    lo as int,
                    k as int,
                ).push(o));
                assert(shifted(anchor, self.slice@.subrange(lo as int, k + 1)) =~= shifted(
                    anchor,
                    self.slice@.subrange(lo as int, k as int),
                ).push(Point { x: (anchor.x - o.x) as i32, y: (anchor.y - o.y) as i32 }));
            }
            k = k + 1;
        }
        r
    }

    /// Every cell around a cube anchored at `anchor`.
    pub fn all(&self, anchor: Point) -> (r: Vec<Point>)
        requires
            shift_fits(anchor, self.offsets()),
        ensures
            r@ == shifted(anchor, self.offsets()),
    {
        let mut r: Vec<Point> = Vec::new();
        let mut k: usize = 0;
        while k < self.slice.len()
            invariant
                k <= self.slice@.len(),
                shift_fits(anchor, self.offsets()),
                r@ == shifted(anchor, self.slice@.take(k as int)),
            decreases self.slice@.len() - k,
        {
            let o = self.slice[k];
            assert(fits(anchor.x - self.slice@[k as int].x));
            r.push(anchor.sub(o));
            proof {
                assert(self.slice@.take(k + 1) =~= self.slice@.take(k as int).push(o));
                assert(shifted(anchor, self.slice@.take(k + 1)) =~= shifted(
                    anchor,
                    self.slice@.take(k as int),
                ).push(Point { x: (anchor.x - o.x) as i32, y: (anchor.y - o.y) as i32 }));
            }
            k = k + 1;
        }
        assert(self.slice@.take(self.slice@.len() as int) =~= self.slice@);
        r
    }

    /// The position of the first unit, or the origin.
    pub fn anchor(units: &[Unit]) -> (r: Point)
        ensures
            r == anchor_of(units@),
    {
        if units.len() > 0 {
            units[0].position
        } else {
            Point { x: 0, y: 0 }
        }
    }
}

/// The cells that a cube made of `units` moving by `m` runs into: each unit without a
/// neighbour on that side, moved one step that way, all shifted by `anchor - first`.
pub proof fn lemma_front_line(units: Seq<Unit>, m: Movement, anchor: Point)
    requires
        offsets_fit(units),
        shift_fits(anchor, side(units, lbtr(side_index(m)))),
    ensures
        ({
            let a = lbtr(side_index(m));
            let first = anchor_of(units);
            shifted(anchor, side(units, a)) == units.filter(
                |u: Unit| !u.neighborhood.spec_has(a),
            ).map_values(
                |u: Unit|
                    Point {
                        x: (anchor.x - first.x + u.position.x + a.spec_offset().0) as i32,
                        y: (anchor.y - first.y + u.position.y + a.spec_offset().1) as i32,
                    },
            )
        }),
{
    let a = lbtr(side_index(m));
    let first = anchor_of(units);
    let kept = units.filter(|u: Unit| !u.neighborhood.spec_has(a));
    let lhs = shifted(anchor, side(units, a));
    let rhs = kept.map_values(
        |u: Unit|
            Point {
                x: (anchor.x - first.x + u.position.x + a.spec_offset().0) as i32,
                y: (anchor.y - first.y + u.position.y + a.spec_offset().1) as i32,
            },
    );
    assert forall|k: int| 0 <= k < kept.len() implies lhs[k] == rhs[k] by {
        let u = kept[k];
        let o = outline_offset(first, u, a);
        assert(side(units, a)[k] == o);
        assert(kept.contains(u));
        units.lemma_filter_contains_rev(|u: Unit| !u.neighborhood.spec_has(a), u);
        units.lemma_filter_pred(|u: Unit| !u.neighborhood.spec_has(a), k);
        let j = choose|j: int| 0 <= j < units.len() && units[j] == u;
        assert(!units[j].neighborhood.spec_has(lbtr(side_index(m))));
        assert(fits(first.x - u.position.x - a.spec_offset().0));
        assert(fits(first.y - u.position.y - a.spec_offset().1));
        assert(fits(anchor.x - side(units, a)[k].x));
    }
    assert(lhs =~= rhs);
}

/// The frozen cubes and the places they take in a `width` by `height` area.
#[derive(Debug)]
pub struct Area {
    cubes: Vec<(Point, Neighborhood)>,
    impassable: BitmapCollision,
}

impl Area {
    pub closed spec fn wf(self) -> bool {
        let w = self.impassable.width();
        let h = self.impassable.height();
        &&& self.impassable.valid()
        &&& forall|q: Point| #[trigger] self.impassable.spec_holds(q) <==> in_bounds(w, h, q)
        &&& forall|q: Point|
            #[trigger] self.impassable.spec_hit(q) <==> (in_bounds(w, h, q) && points_of(
                self.cubes@,
            ).contains(q))
    }

    /// The cells in order, each with its neighbourhood.
    pub closed spec fn cells(self) -> Seq<(Point, Neighborhood)> {
        self.cubes@
    }

    pub closed spec fn width(self) -> int {
        self.impassable.width()
    }

    pub closed spec fn height(self) -> int {
        self.impassable.height()
    }

    /// The cells of `groups`, each group a cube, in a `width` by `height` area.
    pub fn new(width: usize, height: usize, groups: &[Vec<Point>]) -> (r: Area)
        requires
            width * height <= i32::MAX,
            width <= i32::MAX,
            height <= i32::MAX,
            forall|i: int, j: int|
                0 <= i < groups@.len() && 0 <= j < groups@[i]@.len() ==> interior(
                    #[trigger] groups@[i]@[j],
                ),
        ensures
            r.wf(),
            r.width() == width,
            r.height() == height,
            lists_cells(
                r.cells(),
                flat_cells(groups@.map_values(|g: Vec<Point>| g@)),
                groups@.map_values(|g: Vec<Point>| g@),
            ),
    {
        let cubes = cells_of(groups);
        let mut impassable = BitmapCollision::new(width, height);
        let mut k: usize = 0;
        while k < cubes.len()
            invariant
                k <= cubes@.len(),
                impassable.valid(),
                impassable.width() == width,
                impassable.height() == height,
                forall|q: Point|
                    #[trigger] impassable.spec_holds(q) <==> in_bounds(width as int, height as int, q),
                forall|q: Point|
                    #[trigger] impassable.spec_hit(q) <==> (in_bounds(width as int, height as int, q)
                        && points_of(cubes@.take(k as int)).contains(q)),
            decreases cubes@.len() - k,
        {
            impassable.put(cubes[k].0);
            proof {
                let s0 = points_of(cubes@.take(k as int));
                let s1 = points_of(cubes@.take(k + 1));
                assert(s1 =~= s0.push(cubes@[k as int].0));
                assert forall|q: Point|
                    #[trigger] impassable.spec_hit(q) <==> (in_bounds(width as int, height as int, q)
                        && s1.contains(q)) by {
                    vstd::seq_lib::lemma_seq_contains_after_push(s0, cubes@[k as int].0, q);
                }
            }
            k = k + 1;
        }
        proof {
            assert(cubes@.take(cubes@.len() as int) =~= cubes@);
        }
        Area { cubes, impassable }
    }

    /// A frozen cell takes `point`; points outside the area are not blocked here.
    pub fn blocked(&self, point: Point) -> (r: bool)
        requires
            self.wf(),
        ensures
            r == (in_bounds(self.width(), self.height(), point) && points_of(self.cells()).contains(
                point,
            )),
    {
        self.impassable.hit(point)
    }

    /// A cursor over the cells as white, free units numbered from `offset`.
    pub fn iter(&self, offset: usize) -> (r: AreaIter<'_>)
        requires
            offset + self.cells().len() <= usize::MAX,
        ensures
            r.wf(),
            r.cells() == self.cells(),
            r.offset() == offset,
            r.index() == 0,
    {
        AreaIter { cubes: &self.cubes, offset, index: 0 }
    }
}

/// A cursor over the cells of an `Area`.
pub struct AreaIter<'a> {
    cubes: &'a Vec<(Point, Neighborhood)>,
    offset: usize,
    index: usize,
}

impl<'a> AreaIter<'a> {
    pub closed spec fn wf(self) -> bool {
        self.offset + self.cubes@.len() <= usize::MAX
    }

    pub closed spec fn cells(self) -> Seq<(Point, Neighborhood)> {
        self.cubes@
    }

    pub closed spec fn offset(self) -> nat {
        self.offset as nat
    }

    pub closed spec fn index(self) -> nat {
        self.index as nat
    }

    /// The next cell as a white, free unit numbered by its place after the offset.
    pub fn next(&mut self) -> (r: Option<Item>)
        requires
            old(self).wf(),
        ensures
            final(self).wf(),
            final(self).cells() == old(self).cells(),
            final(self).offset() == old(self).offset(),
            old(self).index() < old(self).cells().len() ==> {
                let c = old(self).cells()[old(self).index() as int];
                &&& r == Some(
                    Item {
                        id: (old(self).index() + old(self).offset()) as usize,
                        kind: Kind::White,
                        position: c.0,
                        movement: None,
                        constraint: Constraint::Free,
                        neighborhood: c.1,
                    },
                )
                &&& final(self).index() == old(self).index() + 1
            },
            old(self).index() >= old(self).cells().len() ==> r is None && final(self).index()
                == old(self).index(),
    {
        if self.index < self.cubes.len() {
            let (position, neighborhood) = self.cubes[self.index];
            let item = Item {
                id: self.index + self.offset,
                kind: Kind::White,
                position,
                movement: None,
                constraint: Constraint::Free,
                neighborhood,
            };
            self.index = self.index + 1;
            Some(item)
        } else {
            None
        }
    }
}


/// A cube of the board: its cells, its motion and how it stands this turn.
#[derive(Debug)]
pub struct Cube {
    pub index: usize,
    pub kind: Kind,
    pub units: Vec<Unit>,
    pub motion: Motion,
    pub outlines: Outlines,
    /// It can neither absorb nor be absorbed.
    pub balanced: bool,
    /// Where it was told to go.
    pub movement: Option<Movement>,
    pub constraint: Constraint,
}

/// `c` with `index` in place of its index.
pub open spec fn with_index(c: Cube, index: usize) -> Cube {
    Cube {
        index,
        kind: c.kind,
        units: c.units,
        motion: c.motion,
        outlines: c.outlines,
        balanced: c.balanced,
        movement: c.movement,
        constraint: c.constraint,
    }
}

/// `c` told to go by `m`.
pub open spec fn with_movement(c: Cube, m: Option<Movement>) -> Cube {
    Cube {
        index: c.index,
        kind: c.kind,
        units: c.units,
        motion: c.motion,
        outlines: c.outlines,
        balanced: c.balanced,
        movement: m,
        constraint: c.constraint,
    }
}

/// `c` held back by `constraint`.
pub open spec fn with_constraint(c: Cube, constraint: Constraint) -> Cube {
    Cube {
        index: c.index,
        kind: c.kind,
        units: c.units,
        motion: c.motion,
        outlines: c.outlines,
        balanced: c.balanced,
        movement: c.movement,
        constraint,
    }
}

/// `c` marked balanced.
pub open spec fn with_balance(c: Cube) -> Cube {
    Cube {
        index: c.index,
        kind: c.kind,
        units: c.units,
        motion: c.motion,
        outlines: c.outlines,
        balanced: true,
        movement: c.movement,
        constraint: c.constraint,
    }
}

impl Cube {
    /// It still has cells.
    pub open spec fn spec_alive(self) -> bool {
        self.units@.len() > 0
    }

    /// It may still absorb or be absorbed.
    pub open spec fn spec_unstable(self) -> bool {
        !self.balanced && self.kind != Kind::White
    }

    /// The two may join: they link, or one absorbs the other and neither is balanced.
    pub open spec fn spec_mergeable(self, that: Cube) -> bool {
        spec_linkable(self.kind, that.kind) || ((spec_absorbable(self.kind, that.kind)
            || spec_absorbable(that.kind, self.kind)) && !self.balanced && !that.balanced)
    }

    pub fn alive(&self) -> (r: bool)
        ensures
            r == self.spec_alive(),
    {
        self.units.len() > 0
    }

    pub fn unstable(&self) -> (r: bool)
        ensures
            r == self.spec_unstable(),
    {
        !self.balanced && self.kind != Kind::White
    }

    pub fn linkable(&self, that: &Self) -> (r: bool)
        ensures
            r == spec_linkable(self.kind, that.kind),
    {
        self.kind.linkable(that.kind)
    }

    /// This cube can absorb `that`: neither is balanced and its colour absorbs the other.
    pub fn absorbable(&self, that: &Self) -> (r: bool)
        ensures
            r == (!self.balanced && !that.balanced && spec_absorbable(self.kind, that.kind)),
    {
        !self.balanced && !that.balanced && self.kind.absorbable(that.kind)
    }

    pub fn mergeable(&self, that: &Self) -> (r: bool)
        ensures
            r == self.spec_mergeable(*that),
    {
        self.kind.linkable(that.kind) || ((self.kind.absorbable(that.kind) || that.kind.absorbable(
            self.kind,
        )) && !self.balanced && !that.balanced)
    }

    pub fn same_movement(&self, that: &Self) -> (r: bool)
        ensures
            r == (self.movement == that.movement),
    {
        self.movement == that.movement
    }
}

/// The cubes of `s` from the end for as long as their index is not their place, each
/// given its place as index.
pub open spec fn reindexed(s: Seq<Cube>) -> Seq<Cube>
    decreases s.len(),
{
    if s.len() == 0 {
        s
    } else {
        let k = s.len() - 1;
        if s[k].index != k {
            reindexed(s.drop_last()).push(with_index(s[k], k as usize))
        } else {
            s
        }
    }
}

/// The cubes of a board over a frozen area.
pub struct Collection {
    area: Area,
    cube: Vec<Cube>,
    link: Vec<Vec<usize>>,
    view: Vec<Unit>,
}

impl Collection {
    /// The cubes in order.
    pub closed spec fn cubes(self) -> Seq<Cube> {
        self.cube@
    }

    /// The frozen area under the cubes.
    pub closed spec fn frozen(self) -> Area {
        self.area
    }

    /// The area is well formed.
    pub open spec fn wf(self) -> bool {
        self.frozen().wf()
    }

    /// A frozen cell takes `p`.
    pub open spec fn blocks(self, p: Point) -> bool {
        in_bounds(self.frozen().width(), self.frozen().height(), p) && points_of(
            self.frozen().cells(),
        ).contains(p)
    }

    pub fn new(area: Area, cube: Vec<Cube>) -> (r: Collection)
        ensures
            r.cubes() == cube@,
            r.frozen() == area,
    {
        Collection { area, cube, link: Vec::new(), view: Vec::new() }
    }

    /// The cube at place `k`.
    pub fn cube_at(&self, k: usize) -> (r: &Cube)
        requires
            k < self.cubes().len(),
        ensures
            *r == self.cubes()[k as int],
    {
        &self.cube[k]
    }

    /// A frozen cell takes `p`.
    pub fn blocked_at(&self, p: Point) -> (r: bool)
        requires
            self.wf(),
        ensures
            r == self.blocks(p),
    {
        self.area.blocked(p)
    }

    /// The cube at place `k` is stopped.
    pub fn stop(&mut self, k: usize)
        requires
            k < old(self).cubes().len(),
        ensures
            final(self).cubes() == old(self).cubes().update(k as int, with_constraint(old(self).cubes()[k as int], Constraint::Stop)),
            final(self).frozen() == old(self).frozen(),
    {
        let mut c = self.cube.remove(k);
        c.constraint = Constraint::Stop;
        self.cube.insert(k, c);
    }

    pub fn number_of_cubes(&self) -> (r: usize)
        ensures
            r == self.cubes().len(),
    {
        self.cube.len()
    }

    /// Every green cube is told to go by `input`.
    pub fn input(&mut self, input: Option<Movement>)
        ensures
            final(self).cubes().len() == old(self).cubes().len(),
            forall|k: int|
                0 <= k < old(self).cubes().len() ==> #[trigger] final(self).cubes()[k] == if old(
                    self,
                ).cubes()[k].kind == Kind::Green {
                    with_movement(old(self).cubes()[k], input)
                } else {
                    old(self).cubes()[k]
                },
    {
        let ghost before = self.cube@;
        let mut k: usize = 0;
        while k < self.cube.len()
            invariant
                k <= self.cube@.len(),
                self.cube@.len() == before.len(),
                forall|j: int|
                    0 <= j < k ==> #[trigger] self.cube@[j] == if before[j].kind == Kind::Green {
                        with_movement(before[j], input)
                    } else {
                        before[j]
                    },
                forall|j: int| k <= j < before.len() ==> #[trigger] self.cube@[j] == before[j],
            decreases self.cube@.len() - k,
        {
            if self.cube[k].kind == Kind::Green {
                let mut c = self.cube.remove(k);
                c.movement = input;
                self.cube.insert(k, c);
            }
            k = k + 1;
        }
    }

    /// Cubes without cells are dropped; the cubes after the first dropped one are given
    /// their new places as indices.
    pub fn bury(&mut self)
        ensures
            final(self).cubes() == reindexed(old(self).cubes().filter(|c: Cube| c.units@.len() > 0)),
    {
        let ghost all = self.cube@;
        let ghost alive = |c: Cube| c.units@.len() > 0;
        let mut k: usize = 0;
        let ghost mut seen: int = 0;
        while k < self.cube.len()
            invariant
                0 <= seen <= all.len(),
                self.cube@ == all.take(seen).filter(alive) + all.skip(seen),
                k == all.take(seen).filter(alive).len(),
                alive == (|c: Cube| c.units@.len() > 0),
            decreases self.cube@.len() - k,
        {
            proof {
                assert(all.skip(seen)[0] == self.cube@[k as int]);
                assert(all.take(seen + 1) =~= all.take(seen).push(all[seen]));
                all.take(seen).lemma_filter_push(all[seen], alive);
                assert(all.skip(seen).drop_first() =~= all.skip(seen + 1));
            }
            if self.cube[k].units.len() == 0 {
                self.cube.remove(k);
                proof {
                    assert(self.cube@ =~= all.take(seen + 1).filter(alive) + all.skip(seen + 1));
                }
            } else {
                proof {
                    assert(self.cube@ =~= all.take(seen + 1).filter(alive) + all.skip(seen + 1));
                }
                k = k + 1;
            }
            proof {
                seen = seen + 1;
            }
        }
        proof {
            assert(all.skip(seen).len() == 0);
            assert(all.take(seen) =~= all);
            assert(self.cube@ =~= all.filter(alive));
        }
        let ghost kept = self.cube@;
        let mut j: usize = self.cube.len();
        while j > 0
            invariant
                j <= kept.len(),
                self.cube@.len() == kept.len(),
                forall|i: int| 0 <= i < j ==> #[trigger] self.cube@[i] == kept[i],
                forall|i: int| j <= i < kept.len() ==> #[trigger] self.cube@[i] == with_index(kept[i], i as usize),
                forall|i: int| j <= i < kept.len() ==> #[trigger] kept[i].index != i,
            ensures
                j <= kept.len(),
                self.cube@.len() == kept.len(),
                forall|i: int| 0 <= i < j ==> #[trigger] self.cube@[i] == kept[i],
                forall|i: int| j <= i < kept.len() ==> #[trigger] self.cube@[i] == with_index(kept[i], i as usize),
                forall|i: int| j <= i < kept.len() ==> #[trigger] kept[i].index != i,
                j > 0 ==> kept[j - 1].index == j - 1,
            decreases j,
        {
            if self.cube[j - 1].index == j - 1 {
                break;
            }
            let mut c = self.cube.remove(j - 1);
            c.index = j - 1;
            self.cube.insert(j - 1, c);
            j = j - 1;
        }
        proof {
            lemma_reindexed_suffix(kept, j as int);
            assert(self.cube@ =~= reindexed(kept));
        }
    }

    /// The cubes of `whom` can neither absorb nor be absorbed any more.
    pub fn mark_balanced(&mut self, whom: &[usize])
        requires
            forall|i: int| 0 <= i < whom@.len() ==> #[trigger] whom@[i] < old(self).cubes().len(),
        ensures
            final(self).cubes().len() == old(self).cubes().len(),
            final(self).frozen() == old(self).frozen(),
            forall|k: int|
                0 <= k < old(self).cubes().len() ==> #[trigger] final(self).cubes()[k] == if whom@.contains(
                    k as usize,
                ) {
                    with_balance(old(self).cubes()[k])
                } else {
                    old(self).cubes()[k]
                },
    {
        let ghost before = self.cube@;
        let len = self.cube.len();
        let mut n: usize = 0;
        while n < whom.len()
            invariant
                n <= whom@.len(),
                len == before.len(),
                forall|i: int| 0 <= i < whom@.len() ==> #[trigger] whom@[i] < before.len(),
                self.cube@.len() == before.len(),
                self.area == old(self).area,
                forall|k: int|
                    0 <= k < before.len() ==> #[trigger] self.cube@[k] == if whom@.take(n as int).contains(
                        k as usize,
                    ) {
                        with_balance(before[k])
                    } else {
                        before[k]
                    },
            decreases whom@.len() - n,
        {
            let i = whom[n];
            let ghost prev = self.cube@;
            let mut c = self.cube.remove(i);
            c.balanced = true;
            self.cube.insert(i, c);
            proof {
                assert(self.cube@ =~= prev.update(i as int, c));
                assert(whom@.take(n + 1) =~= whom@.take(n as int).push(i));
                assert forall|k: int| 0 <= k < before.len() implies #[trigger] self.cube@[k] == if whom@.take(n + 1).contains(
                    k as usize,
                ) {
                    with_balance(before[k])
                } else {
                    before[k]
                } by {
                    vstd::seq_lib::lemma_seq_contains_after_push(whom@.take(n as int), i, k as usize);
                }
            }
            n = n + 1;
        }
        assert(whom@.take(whom@.len() as int) =~= whom@);
    }
}

proof fn lemma_reindexed_suffix(s: Seq<Cube>, j: int)
    requires
        0 <= j <= s.len(),
        forall|i: int| j <= i < s.len() ==> #[trigger] s[i].index != i,
        j > 0 ==> s[j - 1].index == j - 1,
    ensures
        reindexed(s) == s.take(j) + Seq::new((s.len() - j) as nat, |i: int| with_index(s[j + i], (j + i) as usize)),
    decreases s.len(),
{
    if s.len() == j {
        assert(s.take(j) =~= s);
        if s.len() > 0 {
            assert(s[s.len() - 1].index == s.len() - 1);
        }
        assert(reindexed(s) == s);
        assert(s.take(j) + Seq::new(0, |i: int| with_index(s[j + i], (j + i) as usize)) =~= s);
    } else {
        let t = s.drop_last();
        lemma_reindexed_suffix(t, j);
        assert(t.take(j) =~= s.take(j));
        assert(reindexed(s) =~= s.take(j) + Seq::new((s.len() - j) as nat, |i: int| with_index(s[j + i], (j + i) as usize)));
    }
}


/// What a group of cubes comes to: one colour absorbs the others, all three cancel out,
/// one colour alone, or nothing coloured.
#[derive(Clone, Copy, Debug, PartialEq, Eq, Structural)]
pub enum ArenaResult {
    Have(Kind),
    Draw,
    Pure(Kind),
    Nothing,
}

/// The place of a colour among red, blue and green.
pub open spec fn kind_slot(k: Kind) -> Option<usize> {
    match k {
        Kind::White => Option::None,
        Kind::Red => Some(0),
        Kind::Blue => Some(1),
        Kind::Green => Some(2),
    }
}

/// The result of a group in which red, blue and green were seen or not.
pub open spec fn arena_result(r: bool, b: bool, g: bool) -> ArenaResult {
    if r && b && g {
        ArenaResult::Draw
    } else if r && !b && g {
        ArenaResult::Have(Kind::Red)
    } else if r && b && !g {
        ArenaResult::Have(Kind::Blue)
    } else if !r && b && g {
        ArenaResult::Have(Kind::Green)
    } else if !r && !b && g {
        ArenaResult::Pure(Kind::Red)
    } else if !r && b && !g {
        ArenaResult::Pure(Kind::Blue)
    } else if r && !b && !g {
        ArenaResult::Pure(Kind::Green)
    } else {
        ArenaResult::Nothing
    }
}

/// Whether colour `k` is `k1` or `k2`.
pub open spec fn one_of(k: Kind, k1: Kind, k2: Kind) -> bool {
    k == k1 || k == k2
}

/// What colours meeting come to: all three cancel out, and only then; when exactly two
/// colours meet, the one that absorbs the other has the group.
pub proof fn lemma_arena_absorbs(r: bool, b: bool, g: bool, k1: Kind, k2: Kind)
    ensures
        (arena_result(r, b, g) == ArenaResult::Draw) <==> (r && b && g),
        arena_result(r, b, g) is Have ==> (r as int) + (b as int) + (g as int) == 2,
        k1 != Kind::White && k2 != Kind::White && k1 != k2 ==> {
            let res = arena_result(one_of(Kind::Red, k1, k2), one_of(Kind::Blue, k1, k2), one_of(Kind::Green, k1, k2));
            &&& spec_absorbable(k1, k2) ==> res == ArenaResult::Have(k1)
            &&& spec_absorbable(k2, k1) ==> res == ArenaResult::Have(k2)
            &&& (spec_absorbable(k1, k2) || spec_absorbable(k2, k1))
        },
{
}

/// The colours seen among some cubes of a collection.
pub struct Arena<'a> {
    seen: [bool; 3],
    cubes: &'a Vec<Cube>,
}

impl<'a> Arena<'a> {
    pub closed spec fn seen(self) -> Seq<bool> {
        self.seen@
    }

    pub closed spec fn cubes(self) -> Seq<Cube> {
        self.cubes@
    }

    /// No colour seen yet.
    pub fn new(collection: &'a Collection) -> (r: Arena<'a>)
        ensures
            r.seen() == seq![false, false, false],
            r.cubes() == collection.cubes(),
    {
        let r = Arena { seen: [false, false, false], cubes: &collection.cube };
        assert(r.seen() =~= seq![false, false, false]);
        r
    }

    /// Sees the colour of cube `i`, if there is such a cube; whether some colour is still
    /// unseen.
    pub fn input(&mut self, i: usize) -> (r: bool)
        requires
            old(self).seen().len() == 3,
        ensures
            final(self).cubes() == old(self).cubes(),
            final(self).seen() == (if i < old(self).cubes().len() && kind_slot(old(self).cubes()[i as int].kind) is Some {
                old(self).seen().update(kind_slot(old(self).cubes()[i as int].kind)->0 as int, true)
            } else {
                old(self).seen()
            }),
            final(self).seen().len() == 3,
            r == !(final(self).seen()[0] && final(self).seen()[1] && final(self).seen()[2]),
    {
        if i < self.cubes.len() {
            match Self::kind_to_index(self.cubes[i].kind) {
                Some(index) => {
                    self.seen[index] = true;
                    assert(self.seen@ =~= old(self).seen().update(index as int, true));
                },
                Option::None => {},
            }
        }
        !(self.seen[0] && self.seen[1] && self.seen[2])
    }

    /// What the colours seen come to.
    pub fn output(&self) -> (r: ArenaResult)
        ensures
            r == arena_result(self.seen()[0], self.seen()[1], self.seen()[2]),
    {
        match (self.seen[0], self.seen[1], self.seen[2]) {
            (true, true, true) => ArenaResult::Draw,
            (true, false, true) => ArenaResult::Have(Kind::Red),
            (true, true, false) => ArenaResult::Have(Kind::Blue),
            (false, true, true) => ArenaResult::Have(Kind::Green),
            (false, false, true) => ArenaResult::Pure(Kind::Red),
            (false, true, false) => ArenaResult::Pure(Kind::Blue),
            (true, false, false) => ArenaResult::Pure(Kind::Green),
            _ => ArenaResult::Nothing,
        }
    }

    /// The place of a colour among red, blue and green.
    pub fn kind_to_index(kind: Kind) -> (r: Option<usize>)
        ensures
            r == kind_slot(kind),
            r matches Some(x) ==> x < 3,
    {
        match kind {
            Kind::White => Option::None,
            Kind::Red => Some(0),
            Kind::Blue => Some(1),
            Kind::Green => Some(2),
        }
    }
}

/// The cells that the cubes of `from` hand over, in order; a cube named twice hands them
/// over once.
pub open spec fn gathered(cs: Seq<Cube>, from: Seq<usize>) -> Seq<Unit>
    decreases from.len(),
{
    if from.len() == 0 {
        Seq::empty()
    } else {
        let i = from.last();
        gathered(cs, from.drop_last()) + if from.drop_last().contains(i) {
            Seq::empty()
        } else {
            cs[i as int].units@
        }
    }
}

/// The motions of the cubes of `from` that have colour `kind`, in order, each cube once.
pub open spec fn gathered_motions(cs: Seq<Cube>, from: Seq<usize>, kind: Kind) -> Seq<Motion>
    decreases from.len(),
{
    if from.len() == 0 {
        Seq::empty()
    } else {
        let i = from.last();
        let before = gathered_motions(cs, from.drop_last(), kind);
        if cs[i as int].kind == kind && !from.drop_last().contains(i) {
            before.push(cs[i as int].motion)
        } else {
            before
        }
    }
}

/// The movements of the cubes of `from` that have colour `kind`, in order.
pub open spec fn voted(cs: Seq<Cube>, from: Seq<usize>, kind: Kind) -> Seq<Option<Movement>> {
    from.filter(|i: usize| cs[i as int].kind == kind).map_values(|i: usize| cs[i as int].movement)
}

/// The strongest of some constraints, `Free` for none.
pub open spec fn strongest(s: Seq<Constraint>) -> Constraint
    decreases s.len(),
{
    if s.len() == 0 {
        Constraint::Free
    } else {
        let m = strongest(s.drop_last());
        if spec_level(s.last()) > spec_level(m) {
            s.last()
        } else {
            m
        }
    }
}

/// The constraints of the cubes of `from` that have colour `kind`, in order.
pub open spec fn constraints_of(cs: Seq<Cube>, from: Seq<usize>, kind: Kind) -> Seq<Constraint> {
    from.filter(|i: usize| cs[i as int].kind == kind).map_values(|i: usize| cs[i as int].constraint)
}

/// `a` and `b` agree in everything but their cells and motion.
pub open spec fn same_but_cells(a: Cube, b: Cube) -> bool {
    &&& a.index == b.index
    &&& a.kind == b.kind
    &&& a.outlines == b.outlines
    &&& a.balanced == b.balanced
    &&& a.movement == b.movement
    &&& a.constraint == b.constraint
}

/// `after` is `cs` with the cubes of `from` made one cube of colour `kind` in the place
/// of the first: all their cells, the motions of those of that colour as a team, the
/// movement they agree on and the strongest constraint among them. The other cubes of
/// `from` keep nothing but their place, and the motion too if of another colour.
pub open spec fn linked_into(cs: Seq<Cube>, after: Seq<Cube>, from: Seq<usize>, kind: Kind) -> bool {
    &&& after.len() == cs.len()
    &&& from.len() > 0 ==> ({
        let c = after[from[0] as int];
        &&& c.index == from[0]
        &&& c.kind == kind
        &&& c.units@ == gathered(cs, from)
        &&& c.motion.is_team_of(gathered_motions(cs, from, kind).filter(|m: Motion| !m.is_stop()))
        &&& forall|i: int| 0 <= i < 4 ==> #[trigger] c.outlines.sides(i) == side(gathered(cs, from), lbtr(i))
        &&& !c.balanced
        &&& c.movement == match vote_of(voted(cs, from, kind)) {
            Some(Some(m)) => m,
            _ => Option::None,
        }
        &&& c.constraint == strongest(constraints_of(cs, from, kind))
    })
    &&& forall|k: int|
        0 <= k < cs.len() && (from.len() == 0 || k != from[0]) ==> {
            let c = #[trigger] after[k];
            let o = cs[k];
            if from.contains(k as usize) {
                &&& same_but_cells(c, o)
                &&& c.units@.len() == 0
                &&& if o.kind == kind { c.motion.is_stop() } else { c.motion == o.motion }
            } else {
                c == o
            }
        }
}

/// The number of cells of the cubes before place `m` for which `inside` holds.
pub open spec fn cells_among(cs: Seq<Cube>, m: int, inside: spec_fn(int) -> bool) -> int
    decreases m,
{
    if m <= 0 {
        0
    } else {
        cells_among(cs, m - 1, inside) + if inside(m - 1) {
            cs[m - 1].units@.len() as int
        } else {
            0
        }
    }
}

/// The number of cells of all the cubes.
pub open spec fn cell_count(cs: Seq<Cube>) -> int {
    cells_among(cs, cs.len() as int, |k: int| true)
}

/// Two boards whose cubes below `m` have as many cells count alike.
pub(crate) proof fn lemma_cells_among_lengths(a: Seq<Cube>, b: Seq<Cube>, m: int, p: spec_fn(int) -> bool)
    requires
        forall|k: int| 0 <= k < m && p(k) ==> #[trigger] a[k].units@.len() == b[k].units@.len(),
    ensures
        cells_among(a, m, p) == cells_among(b, m, p),
    decreases m,
{
    if m > 0 {
        lemma_cells_among_lengths(a, b, m - 1, p);
    }
}

/// The cells of all cubes are those inside a predicate and those outside it.
proof fn lemma_cells_among_split(cs: Seq<Cube>, m: int, p: spec_fn(int) -> bool)
    ensures
        cells_among(cs, m, |k: int| true) == cells_among(cs, m, p) + cells_among(cs, m, |k: int| !p(k)),
    decreases m,
{
    if m > 0 {
        lemma_cells_among_split(cs, m - 1, p);
    }
}

/// Adding one place `i` to a predicate adds its cells, if it was not counted yet.
proof fn lemma_cells_among_add(cs: Seq<Cube>, m: int, p: spec_fn(int) -> bool, q: spec_fn(int) -> bool, i: int)
    requires
        forall|k: int| 0 <= k < m ==> #[trigger] q(k) == (p(k) || k == i),
    ensures
        cells_among(cs, m, q) == cells_among(cs, m, p) + if 0 <= i < m && !p(i) {
            cs[i].units@.len() as int
        } else {
            0
        },
    decreases m,
{
    if m > 0 {
        lemma_cells_among_add(cs, m - 1, p, q, i);
    }
}

/// The cells gathered from `from` are as many as the cells of the cubes it names.
proof fn lemma_gathered_count(cs: Seq<Cube>, from: Seq<usize>)
    requires
        forall|n: int| 0 <= n < from.len() ==> #[trigger] from[n] < cs.len(),
        cs.len() <= usize::MAX,
    ensures
        gathered(cs, from).len() == cells_among(cs, cs.len() as int, |k: int| from.contains(k as usize)),
    decreases from.len(),
{
    let n = cs.len() as int;
    if from.len() == 0 {
        lemma_cells_among_zero(cs, n, |k: int| from.contains(k as usize));
    } else {
        let rest = from.drop_last();
        let i = from.last();
        assert forall|x: int| 0 <= x < rest.len() implies #[trigger] rest[x] < cs.len() by {
            assert(rest[x] == from[x]);
        }
        lemma_gathered_count(cs, rest);
        let pf = |k: int| from.contains(k as usize);
        let pr = |k: int| rest.contains(k as usize);
        assert forall|k: int| 0 <= k < n implies #[trigger] pf(k) == (pr(k) || k == i as int) by {
            if from.contains(k as usize) {
                let x = choose|x: int| 0 <= x < from.len() && from[x] == k as usize;
                if x < rest.len() {
                    assert(rest[x] == from[x]);
                }
            }
            if rest.contains(k as usize) {
                let x = choose|x: int| 0 <= x < rest.len() && rest[x] == k as usize;
                assert(from[x] == rest[x]);
            }
            if k == i as int {
                assert(from[from.len() - 1] == i);
            }
        }
        lemma_cells_among_add(cs, n, pr, pf, i as int);
        assert(from[from.len() - 1] == i);
    }
}

/// Counting by a predicate that nothing meets gives nothing.
proof fn lemma_cells_among_zero(cs: Seq<Cube>, m: int, p: spec_fn(int) -> bool)
    requires
        forall|k: int| 0 <= k < m ==> !#[trigger] p(k),
    ensures
        cells_among(cs, m, p) == 0,
    decreases m,
{
    if m > 0 {
        lemma_cells_among_zero(cs, m - 1, p);
    }
}

/// If every place below `m` that `p` holds but `f` has no cells, the count by `p` is
/// the cells of `f`, if `p` holds there.
proof fn lemma_cells_among_one(cs: Seq<Cube>, m: int, p: spec_fn(int) -> bool, f: int)
    requires
        forall|k: int| 0 <= k < m && p(k) && k != f ==> #[trigger] cs[k].units@.len() == 0,
    ensures
        cells_among(cs, m, p) == if 0 <= f < m && p(f) {
            cs[f].units@.len() as int
        } else {
            0
        },
    decreases m,
{
    if m > 0 {
        lemma_cells_among_one(cs, m - 1, p, f);
    }
}

/// Linking cubes into one keeps the number of cells.
pub(crate) proof fn lemma_linked_count(cs: Seq<Cube>, after: Seq<Cube>, from: Seq<usize>, kind: Kind)
    requires
        linked_into(cs, after, from, kind),
        forall|n: int| 0 <= n < from.len() ==> #[trigger] from[n] < cs.len(),
        cs.len() <= usize::MAX,
    ensures
        cell_count(after) == cell_count(cs),
{
    let n = cs.len() as int;
    let p = |k: int| from.contains(k as usize);
    let np = |k: int| !p(k);
    lemma_cells_among_split(cs, n, p);
    lemma_cells_among_split(after, n, p);
    assert(cells_among(cs, n, |k: int| !p(k)) == cells_among(cs, n, np));
    assert(cells_among(after, n, |k: int| !p(k)) == cells_among(after, n, np));
    assert forall|k: int| 0 <= k < n && np(k) implies #[trigger] after[k].units@.len() == cs[k].units@.len() by {
        if from.len() > 0 {
            assert(k != from[0] as int) by {
                assert(p(from[0] as int));
            }
        }
    }
    lemma_cells_among_lengths(after, cs, n, np);
    if from.len() == 0 {
        lemma_cells_among_zero(cs, n, p);
        lemma_cells_among_zero(after, n, p);
    } else {
        let f = from[0] as int;
        assert forall|k: int| 0 <= k < n && p(k) && k != f implies #[trigger] after[k].units@.len() == 0 by {}
        lemma_cells_among_one(after, n, p, f);
        assert(p(f));
        lemma_gathered_count(cs, from);
    }
}

impl Collection {
    /// The cubes of `from` become one cube of colour `kind` in the place of the first:
    /// all their cells, the motions of those of that colour as a team, the movement they
    /// agree on and the strongest constraint among them. The others keep nothing.
    pub fn link_into_first(&mut self, from: &[usize], kind: Kind)
        requires
            forall|n: int| 0 <= n < from@.len() ==> #[trigger] from@[n] < old(self).cubes().len(),
            offsets_fit(gathered(old(self).cubes(), from@)),
        ensures
            linked_into(old(self).cubes(), final(self).cubes(), from@, kind),
            final(self).frozen() == old(self).frozen(),
    {
        let ghost cs = self.cube@;
        let len = self.cube.len();
        // gather the cells
        let mut units: Vec<Unit> = Vec::new();
        let mut n: usize = 0;
        while n < from.len()
            invariant
                self.area == old(self).area,
                n <= from@.len(),
                len == cs.len(),
                forall|n: int| 0 <= n < from@.len() ==> #[trigger] from@[n] < cs.len(),
                self.cube@.len() == cs.len(),
                units@ == gathered(cs, from@.take(n as int)),
                forall|k: int| 0 <= k < cs.len() && !from@.take(n as int).contains(k as usize) ==> #[trigger] self.cube@[k] == cs[k],
                forall|k: int|
                    0 <= k < cs.len() ==> {
                        let c = #[trigger] self.cube@[k];
                        &&& same_but_cells(c, cs[k])
                        &&& c.motion == cs[k].motion
                        &&& c.units@ == if from@.take(n as int).contains(k as usize) {
                            Seq::<Unit>::empty()
                        } else {
                            cs[k].units@
                        }
                    },
            decreases from@.len() - n,
        {
            let i = from[n];
            let ghost prev = self.cube@;
            let mut c = self.cube.remove(i);
            units.append(&mut c.units);
            self.cube.insert(i, c);
            proof {
                assert(self.cube@ =~= prev.update(i as int, c));
                assert(from@.take(n + 1) =~= from@.take(n as int).push(i));
                assert(from@.take(n + 1).drop_last() =~= from@.take(n as int));
                assert forall|k: int| 0 <= k < cs.len() implies #[trigger] from@.take(n + 1).contains(k as usize) == (from@.take(n as int).contains(k as usize) || k == i) by {
                    vstd::seq_lib::lemma_seq_contains_after_push(from@.take(n as int), i, k as usize);
                }
            }
            n = n + 1;
        }
        proof {
            assert(from@.take(from@.len() as int) =~= from@);
        }
        // take the motions of the given colour
        let mut others: Vec<Motion> = Vec::new();
        let ghost after_cells = self.cube@;
        let mut n: usize = 0;
        while n < from.len()
            invariant
                self.area == old(self).area,
                n <= from@.len(),
                len == cs.len(),
                forall|n: int| 0 <= n < from@.len() ==> #[trigger] from@[n] < cs.len(),
                self.cube@.len() == cs.len(),
                others@.filter(|m: Motion| !m.is_stop()) == gathered_motions(cs, from@.take(n as int), kind).filter(
                    |m: Motion| !m.is_stop(),
                ),
                forall|k: int| 0 <= k < cs.len() && !from@.contains(k as usize) ==> #[trigger] self.cube@[k] == cs[k],
                forall|k: int|
                    0 <= k < cs.len() ==> {
                        let c = #[trigger] self.cube@[k];
                        &&& same_but_cells(c, cs[k])
                        &&& c.units@ == after_cells[k].units@
                        &&& if from@.take(n as int).contains(k as usize) && cs[k].kind == kind {
                            c.motion.is_stop()
                        } else {
                            c.motion == cs[k].motion
                        }
                    },
            decreases from@.len() - n,
        {
            let i = from[n];
            proof {
                assert(from@.take(n + 1) =~= from@.take(n as int).push(i));
                assert(from@.take(n + 1).drop_last() =~= from@.take(n as int));
                assert forall|k: int| 0 <= k < cs.len() implies #[trigger] from@.take(n + 1).contains(k as usize) == (from@.take(n as int).contains(k as usize) || k == i) by {
                    vstd::seq_lib::lemma_seq_contains_after_push(from@.take(n as int), i, k as usize);
                }
            }
            if self.cube[i].kind == kind {
                let ghost prev = self.cube@;
                let ghost before_others = others@;
                let mut c = self.cube.remove(i);
                let m = c.motion.take();
                others.push(m);
                self.cube.insert(i, c);
                proof {
                    assert(self.cube@ =~= prev.update(i as int, c));
                    let keep = |m: Motion| !m.is_stop();
                    before_others.lemma_filter_push(m, keep);
                    let g0 = gathered_motions(cs, from@.take(n as int), kind);
                    if from@.take(n as int).contains(i) {
                        assert(prev[i as int].motion.is_stop());
                        assert(m.is_stop());
                    } else {
                        assert(m == cs[i as int].motion);
                        g0.lemma_filter_push(m, keep);
                    }
                }
            }
            n = n + 1;
        }
        proof {
            assert(from@.take(from@.len() as int) =~= from@);
        }
        let motion = Motion::from_iter(others);
        let outlines = Outlines::new(units.as_slice());
        let ghost after_motions = self.cube@;
        // the movement they agree on
        let mut agreement = Agreement::new();
        let mut n: usize = 0;
        while n < from.len()
            invariant
                self.area == old(self).area,
                n <= from@.len(),
                forall|n: int| 0 <= n < from@.len() ==> #[trigger] from@[n] < cs.len(),
                self.cube@.len() == cs.len(),
                forall|k: int| 0 <= k < cs.len() ==> same_but_cells(#[trigger] self.cube@[k], cs[k]),
                self.cube@ == after_motions,
                agreement@ == vote_of(voted(cs, from@.take(n as int), kind)),
            decreases from@.len() - n,
        {
            let i = from[n];
            proof {
                let p = |i: usize| cs[i as int].kind == kind;
                let f = |i: usize| cs[i as int].movement;
                assert(from@.take(n + 1) =~= from@.take(n as int).push(i));
                from@.take(n as int).lemma_filter_push(i, p);
                assert(same_but_cells(self.cube@[i as int], cs[i as int]));
                if p(i) {
                    assert(from@.take(n as int).filter(p).push(i).map_values(f) =~= from@.take(n as int).filter(p).map_values(f).push(f(i)));
                    assert(voted(cs, from@.take(n + 1), kind).drop_last() =~= voted(cs, from@.take(n as int), kind));
                }
            }
            if self.cube[i].kind == kind {
                agreement.submit(self.cube[i].movement);
            }
            n = n + 1;
        }
        proof {
            assert(from@.take(from@.len() as int) =~= from@);
        }
        let movement = match agreement.result() {
            Some(m) => m,
            Option::None => Option::None,
        };
        // the strongest constraint
        let mut constraint = Constraint::Free;
        let mut n: usize = 0;
        while n < from.len()
            invariant
                self.area == old(self).area,
                n <= from@.len(),
                forall|n: int| 0 <= n < from@.len() ==> #[trigger] from@[n] < cs.len(),
                self.cube@.len() == cs.len(),
                forall|k: int| 0 <= k < cs.len() ==> same_but_cells(#[trigger] self.cube@[k], cs[k]),
                self.cube@ == after_motions,
                constraint == strongest(constraints_of(cs, from@.take(n as int), kind)),
            decreases from@.len() - n,
        {
            let i = from[n];
            proof {
                let p = |i: usize| cs[i as int].kind == kind;
                let f = |i: usize| cs[i as int].constraint;
                assert(from@.take(n + 1) =~= from@.take(n as int).push(i));
                from@.take(n as int).lemma_filter_push(i, p);
                assert(same_but_cells(self.cube@[i as int], cs[i as int]));
                if p(i) {
                    assert(from@.take(n as int).filter(p).push(i).map_values(f) =~= from@.take(n as int).filter(p).map_values(f).push(f(i)));
                    assert(constraints_of(cs, from@.take(n + 1), kind).drop_last() =~= constraints_of(cs, from@.take(n as int), kind));
                }
            }
            if self.cube[i].kind == kind {
                if self.cube[i].constraint.level() > constraint.level() {
                    constraint = self.cube[i].constraint;
                }
            }
            n = n + 1;
        }
        proof {
            assert(from@.take(from@.len() as int) =~= from@);
        }
        if from.len() > 0 {
            let index = from[0];
            let ghost prev = self.cube@;
            let _old = self.cube.remove(index);
            self.cube.insert(
                index,
                Cube { index, kind, units, motion, outlines, balanced: false, movement, constraint },
            );
            proof {
                assert(self.cube@ =~= prev.update(index as int, self.cube@[index as int]));
            }
        }
    }
}


/// A live cube that was told where to go.
pub struct Moving<'a> {
    pub cube: &'a Cube,
    pub movement: Movement,
}

impl<'a> Moving<'a> {
    /// The cube as a moving one, if it has cells and a movement.
    pub fn new(cube: &'a Cube) -> (r: Option<Moving<'a>>)
        ensures
            r matches Some(m) ==> m.cube == cube && Some(m.movement) == cube.movement,
            r is Some <==> cube.spec_alive() && cube.movement is Some,
    {
        if !cube.alive() {
            Option::None
        } else {
            match cube.movement {
                Some(movement) => Some(Moving { cube, movement }),
                Option::None => Option::None,
            }
        }
    }

    /// The cells that the cube runs into.
    pub fn frontlines(&self) -> (r: Vec<Point>)
        requires
            self.cube.outlines.wf(),
            shift_fits(anchor_of(self.cube.units@), self.cube.outlines.offsets()),
        ensures
            r@ == shifted(anchor_of(self.cube.units@), self.cube.outlines.sides(side_index(self.movement))),
    {
        let anchor = Outlines::anchor(self.cube.units.as_slice());
        self.cube.outlines.one(anchor, self.movement)
    }
}

} // verus!