use vstd::prelude::*;

use super::location::{Location, Point};
use super::lookup::{key_of, keys_of, Existence};
use super::vicinity::{Adjacence, Vicinity};
use crate::common::neighborhood::around;

verus! {

/// A rectangle by its edges.
#[derive(Clone, Copy, Debug, Default, PartialEq, Eq, Structural)]
pub struct Rect {
    pub left: i32,
    pub right: i32,
    pub top: i32,
    pub bottom: i32,
}

/// The least of `s`, or zero when `s` is empty.
pub open spec fn lowest(s: Seq<i32>) -> i32
    decreases s.len(),
{
    if s.len() == 0 {
        0
    } else if s.len() == 1 {
        s[0]
    } else {
        let m = lowest(s.drop_last());
        if s.last() < m {
            s.last()
        } else {
            m
        }
    }
}

/// The greatest of `s`, or zero when `s` is empty.
pub open spec fn highest(s: Seq<i32>) -> i32
    decreases s.len(),
{
    if s.len() == 0 {
        0
    } else if s.len() == 1 {
        s[0]
    } else {
        let m = highest(s.drop_last());
        if s.last() > m {
            s.last()
        } else {
            m
        }
    }
}

pub open spec fn xs(s: Seq<Point>) -> Seq<i32> {
    s.map_values(|p: Point| p.x)
}

pub open spec fn ys(s: Seq<Point>) -> Seq<i32> {
    s.map_values(|p: Point| p.y)
}

/// The smallest rectangle that holds every point of `s`; all zero when `s` is empty.
pub open spec fn bounds(s: Seq<Point>) -> Rect {
    Rect { left: lowest(xs(s)), right: highest(xs(s)), top: lowest(ys(s)), bottom: highest(ys(s)) }
}

/// `p` moved so that `r`'s top left corner is the origin.
pub open spec fn relative(p: Point, r: Rect) -> Point {
    Point { x: (p.x - r.left) as i32, y: (p.y - r.top) as i32 }
}

/// The points of `s` spread over less than the range of an `i32` in each axis.
pub open spec fn spread_fits(s: Seq<Point>) -> bool {
    forall|i: int, j: int|
        0 <= i < s.len() && 0 <= j < s.len() ==> (#[trigger] s[i]).x - (#[trigger] s[j]).x < i32::MAX
            && s[i].y - s[j].y < i32::MAX
}

/// `v` marks exactly the neighbours of `o` whose key is in `keys`.
pub open spec fn marks_around(v: Vicinity, keys: Set<u64>, o: Point) -> bool {
    forall|i: int|
        0 <= i < 8 ==> (v.spec_has(#[trigger] around(i)) <==> keys.contains(
            key_of(
                Point {
                    x: (o.x + around(i).spec_offset().0) as i32,
                    y: (o.y + around(i).spec_offset().1) as i32,
                },
            ),
        ))
}

proof fn lemma_bounds_step(s: Seq<i32>, k: int)
    requires
        0 < k < s.len(),
    ensures
        lowest(s.take(k + 1)) == (if s[k] < lowest(s.take(k)) { s[k] } else { lowest(s.take(k)) }),
        highest(s.take(k + 1)) == (if s[k] > highest(s.take(k)) { s[k] } else { highest(s.take(k)) }),
{
    assert(s.take(k + 1).drop_last() =~= s.take(k));
}

proof fn lemma_bounds_hold(s: Seq<i32>)
    ensures
        forall|i: int| 0 <= i < s.len() ==> lowest(s) <= #[trigger] s[i] <= highest(s),
        s.len() > 0 ==> exists|i: int| 0 <= i < s.len() && #[trigger] s[i] == lowest(s),
        s.len() > 0 ==> exists|i: int| 0 <= i < s.len() && #[trigger] s[i] == highest(s),
    decreases s.len(),
{
    if s.len() > 1 {
        lemma_bounds_hold(s.drop_last());
        assert forall|i: int| 0 <= i < s.len() implies lowest(s) <= #[trigger] s[i] <= highest(s) by {
            if i < s.len() - 1 {
                assert(s[i] == s.drop_last()[i]);
            }
        }
        if s.last() < lowest(s.drop_last()) {
            assert(s[s.len() - 1] == lowest(s));
        } else {
            let i = choose|i: int| 0 <= i < s.drop_last().len() && #[trigger] s.drop_last()[i] == lowest(s.drop_last());
            assert(s[i] == lowest(s));
        }
        if s.last() > highest(s.drop_last()) {
            assert(s[s.len() - 1] == highest(s));
        } else {
            let i = choose|i: int| 0 <= i < s.drop_last().len() && #[trigger] s.drop_last()[i] == highest(s.drop_last());
            assert(s[i] == highest(s));
        }
    } else if s.len() == 1 {
        assert(s[0] == lowest(s));
    }
}

/// The rectangle around `s`.
fn bounds_of(s: &Vec<Point>) -> (r: Rect)
    ensures
        r == bounds(s@),
{
    if s.len() == 0 {
        return Rect { left: 0, right: 0, top: 0, bottom: 0 };
    }
    let mut r = Rect { left: s[0].x, right: s[0].x, top: s[0].y, bottom: s[0].y };
    proof {
        assert(xs(s@).take(1) =~= seq![s@[0].x]);
        assert(ys(s@).take(1) =~= seq![s@[0].y]);
    }
    let mut k: usize = 1;
    while k < s.len()
        invariant
            1 <= k <= s@.len(),
            r == bounds(s@.take(k as int)),
        decreases s@.len() - k,
    {
        let p = s[k];
        proof {
            assert(xs(s@.take(k as int)) =~= xs(s@).take(k as int));
            assert(ys(s@.take(k as int)) =~= ys(s@).take(k as int));
            assert(xs(s@.take(k + 1)) =~= xs(s@).take(k + 1));
            assert(ys(s@.take(k + 1)) =~= ys(s@).take(k + 1));
            lemma_bounds_step(xs(s@), k as int);
            lemma_bounds_step(ys(s@), k as int);
        }
        if p.x < r.left {
            r.left = p.x;
        }
        if p.x > r.right {
            r.right = p.x;
        }
        if p.y < r.top {
            r.top = p.y;
        }
        if p.y > r.bottom {
            r.bottom = p.y;
        }
        k = k + 1;
    }
    assert(s@.take(s@.len() as int) =~= s@);
    r
}

/// Every point of `s` moved so that the top left corner of its rectangle is the origin.
fn normalized(s: &Vec<Point>, rect: Rect) -> (r: Vec<Point>)
    requires
        rect == bounds(s@),
        spread_fits(s@),
    ensures
        r@ == s@.map_values(|p: Point| relative(p, rect)),
        forall|k: int| 0 <= k < r@.len() ==> 0 <= (#[trigger] r@[k]).x < i32::MAX && 0 <= r@[k].y < i32::MAX,
{
    proof {
        lemma_bounds_hold(xs(s@));
        lemma_bounds_hold(ys(s@));
    }
    let mut r: Vec<Point> = Vec::new();
    let mut k: usize = 0;
    while k < s.len()
        invariant
            k <= s@.len(),
            rect == bounds(s@),
            spread_fits(s@),
            forall|i: int| 0 <= i < s@.len() ==> rect.left <= #[trigger] xs(s@)[i] <= rect.right,
            forall|i: int| 0 <= i < s@.len() ==> rect.top <= #[trigger] ys(s@)[i] <= rect.bottom,
            s@.len() > 0 ==> exists|i: int| 0 <= i < s@.len() && #[trigger] xs(s@)[i] == rect.left,
            s@.len() > 0 ==> exists|i: int| 0 <= i < s@.len() && #[trigger] ys(s@)[i] == rect.top,
            r@ == s@.take(k as int).map_values(|p: Point| relative(p, rect)),
            forall|i: int| 0 <= i < r@.len() ==> 0 <= (#[trigger] r@[i]).x < i32::MAX && 0 <= r@[i].y < i32::MAX,
        decreases s@.len() - k,
    {
        let p = s[k];
        proof {
            assert(xs(s@)[k as int] == p.x);
            assert(ys(s@)[k as int] == p.y);
            let i = choose|i: int| 0 <= i < s@.len() && #[trigger] xs(s@)[i] == rect.left;
            let j = choose|j: int| 0 <= j < s@.len() && #[trigger] ys(s@)[j] == rect.top;
            assert(s@[k as int].x - s@[i].x < i32::MAX);
            assert(s@[k as int].y - s@[j].y < i32::MAX);
        }
        r.push(Point { x: p.x - rect.left, y: p.y - rect.top });
        proof {
            assert(s@.take(k + 1).map_values(|p: Point| relative(p, rect)) =~= s@.take(k as int).map_values(
                |p: Point| relative(p, rect),
            ).push(relative(p, rect)));
        }
        k = k + 1;
    }
    assert(s@.take(s@.len() as int) =~= s@);
    r
}

/// The neighbours of `o` whose key is among the keys of `lookup`.
fn vicinity_in(o: Point, lookup: &Existence) -> (r: Vicinity)
    requires
        0 <= o.x < i32::MAX,
        0 <= o.y < i32::MAX,
    ensures
        marks_around(r, lookup@, o),
{
    let mut v = Vicinity::new();
    assert(forall|m: u8| #[trigger] (0u8 & m) == 0) by (bit_vector);
    let mut i: usize = 0;
    while i < 8
        invariant
            i <= 8,
            0 <= o.x < i32::MAX,
            0 <= o.y < i32::MAX,
            forall|j: int| 0 <= j < i ==> (v.spec_has(#[trigger] around(j)) <==> lookup@.contains(
                key_of(Point { x: (o.x + around(j).spec_offset().0) as i32, y: (o.y + around(j).spec_offset().1) as i32 }),
            )),
            forall|j: int| i <= j < 8 ==> !v.spec_has(#[trigger] around(j)),
        decreases 8 - i,
    {
        let a = crate::common::neighborhood::adjacence_at(i);
        let q = o.near(a);
        let ghost before = v;
        if lookup.has(q) {
            v.set(a);
            proof {
                assert forall|j: int| 0 <= j < 8 implies (v.spec_has(#[trigger] around(j)) <==> (around(j) == a || before.spec_has(around(j)))) by {
                    crate::common::neighborhood::lemma_set_has(before.0, a, around(j));
                }
            }
        }
        proof {
            assert forall|j: int| 0 <= j < 8 && j != i implies around(j) != a by {}
        }
        i = i + 1;
    }
    v
}

/// A cell of a cube with the neighbours it has in the cube.
#[derive(Clone, Copy, Debug, Default)]
pub struct Unit {
    pub v: Vicinity,
    pub o: Point,
}

impl Location for Unit {
    open spec fn spec_x(&self) -> i32 {
        self.o.x
    }

    open spec fn spec_y(&self) -> i32 {
        self.o.y
    }

    fn x(&self) -> (r: i32) {
        self.o.x
    }

    fn y(&self) -> (r: i32) {
        self.o.y
    }
}

/// The places of some items.
pub open spec fn places_of<T: Location>(it: Seq<T>) -> Seq<Point> {
    it.map_values(|o: T| Point { x: o.spec_x(), y: o.spec_y() })
}

/// The places of some items, in order.
fn places<T: Location>(it: &[T]) -> (r: Vec<Point>)
    ensures
        r@ == places_of(it@),
{
    let mut r: Vec<Point> = Vec::new();
    let mut k: usize = 0;
    while k < it.len()
        invariant
            k <= it@.len(),
            r@ == places_of(it@.take(k as int)),
        decreases it@.len() - k,
    {
        r.push(Point::from(&it[k]));
        proof {
            assert(places_of(it@.take(k + 1)) =~= places_of(it@.take(k as int)).push(
                Point { x: it@[k as int].spec_x(), y: it@[k as int].spec_y() },
            ));
        }
        k = k + 1;
    }
    assert(it@.take(it@.len() as int) =~= it@);
    r
}

/// The cells of a cube, moved so that its rectangle starts at the origin, each with its
/// neighbours.
pub struct United {
    pub rect: Rect,
    pub units: Vec<Unit>,
    pub lookup: Existence,
}

impl United {
    /// No cells.
    pub fn new() -> (r: United)
        ensures
            r.rect == (Rect { left: 0, right: 0, top: 0, bottom: 0 }),
            r.units@.len() == 0,
            r.lookup@ == Set::<u64>::empty(),
    {
        let empty: Vec<Point> = Vec::new();
        let lookup = Existence::new(empty.as_slice());
        assert(keys_of(empty@).to_set() =~= Set::<u64>::empty());
        United { rect: Rect { left: 0, right: 0, top: 0, bottom: 0 }, units: Vec::new(), lookup }
    }

    /// The cube whose cells are at the places of `it`.
    pub fn from<T: Location>(it: &[T]) -> (r: United)
        requires
            spread_fits(places_of(it@)),
        ensures
            r.rect == bounds(places_of(it@)),
            r.units@.len() == it@.len(),
            forall|k: int| 0 <= k < it@.len() ==> (#[trigger] r.units@[k]).o == relative(places_of(it@)[k], r.rect),
            r.lookup@ == keys_of(places_of(it@).map_values(|p: Point| relative(p, r.rect))).to_set(),
            forall|k: int| 0 <= k < it@.len() ==> marks_around((#[trigger] r.units@[k]).v, r.lookup@, r.units@[k].o),
    {
        let points = places(it);
        let rect = bounds_of(&points);
        let moved = normalized(&points, rect);
        let lookup = Existence::new(moved.as_slice());
        let mut units: Vec<Unit> = Vec::new();
        let mut k: usize = 0;
        while k < moved.len()
            invariant
                k <= moved@.len(),
                moved@ == points@.map_values(|p: Point| relative(p, rect)),
                forall|i: int| 0 <= i < moved@.len() ==> 0 <= (#[trigger] moved@[i]).x < i32::MAX && 0 <= moved@[i].y < i32::MAX,
                units@.len() == k,
                forall|i: int| 0 <= i < k ==> (#[trigger] units@[i]).o == moved@[i],
                forall|i: int| 0 <= i < k ==> marks_around((#[trigger] units@[i]).v, lookup@, units@[i].o),
            decreases moved@.len() - k,
        {
            let o = moved[k];
            let v = vicinity_in(o, &lookup);
            units.push(Unit { v, o });
            k = k + 1;
        }
        United { rect, units, lookup }
    }
}

/// The cells of a cube, moved so that its rectangle starts at the origin.
pub struct Unibody {
    pub rect: Rect,
    pub units: Vec<Point>,
    pub lookup: Existence,
}

impl Unibody {
    /// The cube whose cells are at the places of `it`.
    pub fn from<T: Location>(it: &[T]) -> (r: Unibody)
        requires
            spread_fits(places_of(it@)),
        ensures
            r.rect == bounds(places_of(it@)),
            r.units@ == places_of(it@).map_values(|p: Point| relative(p, r.rect)),
            r.lookup@ == keys_of(r.units@).to_set(),
            forall|k: int| 0 <= k < r.units@.len() ==> 0 <= (#[trigger] r.units@[k]).x < i32::MAX && 0 <= r.units@[k].y < i32::MAX,
    {
        let points = places(it);
        let rect = bounds_of(&points);
        let units = normalized(&points, rect);
        let lookup = Existence::new(units.as_slice());
        Unibody { rect, units, lookup }
    }

    /// Each cell with the neighbours it has in the cube.
    pub fn calculate_patterns(&self) -> (r: Vec<(Point, Vicinity)>)
        requires
            forall|k: int| 0 <= k < self.units@.len() ==> 0 <= (#[trigger] self.units@[k]).x < i32::MAX && 0 <= self.units@[k].y < i32::MAX,
        ensures
            r@.len() == self.units@.len(),
            forall|k: int| 0 <= k < r@.len() ==> (#[trigger] r@[k]).0 == self.units@[k] && marks_around(r@[k].1, self.lookup@, r@[k].0),
    {
        let mut r: Vec<(Point, Vicinity)> = Vec::new();
        let mut k: usize = 0;
        while k < self.units.len()
            invariant
                k <= self.units@.len(),
                forall|k: int| 0 <= k < self.units@.len() ==> 0 <= (#[trigger] self.units@[k]).x < i32::MAX && 0 <= self.units@[k].y < i32::MAX,
                r@.len() == k,
                forall|i: int| 0 <= i < k ==> (#[trigger] r@[i]).0 == self.units@[i] && marks_around(r@[i].1, self.lookup@, r@[i].0),
            decreases self.units@.len() - k,
        {
            let o = self.units[k];
            let v = vicinity_in(o, &self.lookup);
            r.push((o, v));
            k = k + 1;
        }
        r
    }
}

} // verus!
