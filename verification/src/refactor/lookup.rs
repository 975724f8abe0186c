use vstd::prelude::*;

use std::collections::{HashMap, HashSet};

use crate::common::neighborhood::{interior, neighbor, neighborhood_with, Adjacence, Neighborhood};
use crate::common::point::Point;

verus! {

broadcast use vstd::std_specs::hash::group_hash_axioms;

/// A record of occupied points.
pub trait Collision {
    /// The record is in a usable state.
    spec fn valid(&self) -> bool;

    /// `p` is recorded as occupied.
    spec fn spec_hit(&self, p: Point) -> bool;

    /// `p` can be recorded at all.
    spec fn spec_holds(&self, p: Point) -> bool;

    /// Whether `point` is recorded as occupied.
    fn hit(&self, point: Point) -> (r: bool)
        requires
            self.valid(),
        ensures
            r == self.spec_hit(point);

    /// Records `point` as occupied, if it can be recorded.
    fn put(&mut self, point: Point)
        requires
            old(self).valid(),
        ensures
            final(self).valid(),
            forall|q: Point|
                #[trigger] final(self).spec_hit(q) == (old(self).spec_hit(q) || (q == point
                    && old(self).spec_holds(point))),
            forall|q: Point| #[trigger] final(self).spec_holds(q) == old(self).spec_holds(q);
}

/// The key of a point: `x` in the high half and `y` in the low half, both as 32 bits.
pub open spec fn point_key(p: Point) -> u64 {
    ((p.x as u32 as u64) << 32u64) | (p.y as u32 as u64)
}

fn key(p: Point) -> (r: u64)
    ensures
        r == point_key(p),
{
    ((p.x as u32 as u64) << 32u64) | (p.y as u32 as u64)
}

/// Different points have different keys.
pub proof fn lemma_point_key_injective(a: Point, b: Point)
    ensures
        point_key(a) == point_key(b) <==> a == b,
{
    let (ax, ay, bx, by) = (a.x, a.y, b.x, b.y);
    assert(((((ax as u32 as u64) << 32u64) | (ay as u32 as u64)) == (((bx as u32 as u64) << 32u64)
        | (by as u32 as u64))) ==> ax == bx && ay == by) by (bit_vector);
}

/// Occupied points kept in a hash set; any point can be recorded.
pub struct HashSetCollision(HashSet<u64>);

impl HashSetCollision {
    /// The points of `it`, occupied.
    pub fn new(it: &[Point]) -> (r: HashSetCollision)
        ensures
            forall|p: Point| #[trigger] r.spec_hit(p) <==> it@.contains(p),
            forall|p: Point| #[trigger] r.spec_holds(p),
            r.valid(),
    {
        let mut r = HashSetCollision(HashSet::new());
        let mut i: usize = 0;
        while i < it.len()
            invariant
                i <= it@.len(),
                forall|p: Point| #[trigger] r.spec_hit(p) <==> it@.take(i as int).contains(p),
                r.valid(),
            decreases it@.len() - i,
        {
            let ghost before = r;
            r.put(it[i]);
            proof {
                let t0 = it@.take(i as int);
                let t1 = it@.take(i + 1);
                assert(t1 =~= t0.push(it@[i as int]));
                assert forall|p: Point| #[trigger] r.spec_hit(p) <==> t1.contains(p) by {
                    if t0.contains(p) {
                        let j = choose|j: int| 0 <= j < t0.len() && t0[j] == p;
                        assert(t1[j] == p);
                    }
                    if t1.contains(p) && p != it@[i as int] {
                        let j = choose|j: int| 0 <= j < t1.len() && t1[j] == p;
                        assert(t0[j] == p);
                    }
                    if p == it@[i as int] {
                        assert(t1[i as int] == p);
                    }
                }
            }
            i = i + 1;
        }
        assert(it@.take(it@.len() as int) =~= it@);
        r
    }
}

impl Collision for HashSetCollision {
    closed spec fn valid(&self) -> bool {
        true
    }

    closed spec fn spec_hit(&self, p: Point) -> bool {
        self.0@.contains(point_key(p))
    }

    closed spec fn spec_holds(&self, p: Point) -> bool {
        true
    }

    fn hit(&self, point: Point) -> (r: bool) {
        self.0.contains(&key(point))
    }

    fn put(&mut self, point: Point) {
        self.0.insert(key(point));
        proof {
            assert forall|q: Point|
                #[trigger] self.spec_hit(q) == (old(self).spec_hit(q) || (q == point && old(
                    self,
                ).spec_holds(point))) by {
                lemma_point_key_injective(q, point);
            }
        }
    }
}

/// Bits per word of a bitmap.
pub const UNIT: usize = 64;

/// Occupied points kept in a bitmap over a `width` by `height` rectangle at the origin;
/// points outside it cannot be recorded.
#[derive(Debug)]
pub struct BitmapCollision {
    width: i32,
    height: i32,
    bits: Vec<u64>,
}

/// `p` lies in the `w` by `h` rectangle at the origin.
pub open spec fn in_bounds(w: int, h: int, p: Point) -> bool {
    0 <= p.x < w && 0 <= p.y < h
}

/// The place of an in-bounds point in the bitmap, row by row.
pub open spec fn cell_index(w: int, p: Point) -> int {
    p.x + p.y * w
}

/// Bit `d` of `word` is set.
pub open spec fn bit_set(word: u64, d: int) -> bool {
    word & (1u64 << (d as u64)) != 0
}

proof fn lemma_bit_or(w: u64, d: u64, e: u64)
    requires
        d < 64,
        e < 64,
    ensures
        (w | (1u64 << d)) & (1u64 << e) != 0 <==> (w & (1u64 << e) != 0 || d == e),
        0u64 & (1u64 << e) == 0,
{
    assert((w | (1u64 << d)) & (1u64 << e) != 0 <==> (w & (1u64 << e) != 0 || d == e)) by (bit_vector)
        requires
            d < 64,
            e < 64,
    ;
    assert(0u64 & (1u64 << e) == 0) by (bit_vector);
}

/// Two in-bounds points share a cell index only if they are the same point.
proof fn lemma_cell_index_injective(w: int, h: int, a: Point, b: Point)
    requires
        in_bounds(w, h, a),
        in_bounds(w, h, b),
        cell_index(w, a) == cell_index(w, b),
    ensures
        a == b,
{
    if a.y < b.y {
        assert(a.y * w + w <= b.y * w) by (nonlinear_arith)
            requires
                a.y < b.y,
                w > 0,
        ;
    } else if a.y > b.y {
        assert(b.y * w + w <= a.y * w) by (nonlinear_arith)
            requires
                b.y < a.y,
                w > 0,
        ;
    }
}

/// An in-bounds cell index is below `w * h`.
proof fn lemma_cell_index_bound(w: int, h: int, p: Point)
    requires
        in_bounds(w, h, p),
    ensures
        0 <= cell_index(w, p) < w * h,
{
    assert(0 <= p.x + p.y * w < w * h) by (nonlinear_arith)
        requires
            0 <= p.x < w,
            0 <= p.y < h,
    ;
}

impl BitmapCollision {
    pub closed spec fn wf(self) -> bool {
        let w = self.width as int;
        let h = self.height as int;
        &&& 0 <= w
        &&& 0 <= h
        &&& w * h <= i32::MAX
        &&& w * h <= self.bits@.len() * 64
    }


    pub closed spec fn width(self) -> int {
        self.width as int
    }

    pub closed spec fn height(self) -> int {
        self.height as int
    }

    /// An empty bitmap over the `width` by `height` rectangle at the origin.
    pub fn new(width: usize, height: usize) -> (r: BitmapCollision)
        requires
            width * height <= i32::MAX,
            width <= i32::MAX,
            height <= i32::MAX,
        ensures
            r.wf(),
            r.width() == width,
            r.height() == height,
            r.valid(),
            forall|p: Point| !#[trigger] r.spec_hit(p),
            forall|p: Point| #[trigger] r.spec_holds(p) <==> in_bounds(width as int, height as int, p),
    {
        let w = if width > 1 {
            width
        } else {
            1
        };
        let h = if height > 1 {
            height
        } else {
            1
        };
        proof {
            assert(w * h <= i32::MAX + 1) by (nonlinear_arith)
                requires
                    width * height <= i32::MAX,
                    width <= i32::MAX,
                    height <= i32::MAX,
                    w == (if width > 1 { width } else { 1 }),
                    h == (if height > 1 { height } else { 1 }),
            ;
            assert(width * height <= w * h) by (nonlinear_arith)
                requires
                    w >= width,
                    h >= height,
            ;
        }
        let size = (w * h + UNIT - 1) / UNIT;
        let mut bits: Vec<u64> = Vec::new();
        let mut i: usize = 0;
        while i < size
            invariant
                i <= size,
                bits@.len() == i,
                forall|j: int| 0 <= j < i ==> bits@[j] == 0,
            decreases size - i,
        {
            bits.push(0);
            i = i + 1;
        }
        let r = BitmapCollision {
            width: width as i32,
            height: height as i32,
            bits,
        };
        proof {
            assert forall|p: Point| !r.spec_hit(p) by {
                if in_bounds(width as int, height as int, p) {
                    lemma_cell_index_bound(width as int, height as int, p);
                    let c = cell_index(width as int, p);
                    lemma_bit_or(0, 0, (c % 64) as u64);
                }
            }
        }
        r
    }

    /// Whether `point` lies in the rectangle.
    pub(crate) fn holds(&self, point: Point) -> (r: bool)
        requires
            self.valid(),
        ensures
            r == self.spec_holds(point),
    {
        self.collapse(point).is_some()
    }

    /// The word and bit of an in-bounds point; `None` outside.
    fn collapse(&self, point: Point) -> (r: Option<(usize, usize)>)
        requires
            self.wf(),
        ensures
            in_bounds(self.width(), self.height(), point) ==> r == Some(
                (
                    (cell_index(self.width(), point) / 64) as usize,
                    (cell_index(self.width(), point) % 64) as usize,
                ),
            ),
            !in_bounds(self.width(), self.height(), point) ==> r is None,
            r matches Some((i, d)) ==> i < self.bits@.len() && d < 64,
    {
        if 0 <= point.x && point.x < self.width && 0 <= point.y && point.y < self.height {
            proof {
                lemma_cell_index_bound(self.width as int, self.height as int, point);
                assert(point.y * self.width <= self.width * self.height) by (nonlinear_arith)
                    requires
                        0 <= point.y < self.height,
                        self.width >= 0,
                ;
            }
            let index = (point.x + point.y * self.width) as usize;
            Some((index / UNIT, index % UNIT))
        } else {
            None
        }
    }
}

impl Collision for BitmapCollision {
    closed spec fn valid(&self) -> bool {
        self.wf()
    }

    closed spec fn spec_hit(&self, p: Point) -> bool {
        let w = self.width as int;
        in_bounds(w, self.height as int, p) && bit_set(
            self.bits@[cell_index(w, p) / 64],
            cell_index(w, p) % 64,
        )
    }

    closed spec fn spec_holds(&self, p: Point) -> bool {
        in_bounds(self.width as int, self.height as int, p)
    }

    fn hit(&self, point: Point) -> (r: bool) {
        match self.collapse(point) {
            Some((index, delta)) => {
                proof {
                    lemma_cell_index_bound(self.width as int, self.height as int, point);
                }
                self.bits[index] & (1u64 << (delta as u64)) != 0
            },
            None => false,
        }
    }

    fn put(&mut self, point: Point)
        ensures
            final(self).width() == old(self).width(),
            final(self).height() == old(self).height(),
    {
        if let Some((index, delta)) = self.collapse(point) {
            let ghost w = self.width as int;
            let ghost h = self.height as int;
            let ghost old_bits = self.bits@;
            let ghost c = cell_index(w, point);
            let word = self.bits[index] | (1u64 << (delta as u64));
            self.bits.set(index, word);
            proof {
                lemma_cell_index_bound(w, h, point);
                assert forall|p: Point| #[trigger] self.spec_hit(p) == (old(self).spec_hit(p) || (p
                    == point && old(self).spec_holds(point))) by {
                    if in_bounds(w, h, p) {
                        lemma_cell_index_bound(w, h, p);
                        let cp = cell_index(w, p);
                        if cp / 64 == index as int {
                            lemma_bit_or(old_bits[index as int], delta as u64, (cp % 64) as u64);
                            if cp % 64 == delta as int {
                                assert(cp == c);
                                lemma_cell_index_injective(w, h, p, point);
                            }
                            if p == point {
                                assert(cp % 64 == delta as int);
                            }
                        }
                    }
                }
            }
        }
    }
}

/// What a record of occupied points tells of the cells around a point.
pub trait CollisionExtension: Collision {
    /// The neighbours of `point` that are recorded as occupied.
    fn neighborhood(&self, point: Point) -> (r: Neighborhood)
        requires
            self.valid(),
            interior(point),
        ensures
            forall|d: Adjacence|
                d != Adjacence::NONE ==> (r.spec_has(d) <==> self.spec_hit(
                    #[trigger] neighbor(point, d),
                )),
            !r.spec_has(Adjacence::NONE),
    ;
}

impl<T: Collision> CollisionExtension for T {
    fn neighborhood(&self, point: Point) -> (r: Neighborhood) {
        let hit = |q: Point| -> (b: bool)
            requires
                self.valid(),
            ensures
                b == self.spec_hit(q),
            { self.hit(q) };
        neighborhood_with(point, &hit, Ghost(|q: Point| self.spec_hit(q)))
    }
}

/// Which cube takes each point.
pub struct Faction(HashMap<u64, usize>);

impl Faction {
    /// The cube recorded at `p`, if any.
    pub closed spec fn owner_of(self, p: Point) -> Option<usize> {
        if self.0@.contains_key(point_key(p)) {
            Some(self.0@[point_key(p)])
        } else {
            None
        }
    }

    /// Nothing recorded; `capacity` is a hint of the number of points.
    pub fn with_capacity(capacity: usize) -> (r: Faction)
        ensures
            forall|p: Point| #[trigger] r.owner_of(p) is None,
    {
        Faction(HashMap::with_capacity(capacity))
    }

    /// Records cube `index` at `point`, in place of what was recorded there.
    pub fn put(&mut self, point: Point, index: usize)
        ensures
            forall|p: Point| #[trigger] final(self).owner_of(p) == if p == point {
                Some(index)
            } else {
                old(self).owner_of(p)
            },
    {
        self.0.insert(key(point), index);
        proof {
            assert forall|p: Point| #[trigger] self.owner_of(p) == if p == point {
                Some(index)
            } else {
                old(self).owner_of(p)
            } by {
                lemma_point_key_injective(p, point);
            }
        }
    }

    /// The cube recorded at `point`, if any.
    pub fn get(&self, point: Point) -> (r: Option<usize>)
        ensures
            r == self.owner_of(point),
    {
        match self.0.get(&key(point)) {
            Some(v) => Some(*v),
            None => None,
        }
    }
}

} // verus!
