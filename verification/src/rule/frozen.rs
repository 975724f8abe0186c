use vstd::prelude::*;

use super::lookup::{BitmapCollision, Collision};
use crate::common::neighborhood::{interior, neighbor, Adjacence, Neighborhood};
use crate::common::point::Point;
use crate::refactor::lookup as cells;
use crate::refactor::lookup::{in_bounds, Collision as _, CollisionExtension};

verus! {

/// Each point of each group, with the index of its group, group after group.
pub open spec fn flat_cells(gs: Seq<Seq<Point>>) -> Seq<(Point, int)>
    decreases gs.len(),
{
    if gs.len() == 0 {
        Seq::empty()
    } else {
        let last = gs.len() - 1;
        flat_cells(gs.drop_last()) + gs.last().map_values(|p: Point| (p, last))
    }
}

/// `n` marks exactly the neighbours of `p` that lie in `g`.
pub open spec fn marks_neighbors(n: Neighborhood, g: Seq<Point>, p: Point) -> bool {
    &&& forall|d: Adjacence|
        d != Adjacence::NONE ==> (n.spec_has(d) <==> g.contains(#[trigger] neighbor(p, d)))
    &&& !n.spec_has(Adjacence::NONE)
}

/// `cs` lists the points of `f` in order, each with the neighbours it has in its own group.
pub open spec fn lists_cells(cs: Seq<(Point, Neighborhood)>, f: Seq<(Point, int)>, gs: Seq<Seq<Point>>) -> bool {
    &&& cs.len() == f.len()
    &&& forall|k: int|
        0 <= k < cs.len() ==> {
            &&& (#[trigger] cs[k]).0 == f[k].0
            &&& 0 <= f[k].1 < gs.len()
            &&& marks_neighbors(cs[k].1, gs[f[k].1], f[k].0)
        }
}

/// The points of a list of cells.
pub open spec fn points_of(cs: Seq<(Point, Neighborhood)>) -> Seq<Point> {
    cs.map_values(|c: (Point, Neighborhood)| c.0)
}

/// The cubes that never move, and the places they take in a `width` by `height` area.
#[derive(Debug)]
pub struct Frozen {
    unchanged: Vec<(Point, Neighborhood)>,
    collision: BitmapCollision,
}

proof fn lemma_flat_cells_step(gs: Seq<Seq<Point>>, i: int)
    requires
        0 <= i < gs.len(),
    ensures
        flat_cells(gs.take(i + 1)) == flat_cells(gs.take(i)) + gs[i].map_values(|p: Point| (p, i)),
{
    assert(gs.take(i + 1).drop_last() =~= gs.take(i));
}

/// The cells of `groups`, each group a cube: every point with the neighbours it has in
/// its own group.
pub(crate) fn cells_of(groups: &[Vec<Point>]) -> (r: Vec<(Point, Neighborhood)>)
    requires
        forall|i: int, j: int|
            0 <= i < groups@.len() && 0 <= j < groups@[i]@.len() ==> interior(
                #[trigger] groups@[i]@[j],
            ),
    ensures
        lists_cells(
            r@,
            flat_cells(groups@.map_values(|g: Vec<Point>| g@)),
            groups@.map_values(|g: Vec<Point>| g@),
        ),
{
        let ghost gs = groups@.map_values(|g: Vec<Point>| g@);
        let mut cubes: Vec<(Point, Neighborhood)> = Vec::new();
        let mut i: usize = 0;
        while i < groups.len()
            invariant
                i <= groups@.len(),
                gs == groups@.map_values(|g: Vec<Point>| g@),
                forall|a: int, b: int|
                    0 <= a < groups@.len() && 0 <= b < groups@[a]@.len() ==> interior(
                        #[trigger] groups@[a]@[b],
                    ),
                lists_cells(cubes@, flat_cells(gs.take(i as int)), gs),
            decreases groups@.len() - i,
        {
            let os = groups[i].as_slice();
            let c = cells::HashSetCollision::new(os);
            let ghost start = cubes@;
            let mut j: usize = 0;
            while j < os.len()
                invariant
                    i < groups@.len(),
                    j <= os@.len(),
                    os@ == gs[i as int],
                    gs == groups@.map_values(|g: Vec<Point>| g@),
                    forall|b: int| 0 <= b < os@.len() ==> interior(#[trigger] os@[b]),
                    c.valid(),
                    forall|p: Point| #[trigger] c.spec_hit(p) <==> os@.contains(p),
                    lists_cells(
                        cubes@,
                        flat_cells(gs.take(i as int)) + os@.take(j as int).map_values(
                            |p: Point| (p, i as int),
                        ),
                        gs,
                    ),
                decreases os@.len() - j,
            {
                let o = os[j];
                assert(interior(groups@[i as int]@[j as int]));
                let n = c.neighborhood(o);
                let ghost before = cubes@;
                cubes.push((o, n));
                proof {
                    let f0 = flat_cells(gs.take(i as int)) + os@.take(j as int).map_values(
                        |p: Point| (p, i as int),
                    );
                    let f1 = flat_cells(gs.take(i as int)) + os@.take(j + 1).map_values(
                        |p: Point| (p, i as int),
                    );
                    assert(os@.take(j + 1) =~= os@.take(j as int).push(o));
                    assert(f1 =~= f0.push((o, i as int)));
                    assert forall|k: int| 0 <= k < cubes@.len() implies {
                        &&& (#[trigger] cubes@[k]).0 == f1[k].0
                        &&& 0 <= f1[k].1 < gs.len()
                        &&& marks_neighbors(cubes@[k].1, gs[f1[k].1], f1[k].0)
                    } by {
                        if k < before.len() {
                            assert(cubes@[k] == before[k]);
                        }
                    }
                }
                j = j + 1;
            }
            proof {
                assert(os@.take(os@.len() as int) =~= os@);
                lemma_flat_cells_step(gs, i as int);
            }
            i = i + 1;
        }
        proof {
            assert(gs.take(gs.len() as int) =~= gs);
        }
    cubes
}

impl Frozen {
    pub closed spec fn wf(self) -> bool {
        let w = self.collision.width();
        let h = self.collision.height();
        &&& self.collision.valid()
        &&& forall|q: Point| #[trigger] self.collision.spec_holds(q) <==> in_bounds(w, h, q)
        &&& forall|q: Point|
            #[trigger] self.collision.spec_occupied(q) <==> (in_bounds(w, h, q) && points_of(
                self.unchanged@,
            ).contains(q))
    }

    /// The cells in order, each with its neighbourhood.
    pub closed spec fn cells(self) -> Seq<(Point, Neighborhood)> {
        self.unchanged@
    }

    pub closed spec fn width(self) -> int {
        self.collision.width()
    }

    pub closed spec fn height(self) -> int {
        self.collision.height()
    }

    /// The cells of `groups`, each group a cube, in a `width` by `height` area.
    pub fn new(width: usize, height: usize, groups: &[Vec<Point>]) -> (r: Frozen)
        requires
            width * height <= i32::MAX,
            width <= i32::MAX,
            height <= i32::MAX,
            forall|i: int, j: int|
                0 <= i < groups@.len() && 0 <= j < groups@[i]@.len() ==> interior(
                    #[trigger] groups@[i]@[j],
                ),
        ensures
            r.wf(),
            r.width() == width,
            r.height() == height,
            lists_cells(
                r.cells(),
                flat_cells(groups@.map_values(|g: Vec<Point>| g@)),
                groups@.map_values(|g: Vec<Point>| g@),
            ),
    {
        let cubes = cells_of(groups);
        let mut collision = BitmapCollision::new(width, height);
        let mut k: usize = 0;
        while k < cubes.len()
            invariant
                k <= cubes@.len(),
                collision.valid(),
                collision.width() == width,
                collision.height() == height,
                forall|q: Point|
                    #[trigger] collision.spec_holds(q) <==> in_bounds(width as int, height as int, q),
                forall|q: Point|
                    #[trigger] collision.spec_occupied(q) <==> (in_bounds(
                        width as int,
                        height as int,
                        q,
                    ) && points_of(cubes@.take(k as int)).contains(q)),
            decreases cubes@.len() - k,
        {
            let ghost before = collision;
            collision.put(cubes[k].0);
            proof {
                let s0 = points_of(cubes@.take(k as int));
                let s1 = points_of(cubes@.take(k + 1));
                assert(s1 =~= s0.push(cubes@[k as int].0));
                assert forall|q: Point|
                    #[trigger] collision.spec_occupied(q) <==> (in_bounds(
                        width as int,
                        height as int,
                        q,
                    ) && s1.contains(q)) by {
                    vstd::seq_lib::lemma_seq_contains_after_push(s0, cubes@[k as int].0, q);
                }
            }
            k = k + 1;
        }
        proof {
            assert(cubes@.take(cubes@.len() as int) =~= cubes@);
        }
        Frozen { unchanged: cubes, collision }
    }

    /// A point is blocked when it lies outside the area or a frozen cell takes it.
    pub fn blocked(&self, point: Point) -> (r: bool)
        requires
            self.wf(),
        ensures
            r == (!in_bounds(self.width(), self.height(), point) || points_of(
                self.cells(),
            ).contains(point)),
    {
        !self.collision.available(point)
    }

    /// The cells in order, each with its neighbourhood.
    pub fn iter(&self) -> (r: Vec<(Point, Neighborhood)>)
        ensures
            r@ == self.cells(),
    {
        let mut r: Vec<(Point, Neighborhood)> = Vec::new();
        let mut i: usize = 0;
        while i < self.unchanged.len()
            invariant
                i <= self.unchanged@.len(),
                r@ == self.unchanged@.take(i as int),
            decreases self.unchanged@.len() - i,
        {
            r.push(self.unchanged[i]);
            proof {
                assert(self.unchanged@.take(i + 1) =~= self.unchanged@.take(i as int).push(
                    self.unchanged@[i as int],
                ));
            }
            i = i + 1;
        }
        assert(self.unchanged@.take(self.unchanged@.len() as int) =~= self.unchanged@);
        r
    }

    /// The cell at `i`.
    pub(crate) fn cell(&self, i: usize) -> (r: (Point, Neighborhood))
        requires
            i < self.cells().len(),
        ensures
            r == self.cells()[i as int],
    {
        self.unchanged[i]
    }

    /// The number of cells.
    pub fn len(&self) -> (r: usize)
        ensures
            r == self.cells().len(),
    {
        self.unchanged.len()
    }
}

} // verus!
