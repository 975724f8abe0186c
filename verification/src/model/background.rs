use vstd::prelude::*;

use super::item::Item;
use super::lookup::{key_of, keys_of, Collision};
use super::types::Kind;
use crate::common::neighborhood::{interior, neighbor, Adjacence, Neighborhood};
use crate::common::point::Point;
use crate::rule::frozen::{flat_cells, points_of};

verus! {

/// `n` marks exactly the neighbours of `p` whose key is among the keys of `g`.
pub open spec fn marks_keys(n: Neighborhood, g: Seq<Point>, p: Point) -> bool {
    &&& forall|d: Adjacence|
        d != Adjacence::NONE ==> (n.spec_has(d) <==> keys_of(g).contains(
            key_of(#[trigger] neighbor(p, d)),
        ))
    &&& !n.spec_has(Adjacence::NONE)
}

/// `cs` lists the points of `f` in order, each marked with the neighbours that its own
/// group holds by key.
pub open spec fn lists_key_cells(
    cs: Seq<(Point, Neighborhood)>,
    f: Seq<(Point, int)>,
    gs: Seq<Seq<Point>>,
) -> bool {
    &&& cs.len() == f.len()
    &&& forall|k: int|
        0 <= k < cs.len() ==> {
            &&& (#[trigger] cs[k]).0 == f[k].0
            &&& 0 <= f[k].1 < gs.len()
            &&& marks_keys(cs[k].1, gs[f[k].1], f[k].0)
        }
}

proof fn lemma_flat_cells_step(gs: Seq<Seq<Point>>, i: int)
    requires
        0 <= i < gs.len(),
    ensures
        flat_cells(gs.take(i + 1)) == flat_cells(gs.take(i)) + gs[i].map_values(|p: Point| (p, i)),
{
    assert(gs.take(i + 1).drop_last() =~= gs.take(i));
}

/// The cubes that never move, with their neighbourhoods, and a lookup of their places.
pub struct Background {
    units: Vec<(Point, Neighborhood)>,
    block: Collision,
}

impl Background {
    pub closed spec fn wf(self) -> bool {
        forall|k: u64| #[trigger] self.block@.contains(k) <==> keys_of(points_of(self.units@)).contains(k)
    }

    /// The cells in order, each with its neighbourhood.
    pub closed spec fn cells(self) -> Seq<(Point, Neighborhood)> {
        self.units@
    }

    /// The cells of `groups`, each group a cube.
    pub fn new(groups: &[Vec<Point>]) -> (r: Background)
        requires
            forall|i: int, j: int|
                0 <= i < groups@.len() && 0 <= j < groups@[i]@.len() ==> interior(
                    #[trigger] groups@[i]@[j],
                ),
        ensures
            r.wf(),
            lists_key_cells(
                r.cells(),
                flat_cells(groups@.map_values(|g: Vec<Point>| g@)),
                groups@.map_values(|g: Vec<Point>| g@),
            ),
    {
        let ghost gs = groups@.map_values(|g: Vec<Point>| g@);
        let mut units: Vec<(Point, Neighborhood)> = Vec::new();
        let mut i: usize = 0;
        while i < groups.len()
            invariant
                i <= groups@.len(),
                gs == groups@.map_values(|g: Vec<Point>| g@),
                forall|a: int, b: int|
                    0 <= a < groups@.len() && 0 <= b < groups@[a]@.len() ==> interior(
                        #[trigger] groups@[a]@[b],
                    ),
                lists_key_cells(units@, flat_cells(gs.take(i as int)), gs),
            decreases groups@.len() - i,
        {
            let points = groups[i].as_slice();
            let collision = Collision::new(points);
            let mut j: usize = 0;
            while j < points.len()
                invariant
                    i < groups@.len(),
                    j <= points@.len(),
                    points@ == gs[i as int],
                    gs == groups@.map_values(|g: Vec<Point>| g@),
                    forall|b: int| 0 <= b < points@.len() ==> interior(#[trigger] points@[b]),
                    forall|k: u64| collision@.contains(k) <==> keys_of(points@).contains(k),
                    lists_key_cells(
                        units@,
                        flat_cells(gs.take(i as int)) + points@.take(j as int).map_values(
                            |p: Point| (p, i as int),
                        ),
                        gs,
                    ),
                decreases points@.len() - j,
            {
                let point = points[j];
                assert(interior(groups@[i as int]@[j as int]));
                let n = collision.neighborhood(point);
                let ghost before = units@;
                units.push((point, n));
                proof {
                    let f0 = flat_cells(gs.take(i as int)) + points@.take(j as int).map_values(
                        |p: Point| (p, i as int),
                    );
                    let f1 = flat_cells(gs.take(i as int)) + points@.take(j + 1).map_values(
                        |p: Point| (p, i as int),
                    );
                    assert(points@.take(j + 1) =~= points@.take(j as int).push(point));
                    assert(f1 =~= f0.push((point, i as int)));
                    assert forall|k: int| 0 <= k < units@.len() implies {
                        &&& (#[trigger] units@[k]).0 == f1[k].0
                        &&& 0 <= f1[k].1 < gs.len()
                        &&& marks_keys(units@[k].1, gs[f1[k].1], f1[k].0)
                    } by {
                        if k < before.len() {
                            assert(units@[k] == before[k]);
                        }
                    }
                }
                j = j + 1;
            }
            proof {
                assert(points@.take(points@.len() as int) =~= points@);
                lemma_flat_cells_step(gs, i as int);
            }
            i = i + 1;
        }
        proof {
            assert(gs.take(gs.len() as int) =~= gs);
        }
        let mut all: Vec<Point> = Vec::new();
        let mut k: usize = 0;
        while k < units.len()
            invariant
                k <= units@.len(),
                all@ == points_of(units@.take(k as int)),
            decreases units@.len() - k,
        {
            all.push(units[k].0);
            proof {
                assert(points_of(units@.take(k + 1)) =~= points_of(units@.take(k as int)).push(
                    units@[k as int].0,
                ));
            }
            k = k + 1;
        }
        proof {
            assert(units@.take(units@.len() as int) =~= units@);
        }
        let block = Collision::new(all.as_slice());
        Background { units, block }
    }

    /// A frozen cell has the key of `point`.
    pub fn blocked(&self, point: Point) -> (r: bool)
        requires
            self.wf(),
        ensures
            r == keys_of(points_of(self.cells())).contains(key_of(point)),
    {
        self.block.hit(point)
    }

    /// A cursor over the cells as white units numbered from `offset`.
    pub fn iter(&self, offset: usize) -> (r: BackgroundIter<'_>)
        requires
            offset + self.cells().len() <= usize::MAX,
        ensures
            r.wf(),
            r.cells() == self.cells(),
            r.offset() == offset,
            r.index() == 0,
    {
        BackgroundIter { units: &self.units, offset, index: 0 }
    }
}

/// A cursor over the cells of a `Background`.
pub struct BackgroundIter<'a> {
    units: &'a Vec<(Point, Neighborhood)>,
    offset: usize,
    index: usize,
}

impl<'a> BackgroundIter<'a> {
    pub closed spec fn wf(self) -> bool {
        self.offset + self.units@.len() <= usize::MAX
    }

    pub closed spec fn cells(self) -> Seq<(Point, Neighborhood)> {
        self.units@
    }

    pub closed spec fn offset(self) -> nat {
        self.offset as nat
    }

    pub closed spec fn index(self) -> nat {
        self.index as nat
    }

    /// The next cell as a white unit with no action, numbered by its place after the offset.
    pub fn next(&mut self) -> (r: Option<Item>)
        requires
            old(self).wf(),
        ensures
            final(self).wf(),
            final(self).cells() == old(self).cells(),
            final(self).offset() == old(self).offset(),
            old(self).index() < old(self).cells().len() ==> {
                let c = old(self).cells()[old(self).index() as int];
                &&& r == Some(
                    Item {
                        id: (old(self).index() + old(self).offset()) as usize,
                        kind: Kind::White,
                        action: None,
                        position: c.0,
                        neighborhood: c.1,
                    },
                )
                &&& final(self).index() == old(self).index() + 1
            },
            old(self).index() >= old(self).cells().len() ==> r is None && final(self).index()
                == old(self).index(),
    {
        if self.index < self.units.len() {
            let (position, neighborhood) = self.units[self.index];
            let item = Item {
                id: self.index + self.offset,
                kind: Kind::White,
                action: None,
                position,
                neighborhood,
            };
            self.index = self.index + 1;
            Some(item)
        } else {
            None
        }
    }
}

} // verus!
