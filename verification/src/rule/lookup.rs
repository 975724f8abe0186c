use vstd::prelude::*;

use std::collections::HashMap;

use crate::common::forest::{is_partition, touch_seq, Forest};
use crate::common::point::Point;
use crate::refactor::lookup as cells;
use crate::refactor::lookup::Collision as _;

verus! {

broadcast use vstd::std_specs::hash::group_hash_axioms;

/// A record of occupied points that also tells where a cube may go.
pub trait Collision {
    /// The record is in a usable state.
    spec fn valid(&self) -> bool;

    /// `p` is recorded as occupied.
    spec fn spec_occupied(&self, p: Point) -> bool;

    /// `p` can be recorded at all.
    spec fn spec_holds(&self, p: Point) -> bool;

    /// What `available` answers for `p`.
    spec fn spec_available(&self, p: Point) -> bool;

    fn occupied(&self, point: Point) -> (r: bool)
        requires
            self.valid(),
        ensures
            r == self.spec_occupied(point),
    ;

    fn available(&self, point: Point) -> (r: bool)
        requires
            self.valid(),
        ensures
            r == self.spec_available(point),
    ;

    /// Records `point` as occupied, if it can be recorded.
    fn put(&mut self, point: Point)
        requires
            old(self).valid(),
        ensures
            final(self).valid(),
            forall|q: Point|
                #[trigger] final(self).spec_occupied(q) == (old(self).spec_occupied(q) || (q
                    == point && old(self).spec_holds(point))),
            forall|q: Point| #[trigger] final(self).spec_holds(q) == old(self).spec_holds(q),
    ;
}

/// Occupied points kept in a hash set; any point can be recorded.
pub struct HashSetCollision(cells::HashSetCollision);

impl HashSetCollision {
    /// The points of `it`, occupied.
    pub fn new(it: &[Point]) -> (r: HashSetCollision)
        ensures
            r.valid(),
            forall|p: Point| #[trigger] r.spec_occupied(p) <==> it@.contains(p),
            forall|p: Point| #[trigger] r.spec_holds(p),
    {
        HashSetCollision(cells::HashSetCollision::new(it))
    }
}

impl Collision for HashSetCollision {
    closed spec fn valid(&self) -> bool {
        self.0.valid()
    }

    closed spec fn spec_occupied(&self, p: Point) -> bool {
        self.0.spec_hit(p)
    }

    closed spec fn spec_holds(&self, p: Point) -> bool {
        self.0.spec_holds(p)
    }

    /// A hash set answers `available` with whether the point is occupied.
    closed spec fn spec_available(&self, p: Point) -> bool {
        self.0.spec_hit(p)
    }

    fn occupied(&self, point: Point) -> (r: bool) {
        self.0.hit(point)
    }

    fn available(&self, point: Point) -> (r: bool)
        ensures
            r == self.spec_occupied(point),
    {
        self.occupied(point)
    }

    fn put(&mut self, point: Point) {
        self.0.put(point);
    }
}

/// Occupied points kept in a bitmap over a `width` by `height` rectangle at the origin;
/// points outside it can be neither recorded nor taken.
#[derive(Debug)]
pub struct BitmapCollision(cells::BitmapCollision);

impl BitmapCollision {
    /// The rectangle of the bitmap.
    pub closed spec fn width(self) -> int {
        self.0.width()
    }

    pub closed spec fn height(self) -> int {
        self.0.height()
    }

    /// An empty bitmap over the `width` by `height` rectangle at the origin.
    pub fn new(width: usize, height: usize) -> (r: BitmapCollision)
        requires
            width * height <= i32::MAX,
            width <= i32::MAX,
            height <= i32::MAX,
        ensures
            r.valid(),
            r.width() == width,
            r.height() == height,
            forall|p: Point| !#[trigger] r.spec_occupied(p),
            forall|p: Point| #[trigger] r.spec_holds(p) <==> cells::in_bounds(width as int, height as int, p),
    {
        BitmapCollision(cells::BitmapCollision::new(width, height))
    }
}

impl Collision for BitmapCollision {
    closed spec fn valid(&self) -> bool {
        self.0.valid()
    }

    closed spec fn spec_occupied(&self, p: Point) -> bool {
        self.0.spec_hit(p)
    }

    closed spec fn spec_holds(&self, p: Point) -> bool {
        self.0.spec_holds(p)
    }

    closed spec fn spec_available(&self, p: Point) -> bool {
        self.0.spec_holds(p) && !self.0.spec_hit(p)
    }

    fn occupied(&self, point: Point) -> (r: bool) {
        self.0.hit(point)
    }

    /// A point is available when it lies in the rectangle and is not occupied.
    fn available(&self, point: Point) -> (r: bool)
        ensures
            r == (self.spec_holds(point) && !self.spec_occupied(point)),
    {
        self.0.holds(point) && !self.0.hit(point)
    }

    fn put(&mut self, point: Point)
        ensures
            final(self).width() == old(self).width(),
            final(self).height() == old(self).height(),
    {
        self.0.put(point);
    }
}

/// `after` is `before` after `join(x, y)`: when both are below the size and differ, their
/// classes are merged and they are named, `y` first; otherwise nothing changes.
pub open spec fn joined(before: DisjointSet, after: DisjointSet, x: usize, y: usize) -> bool {
    &&& after.wf()
    &&& after.size() == before.size()
    &&& x < before.size() && y < before.size() && x != y ==> {
        &&& forall|a: int, b: int|
            0 <= a < before.size() && 0 <= b < before.size() ==> (#[trigger] after.same(a, b) <==> (before.same(a, b)
                || (before.same(a, x as int) && before.same(b, y as int)) || (before.same(a, y as int)
                && before.same(b, x as int))))
        &&& forall|z: usize|
            #[trigger] after.touched().contains(z) <==> (before.touched().contains(z) || z == x || z == y)
        &&& after.touched() == touch_seq(touch_seq(before.touched(), y), x)
    }
    &&& !(x < before.size() && y < before.size() && x != y) ==> after == before
}

/// Classes of nodes below a size, merged by `join`.
pub struct DisjointSet {
    forest: Forest,
}

impl DisjointSet {
    pub closed spec fn wf(self) -> bool {
        self.forest.wf()
    }

    /// The number of nodes.
    pub closed spec fn size(self) -> nat {
        self.forest.size()
    }

    /// Nodes `a` and `b` are in the same class.
    pub closed spec fn same(self, a: int, b: int) -> bool {
        self.forest.same(a, b)
    }

    /// The nodes that some `join` named, in the order first named.
    pub closed spec fn touched(self) -> Seq<usize> {
        self.forest.touched()
    }

    /// `size` nodes, each in a class of its own.
    pub fn new(size: usize) -> (r: DisjointSet)
        ensures
            r.wf(),
            r.size() == size,
            r.touched() == Seq::<usize>::empty(),
            forall|a: int, b: int| 0 <= a < size && 0 <= b < size ==> (r.same(a, b) <==> a == b),
    {
        DisjointSet { forest: Forest::new(size) }
    }

    /// Puts `this` and `that` in one class; does nothing unless both are below the
    /// size and they differ.
    pub fn join(&mut self, this: usize, that: usize)
        requires
            old(self).wf(),
        ensures
            final(self).wf(),
            final(self).size() == old(self).size(),
            this < old(self).size() && that < old(self).size() && this != that ==> {
                &&& forall|a: int, b: int|
                    0 <= a < old(self).size() && 0 <= b < old(self).size() ==> (#[trigger] final(self).same(a, b) <==> (old(self).same(a, b) || (old(self).same(a, this as int)
                        && old(self).same(b, that as int)) || (old(self).same(a, that as int)
                        && old(self).same(b, this as int))))
                &&& forall|x: usize|
                    #[trigger] final(self).touched().contains(x) <==> (old(self).touched().contains(x) || x == this || x == that)
                &&& final(self).touched() == touch_seq(touch_seq(old(self).touched(), that), this)
            },
            !(this < old(self).size() && that < old(self).size() && this != that) ==> *final(self)
                == *old(self),
            this < old(self).size() && that < old(self).size() ==> final(self).same(this as int, that as int),
            joined(*old(self), *final(self), this, that),
    {
        if this < self.forest.len() && that < self.forest.len() && this != that {
            let ghost before = self.forest;
            self.forest.join(this, that);
            proof {
                assert forall|a: int, b: int|
                    0 <= a < before.size() && 0 <= b < before.size() implies (
                    #[trigger] self.forest.same(a, b) <==> (before.same(a, b) || (before.same(
                        a,
                        this as int,
                    ) && before.same(b, that as int)) || (before.same(a, that as int)
                        && before.same(b, this as int)))) by {
                    assert(self.forest.rep(a) == if before.rep(a) == before.rep(this as int) {
                        before.rep(that as int)
                    } else {
                        before.rep(a)
                    });
                    assert(self.forest.rep(b) == if before.rep(b) == before.rep(this as int) {
                        before.rep(that as int)
                    } else {
                        before.rep(b)
                    });
                }
            }
        }
    }

    /// The touched nodes by class; afterwards the set is empty, of size zero.
    pub fn groups(&mut self) -> (r: Vec<Vec<usize>>)
        requires
            old(self).wf(),
        ensures
            is_partition(
                r@.map_values(|g: Vec<usize>| g@),
                old(self).touched(),
                |a: int, b: int| old(self).same(a, b),
            ),
            forall|h: int|
                0 <= h < r@.len() ==> #[trigger] r@[h]@ == old(self).touched().filter(
                    |e: usize| old(self).same(e as int, r@[h]@[0] as int),
                ),
            final(self).wf(),
            final(self).size() == 0,
            final(self).touched() == Seq::<usize>::empty(),
    {
        let r = self.forest.groups();
        proof {
            assert forall|h: int| 0 <= h < r@.len() implies #[trigger] r@[h]@ == self.touched().filter(
                |e: usize| self.same(e as int, r@[h]@[0] as int),
            ) by {
                let g0 = r@[h]@[0] as int;
                assert(self.forest.in_class(self.forest.rep(g0)) =~= (|e: usize| self.same(e as int, g0)));
            }
        }
        self.forest.clear();
        r
    }
}

/// Directed edges between nodes, each kept once.
pub struct Digraph(HashMap<usize, Vec<usize>>);

impl View for Digraph {
    type V = Map<usize, Set<usize>>;

    closed spec fn view(&self) -> Map<usize, Set<usize>> {
        self.0@.map_values(|v: Vec<usize>| v@.to_set())
    }
}

impl Digraph {
    pub closed spec fn wf(self) -> bool {
        forall|k: usize| #[trigger] self.0@.contains_key(k) ==> self.0@[k]@.no_duplicates()
    }

    /// No edges; `capacity` is a hint of the number of nodes with children.
    pub fn with_capacity(capacity: usize) -> (r: Digraph)
        ensures
            r.wf(),
            r@ == Map::<usize, Set<usize>>::empty(),
    {
        let r = Digraph(HashMap::with_capacity(capacity));
        assert(r@ =~= Map::<usize, Set<usize>>::empty());
        r
    }

    /// Adds the edge from `from` to `to`.
    pub fn add(&mut self, from: usize, to: usize)
        requires
            old(self).wf(),
        ensures
            final(self).wf(),
            final(self)@ == old(self)@.insert(
                from,
                if old(self)@.contains_key(from) {
                    old(self)@[from].insert(to)
                } else {
                    set![to]
                },
            ),
    {
        let ghost before = self.0@;
        let mut list = match self.0.remove(&from) {
            Some(v) => v,
            None => Vec::new(),
        };
        let ghost start = list@;
        let mut found = false;
        let mut i: usize = 0;
        while i < list.len()
            invariant
                i <= list@.len(),
                list@ == start,
                found <==> list@.take(i as int).contains(to),
            decreases list@.len() - i,
        {
            proof {
                list@.lemma_take_succ_push(i as int);
                vstd::seq_lib::lemma_seq_contains_after_push(list@.take(i as int), list@[i as int], to);
            }
            if list[i] == to {
                found = true;
            }
            i = i + 1;
        }
        proof {
            assert(list@.take(list@.len() as int) =~= list@);
        }
        if !found {
            list.push(to);
        }
        proof {
            if before.contains_key(from) {
                assert(start == before[from]@);
                if found {
                    assert(list@.to_set() =~= before[from]@.to_set().insert(to));
                } else {
                    start.lemma_push_to_set_commute(to);
                }
            } else {
                assert(start =~= Seq::<usize>::empty());
                assert(list@ =~= seq![to]);
                assert(list@.to_set() =~= set![to]) by {
                    assert(list@[0] == to);
                }
            }
            if !found {
                assert(list@.no_duplicates()) by {
                    assert(list@ == start.push(to));
                    assert forall|a: int, b: int|
                        0 <= a < list@.len() && 0 <= b < list@.len() && a != b implies list@[a]
                        != list@[b] by {
                        if a == start.len() as int {
                            assert(start[b] == list@[b]);
                        }
                        if b == start.len() as int {
                            assert(start[a] == list@[a]);
                        }
                    }
                }
            }
        }
        self.0.insert(from, list);
        proof {
            assert(self@ =~= before.map_values(|v: Vec<usize>| v@.to_set()).insert(
                from,
                if before.contains_key(from) {
                    before[from]@.to_set().insert(to)
                } else {
                    set![to]
                },
            ));
        }
    }

    /// The children of `index`, each once, in no set order.
    pub fn children(&self, index: usize) -> (r: Vec<usize>)
        requires
            self.wf(),
        ensures
            r@.no_duplicates(),
            r@.to_set() == (if self@.contains_key(index) {
                self@[index]
            } else {
                Set::<usize>::empty()
            }),
    {
        match self.0.get(&index) {
            Some(v) => {
                let r = v.clone();
                proof {
                    assert(r@ =~= v@);
                }
                r
            },
            None => {
                let r: Vec<usize> = Vec::new();
                assert(r@.to_set() =~= Set::<usize>::empty());
                r
            },
        }
    }
}

/// `a` and `b`, below `n`, are tied by the pairs of `ps`: the same, or tied through pairs
/// of two different cubes below `n`.
pub open spec fn tied(n: int, ps: Seq<(usize, usize)>, a: int, b: int) -> bool
    decreases ps.len(),
{
    if ps.len() == 0 {
        a == b
    } else {
        let x = ps.last().0 as int;
        let y = ps.last().1 as int;
        let r = ps.drop_last();
        if x < n && y < n && x != y {
            tied(n, r, a, b) || (tied(n, r, a, x) && tied(n, r, b, y)) || (tied(n, r, a, y)
                && tied(n, r, b, x))
        } else {
            tied(n, r, a, b)
        }
    }
}

/// The cubes named by a pair of `ps` of two different cubes below `n`.
pub open spec fn tied_cubes(n: int, ps: Seq<(usize, usize)>) -> Set<usize> {
    Set::new(
        |x: usize|
            exists|i: int|
                0 <= i < ps.len() && (#[trigger] ps[i]).0 < n && ps[i].1 < n && ps[i].0 != ps[i].1
                    && (ps[i].0 == x || ps[i].1 == x),
    )
}

/// The cubes that the pairs of `ps` name, in the order first named: of each pair that
/// ties two distinct cubes below `n`, its second cube, then its first.
pub open spec fn touched_by(n: int, ps: Seq<(usize, usize)>) -> Seq<usize>
    decreases ps.len(),
{
    if ps.len() == 0 {
        Seq::empty()
    } else {
        let t = touched_by(n, ps.drop_last());
        let x = ps.last().0;
        let y = ps.last().1;
        if x < n && y < n && x != y {
            touch_seq(touch_seq(t, y), x)
        } else {
            t
        }
    }
}

/// The DisjointSet `ds` over `n` cubes holds exactly what the pairs of `ps` tie.
pub open spec fn tracks(ds: DisjointSet, n: int, ps: Seq<(usize, usize)>) -> bool {
    &&& ds.wf()
    &&& ds.size() == n
    &&& forall|a: int, b: int| 0 <= a < n && 0 <= b < n ==> (#[trigger] ds.same(a, b) <==> tied(n, ps, a, b))
    &&& forall|x: usize| #[trigger] ds.touched().contains(x) <==> tied_cubes(n, ps).contains(x)
    &&& ds.touched() == touched_by(n, ps)
}

/// One more join keeps a disjoint set tracking the pairs joined so far.
pub proof fn lemma_join_tracked(ds0: DisjointSet, ds1: DisjointSet, n: int, ps: Seq<(usize, usize)>, x: usize, y: usize)
    requires
        tracks(ds0, n, ps),
        joined(ds0, ds1, x, y),
    ensures
        tracks(ds1, n, ps.push((x, y))),
{
    let qs = ps.push((x, y));
    assert(qs.drop_last() =~= ps);
    assert(touched_by(n, qs) == ds1.touched());
    assert forall|a: int, b: int| 0 <= a < n && 0 <= b < n implies (#[trigger] ds1.same(a, b) <==> tied(n, qs, a, b)) by {
        if x < n && y < n && x != y {
            assert(ds0.same(a, x as int) == tied(n, ps, a, x as int));
            assert(ds0.same(b, y as int) == tied(n, ps, b, y as int));
            assert(ds0.same(a, y as int) == tied(n, ps, a, y as int));
            assert(ds0.same(b, x as int) == tied(n, ps, b, x as int));
        }
    }
    assert forall|z: usize| #[trigger] ds1.touched().contains(z) <==> tied_cubes(n, qs).contains(z) by {
        if tied_cubes(n, qs).contains(z) {
            let i = choose|i: int|
                0 <= i < qs.len() && (#[trigger] qs[i]).0 < n && qs[i].1 < n && qs[i].0 != qs[i].1
                    && (qs[i].0 == z || qs[i].1 == z);
            if i < ps.len() {
                assert(ps[i] == qs[i]);
                assert(tied_cubes(n, ps).contains(z));
            }
        }
        if tied_cubes(n, ps).contains(z) {
            let i = choose|i: int|
                0 <= i < ps.len() && (#[trigger] ps[i]).0 < n && ps[i].1 < n && ps[i].0 != ps[i].1
                    && (ps[i].0 == z || ps[i].1 == z);
            assert(qs[i] == ps[i]);
        }
        if x < n && y < n && x != y && (z == x || z == y) {
            assert(qs[ps.len() as int] == (x, y));
        }
    }
}

/// Joins connect: starting from `n` nodes each alone, after joining the pairs of `ps` in
/// turn two nodes share a class exactly when a chain of those pairs (each of two
/// different nodes below `n`) links them; the nodes named are exactly those of such pairs,
/// in the order first named; a pair with a node at or above `n`, or of one node twice,
/// changes nothing.
pub proof fn lemma_joins_connect(ds: Seq<DisjointSet>, n: nat, ps: Seq<(usize, usize)>)
    requires
        ds.len() == ps.len() + 1,
        ds[0].wf(),
        ds[0].size() == n,
        ds[0].touched() == Seq::<usize>::empty(),
        forall|a: int, b: int| 0 <= a < n && 0 <= b < n ==> (ds[0].same(a, b) <==> a == b),
        forall|k: int| 0 <= k < ps.len() ==> joined(#[trigger] ds[k], ds[k + 1], ps[k].0, ps[k].1),
    ensures
        forall|a: int, b: int|
            0 <= a < n && 0 <= b < n ==> (#[trigger] ds[ps.len() as int].same(a, b) <==> tied(n as int, ps, a, b)),
        forall|x: usize| #[trigger] ds[ps.len() as int].touched().contains(x) <==> tied_cubes(n as int, ps).contains(x),
        ds[ps.len() as int].touched() == touched_by(n as int, ps),
{
    let last = ds[ps.len() as int];
    assert(tracks(last, n as int, ps)) by {
        lemma_joins_tracked(ds, n, ps, ps.len() as int);
        assert(ps.take(ps.len() as int) =~= ps);
    }
}

proof fn lemma_joins_tracked(ds: Seq<DisjointSet>, n: nat, ps: Seq<(usize, usize)>, k: int)
    requires
        ds.len() == ps.len() + 1,
        0 <= k <= ps.len(),
        ds[0].wf(),
        ds[0].size() == n,
        ds[0].touched() == Seq::<usize>::empty(),
        forall|a: int, b: int| 0 <= a < n && 0 <= b < n ==> (ds[0].same(a, b) <==> a == b),
        forall|k: int| 0 <= k < ps.len() ==> joined(#[trigger] ds[k], ds[k + 1], ps[k].0, ps[k].1),
    ensures
        tracks(ds[k], n as int, ps.take(k)),
    decreases k,
{
    if k == 0 {
        assert(ps.take(0) =~= Seq::<(usize, usize)>::empty());
        assert forall|x: usize| #[trigger] ds[0].touched().contains(x) <==> tied_cubes(n as int, ps.take(0)).contains(x) by {}
    } else {
        lemma_joins_tracked(ds, n, ps, k - 1);
        assert(joined(ds[k - 1], ds[k], ps[k - 1].0, ps[k - 1].1));
        lemma_join_tracked(ds[k - 1], ds[k], n as int, ps.take(k - 1), ps[k - 1].0, ps[k - 1].1);
        assert(ps.take(k - 1).push((ps[k - 1].0, ps[k - 1].1)) =~= ps.take(k));
    }
    if k == ps.len() {
        assert(ps.take(k) =~= ps);
    }
}

} // verus!
