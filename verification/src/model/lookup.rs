use vstd::prelude::*;

use std::collections::{HashMap, HashSet};

use super::movement::Movement;
use crate::common::forest::{is_partition, touch_seq, Forest};
use crate::common::neighborhood::{interior, neighbor, neighborhood_with, Adjacence, Neighborhood};
use crate::common::point::Point;
use crate::common::race::{overlaps_of, put_all, RaceTable, RaceView};

verus! {

broadcast use vstd::std_specs::hash::group_hash_axioms;

/// The hash key of a point: `x` in the high half, `y` (sign-extended) or-ed into the
/// whole word.
pub open spec fn key_of(p: Point) -> u64 {
    ((p.x as u64) << 32u64) | (p.y as u64)
}

fn key(p: Point) -> (r: u64)
    ensures
        r == key_of(p),
{
    ((p.x as u64) << 32u64) | (p.y as u64)
}

/// The keys of the points of `s`, in order.
pub open spec fn keys_of(s: Seq<Point>) -> Seq<u64> {
    s.map_values(|p: Point| key_of(p))
}

/// Points with a nonnegative `y` have different keys; a negative `y` fills the high
/// half, so there two points can share a key.
pub proof fn lemma_key_injective(a: Point, b: Point)
    requires
        a.y >= 0,
        b.y >= 0,
    ensures
        key_of(a) == key_of(b) <==> a == b,
{
    let (ax, ay, bx, by) = (a.x, a.y, b.x, b.y);
    assert(((((ax as u64) << 32u64) | (ay as u64)) == (((bx as u64) << 32u64) | (by as u64)))
        ==> ax == bx && ay == by) by (bit_vector)
        requires
            ay >= 0,
            by >= 0,
    ;
}

/// A set of occupied points.
pub struct Collision(HashSet<u64>);

impl View for Collision {
    type V = Set<u64>;

    closed spec fn view(&self) -> Set<u64> {
        self.0@
    }
}

impl Collision {
    /// Whether `p` counts as occupied: its key is in the set.
    pub open spec fn spec_hit(self, p: Point) -> bool {
        self@.contains(key_of(p))
    }

    /// The points of `it`, occupied.
    pub fn new(it: &[Point]) -> (r: Collision)
        ensures
            forall|k: u64| r@.contains(k) <==> keys_of(it@).contains(k),
    {
        let mut set: HashSet<u64> = HashSet::new();
        let mut i: usize = 0;
        while i < it.len()
            invariant
                i <= it@.len(),
                forall|k: u64| set@.contains(k) <==> keys_of(it@.take(i as int)).contains(k),
            decreases it@.len() - i,
        {
            let ghost before = set@;
            set.insert(key(it[i]));
            proof {
                assert(keys_of(it@.take(i + 1)) =~= keys_of(it@.take(i as int)).push(key_of(it@[i as int])));
                assert forall|k: u64| set@.contains(k) <==> keys_of(it@.take(i + 1)).contains(k) by {
                    let s = keys_of(it@.take(i as int));
                    if s.contains(k) {
                        let j = choose|j: int| 0 <= j < s.len() && s[j] == k;
                        assert(s.push(key_of(it@[i as int]))[j] == k);
                    }
                    if s.push(key_of(it@[i as int])).contains(k) && k != key_of(it@[i as int]) {
                        let j = choose|j: int| 0 <= j < s.len() + 1 && s.push(key_of(it@[i as int]))[j] == k;
                        assert(s[j] == k);
                    }
                    if k == key_of(it@[i as int]) {
                        assert(s.push(k)[s.len() as int] == k);
                    }
                }
            }
            i = i + 1;
        }
        assert(it@.take(it@.len() as int) =~= it@);
        Collision(set)
    }

    pub fn hit(&self, point: Point) -> (r: bool)
        ensures
            r == self.spec_hit(point),
    {
        self.0.contains(&key(point))
    }

    /// The occupied cells around `point`.
    pub fn neighborhood(&self, point: Point) -> (r: Neighborhood)
        requires
            interior(point),
        ensures
            forall|d: Adjacence|
                d != Adjacence::NONE ==> (r.spec_has(d) <==> self.spec_hit(#[trigger] neighbor(point, d))),
            !r.spec_has(Adjacence::NONE),
    {
        let hit = |q: Point| -> (b: bool)
            ensures
                b == self.spec_hit(q),
            { self.hit(q) };
        neighborhood_with(point, &hit, Ghost(|q: Point| self.spec_hit(q)))
    }
}

/// With nonnegative `y` everywhere, a collision built from some points hits exactly them.
pub proof fn lemma_collision_exact(c: Collision, it: Seq<Point>, p: Point)
    requires
        forall|k: u64| c@.contains(k) <==> keys_of(it).contains(k),
        forall|i: int| 0 <= i < it.len() ==> #[trigger] it[i].y >= 0,
        p.y >= 0,
    ensures
        c.spec_hit(p) <==> it.contains(p),
{
    if it.contains(p) {
        let i = choose|i: int| 0 <= i < it.len() && it[i] == p;
        assert(keys_of(it)[i] == key_of(p));
    }
    if c.spec_hit(p) {
        let i = choose|i: int| 0 <= i < keys_of(it).len() && keys_of(it)[i] == key_of(p);
        lemma_key_injective(it[i], p);
    }
}

/// The owner of each occupied point.
pub struct Faction(HashMap<u64, usize>);

impl View for Faction {
    type V = Map<u64, usize>;

    closed spec fn view(&self) -> Map<u64, usize> {
        self.0@
    }
}

/// The map that `it` builds, a later pair winning over an earlier one at the same key.
pub open spec fn faction_of(it: Seq<(Point, usize)>) -> Map<u64, usize>
    decreases it.len(),
{
    if it.len() == 0 {
        Map::empty()
    } else {
        faction_of(it.drop_last()).insert(key_of(it.last().0), it.last().1)
    }
}

impl Faction {
    pub fn new(it: &[(Point, usize)]) -> (r: Faction)
        ensures
            r@ == faction_of(it@),
    {
        let mut map: HashMap<u64, usize> = HashMap::new();
        let mut i: usize = 0;
        while i < it.len()
            invariant
                i <= it@.len(),
                map@ == faction_of(it@.take(i as int)),
            decreases it@.len() - i,
        {
            let (point, owner) = it[i];
            map.insert(key(point), owner);
            assert(it@.take(i + 1).drop_last() =~= it@.take(i as int));
            i = i + 1;
        }
        assert(it@.take(it@.len() as int) =~= it@);
        Faction(map)
    }

    pub fn get(&self, point: Point) -> (r: Option<usize>)
        ensures
            r == (if self@.contains_key(key_of(point)) {
                Some(self@[key_of(point)])
            } else {
                None
            }),
    {
        match self.0.get(&key(point)) {
            Some(v) => Some(*v),
            None => None,
        }
    }
}

/// The race slot of a movement.
pub open spec fn slot_of(m: Movement) -> usize {
    match m {
        Movement::Left => 0,
        Movement::Down => 1,
        Movement::Up => 2,
        Movement::Right => 3,
    }
}

/// The movement of a race slot.
pub open spec fn movement_of(slot: usize) -> Movement {
    if slot == 0 {
        Movement::Left
    } else if slot == 1 {
        Movement::Down
    } else if slot == 2 {
        Movement::Up
    } else {
        Movement::Right
    }
}

/// Each movement has a race slot of its own, below four, and the slot gives the movement
/// back: two cubes wanting one point by two different movements write two different
/// slots. The slots go in the order left, down, up, right, which is the order in which
/// `overlaps` lists who wants a point.
pub proof fn lemma_slots_distinct(a: Movement, b: Movement)
    ensures
        slot_of(a) < 4,
        movement_of(slot_of(a)) == a,
        a != b ==> slot_of(a) != slot_of(b),
        slot_of(Movement::Left) < slot_of(Movement::Down),
        slot_of(Movement::Down) < slot_of(Movement::Up),
        slot_of(Movement::Up) < slot_of(Movement::Right),
{
}

fn slot(m: Movement) -> (r: usize)
    ensures
        r == slot_of(m),
        r < 4,
{
    match m {
        Movement::Left => 0,
        Movement::Down => 1,
        Movement::Up => 2,
        Movement::Right => 3,
    }
}

fn movement(slot: usize) -> (r: Movement)
    ensures
        r == movement_of(slot),
{
    if slot == 0 {
        Movement::Left
    } else if slot == 1 {
        Movement::Down
    } else if slot == 2 {
        Movement::Up
    } else {
        Movement::Right
    }
}

/// The pairs of a race with the slot turned into its movement.
pub open spec fn with_movements(s: Seq<(usize, usize)>) -> Seq<(usize, Movement)> {
    s.map_values(|x: (usize, usize)| (x.0, movement_of(x.1)))
}

/// Which cube wants each point, by the direction it comes from.
pub struct Conflict(RaceTable);

impl View for Conflict {
    type V = Seq<(u64, RaceView)>;

    closed spec fn view(&self) -> Seq<(u64, RaceView)> {
        self.0@
    }
}

impl Conflict {
    pub closed spec fn wf(self) -> bool {
        self.0.wf()
    }

    /// An empty table; the capacity is only a hint.
    pub fn with_capacity(capacity: usize) -> (r: Conflict)
        ensures
            r.wf(),
            r@ == Seq::<(u64, RaceView)>::empty(),
    {
        Conflict(RaceTable::new())
    }

    /// Records that cube `id`, moving by `movement`, wants each of `points`.
    pub fn put(&mut self, id: usize, movement: Movement, points: &[Point])
        requires
            old(self).wf(),
        ensures
            final(self).wf(),
            final(self)@ == put_all(old(self)@, keys_of(points@), slot_of(movement) as int, id),
    {
        let s = slot(movement);
        let mut i: usize = 0;
        while i < points.len()
            invariant
                self.wf(),
                i <= points@.len(),
                s == slot_of(movement),
                self@ == put_all(old(self)@, keys_of(points@.take(i as int)), s as int, id),
            decreases points@.len() - i,
        {
            self.0.put(key(points[i]), s, id);
            proof {
                assert(keys_of(points@.take(i + 1)) =~= keys_of(points@.take(i as int)).push(
                    key_of(points@[i as int]),
                ));
                assert(keys_of(points@.take(i + 1)).drop_last() =~= keys_of(points@.take(i as int)));
            }
            i = i + 1;
        }
        assert(points@.take(points@.len() as int) =~= points@);
    }

    /// For each point wanted from more than one direction, who wants it and from where,
    /// in the order left, down, up, right.
    pub fn overlaps(&self) -> (r: Vec<Vec<(usize, Movement)>>)
        requires
            self.wf(),
        ensures
            r@.len() == overlaps_of(self@).len(),
            forall|g: int| 0 <= g < r@.len() ==> #[trigger] r@[g]@ == with_movements(overlaps_of(self@)[g]),
    {
        let raw = self.0.overlaps();
        let mut r: Vec<Vec<(usize, Movement)>> = Vec::new();
        let mut g: usize = 0;
        while g < raw.len()
            invariant
                g <= raw@.len(),
                raw@.map_values(|v: Vec<(usize, usize)>| v@) == overlaps_of(self@),
                r@.len() == g,
                forall|h: int| 0 <= h < g ==> #[trigger] r@[h]@ == with_movements(raw@[h]@),
            decreases raw@.len() - g,
        {
            let mut one: Vec<(usize, Movement)> = Vec::new();
            let mut j: usize = 0;
            while j < raw[g].len()
                invariant
                    g < raw@.len(),
                    j <= raw@[g as int]@.len(),
                    one@ == with_movements(raw@[g as int]@.take(j as int)),
                decreases raw@[g as int]@.len() - j,
            {
                let (id, s) = raw[g][j];
                one.push((id, movement(s)));
                assert(with_movements(raw@[g as int]@.take(j + 1)) =~= with_movements(raw@[g as int]@.take(j as int)).push((id, movement_of(s))));
                j = j + 1;
            }
            assert(raw@[g as int]@.take(raw@[g as int]@.len() as int) =~= raw@[g as int]@);
            r.push(one);
            g = g + 1;
        }
        proof {
            assert forall|h: int| 0 <= h < r@.len() implies #[trigger] r@[h]@ == with_movements(overlaps_of(self@)[h]) by {
                assert(raw@.map_values(|v: Vec<(usize, usize)>| v@)[h] == raw@[h]@);
            }
        }
        r
    }
}

/// A union-find over cubes `0..size` that remembers which cubes it has touched.
pub struct DisjointSet {
    forest: Forest,
}

impl DisjointSet {
    pub closed spec fn wf(self) -> bool {
        self.forest.wf()
    }

    /// The number of cubes.
    pub closed spec fn size(self) -> nat {
        self.forest.size()
    }

    /// Cubes `a` and `b` are in the same class.
    pub closed spec fn same(self, a: int, b: int) -> bool {
        self.forest.same(a, b)
    }

    /// The cubes that some `join` named, in the order first named.
    pub closed spec fn touched(self) -> Seq<usize> {
        self.forest.touched()
    }

    /// The root of cube `i`'s class: the cube that stands for the class.
    pub closed spec fn root(self, i: int) -> int {
        self.forest.rep(i)
    }

    /// The touched cubes whose class has root `r`, in the order first named.
    pub open spec fn class(self, r: int) -> Seq<usize> {
        self.touched().filter(|e: usize| self.root(e as int) == r)
    }

    pub fn new(size: usize) -> (r: DisjointSet)
        ensures
            r.wf(),
            r.size() == size,
            r.touched() == Seq::<usize>::empty(),
            forall|a: int, b: int| 0 <= a < size && 0 <= b < size ==> (r.same(a, b) <==> a == b),
            forall|i: int| 0 <= i < size ==> #[trigger] r.root(i) == i,
    {
        DisjointSet { forest: Forest::new(size) }
    }

    /// Puts `this` and `that` in one class; does nothing unless both are below the
    /// size and they differ.
    pub fn join(&mut self, this: usize, that: usize)
        requires
            old(self).wf(),
        ensures
            final(self).wf(),
            final(self).size() == old(self).size(),
            this < old(self).size() && that < old(self).size() && this != that ==> {
                &&& forall|a: int, b: int|
                    0 <= a < old(self).size() && 0 <= b < old(self).size() ==> (#[trigger] final(self).same(a, b) <==> (
                    old(self).same(a, b) || (old(self).same(a, this as int) && old(self).same(
                        b,
                        that as int,
                    )) || (old(self).same(a, that as int) && old(self).same(b, this as int))))
                &&& forall|x: usize|
                    #[trigger] final(self).touched().contains(x) <==> (old(self).touched().contains(x)
                        || x == this || x == that)
            },
            !(this < old(self).size() && that < old(self).size() && this != that) ==> *final(self)
                == *old(self),
            this < old(self).size() && that < old(self).size() ==> final(self).same(this as int, that as int),
            this < old(self).size() && that < old(self).size() && this != that ==> forall|i: int|
                0 <= i < old(self).size() ==> #[trigger] final(self).root(i) == if old(self).root(i) == old(
                    self,
                ).root(this as int) {
                    old(self).root(that as int)
                } else {
                    old(self).root(i)
                },
            this < old(self).size() && that < old(self).size() && this != that ==> final(self).touched()
                == touch_seq(touch_seq(old(self).touched(), that), this),
    {
        if this < self.forest.len() && that < self.forest.len() && this != that {
            let ghost before = self.forest;
            self.forest.join(this, that);
            proof {
                assert forall|a: int, b: int|
                    0 <= a < before.size() && 0 <= b < before.size() implies (#[trigger] self.forest.same(a, b) <==> (
                    before.same(a, b) || (before.same(a, this as int) && before.same(b, that as int))
                        || (before.same(a, that as int) && before.same(b, this as int)))) by {
                    assert(self.forest.rep(a) == if before.rep(a) == before.rep(this as int) {
                        before.rep(that as int)
                    } else {
                        before.rep(a)
                    });
                    assert(self.forest.rep(b) == if before.rep(b) == before.rep(this as int) {
                        before.rep(that as int)
                    } else {
                        before.rep(b)
                    });
                }
            }
        }
    }

    /// The touched cubes by class, the classes in increasing order of their roots.
    pub fn groups(self) -> (r: Groups)
        requires
            self.wf(),
        ensures
            classes_by_root(self, r@),
    {
        let g = self.forest.sorted_groups();
        proof {
            let gs = g@.map_values(|v: Vec<usize>| v@);
            assert forall|h: int| 0 <= h < gs.len() implies #[trigger] gs[h] == self.class(self.root(gs[h][0] as int)) by {
                assert(gs[h] == g@[h]@);
                let r = self.root(gs[h][0] as int);
                assert(self.forest.in_class(r) =~= (|e: usize| self.root(e as int) == r));
            }
            assert forall|h1: int, h2: int| 0 <= h1 < h2 < gs.len() implies self.root(#[trigger] gs[h1][0] as int) < self.root(#[trigger] gs[h2][0] as int) by {
                assert(gs[h1] == g@[h1]@);
                assert(gs[h2] == g@[h2]@);
            }
        }
        Groups(g)
    }
}

/// `gs` lists the classes of the cubes that `ds` touched, in increasing order of their
/// roots, each class in the order its cubes were first named.
pub open spec fn classes_by_root(ds: DisjointSet, gs: Seq<Seq<usize>>) -> bool {
    &&& is_partition(gs, ds.touched(), |a: int, b: int| ds.same(a, b))
    &&& forall|h: int| 0 <= h < gs.len() ==> #[trigger] gs[h] == ds.class(ds.root(gs[h][0] as int))
    &&& forall|h1: int, h2: int|
        0 <= h1 < h2 < gs.len() ==> ds.root(#[trigger] gs[h1][0] as int) < ds.root(#[trigger] gs[h2][0] as int)
}

/// Each element of `a` is below the next.
pub open spec fn increasing(a: Seq<int>) -> bool {
    forall|i: int, j: int| 0 <= i < j < a.len() ==> #[trigger] a[i] < #[trigger] a[j]
}

/// Two increasing sequences with the same elements are one sequence.
proof fn lemma_increasing_same(a: Seq<int>, b: Seq<int>)
    requires
        increasing(a),
        increasing(b),
        forall|x: int| a.contains(x) <==> b.contains(x),
    ensures
        a == b,
    decreases a.len(),
{
    if a.len() == 0 {
        if b.len() > 0 {
            assert(b.contains(b[0]));
        }
        assert(a =~= b);
    } else {
        assert(a.contains(a[0]));
        let j = choose|j: int| 0 <= j < b.len() && b[j] == a[0];
        assert(b.contains(b[0]));
        let i = choose|i: int| 0 <= i < a.len() && a[i] == b[0];
        if i > 0 {
            assert(a[0] < a[i]);
        }
        if j > 0 {
            assert(b[0] < b[j]);
        }
        assert(a[0] == b[0]);
        let a1 = a.drop_first();
        let b1 = b.drop_first();
        assert forall|x: int| a1.contains(x) <==> b1.contains(x) by {
            if a1.contains(x) {
                let k = choose|k: int| 0 <= k < a1.len() && a1[k] == x;
                assert(a[k + 1] == x);
                assert(a[0] < a[k + 1]);
                assert(a.contains(x));
                let m = choose|m: int| 0 <= m < b.len() && b[m] == x;
                assert(m != 0);
                assert(b1[m - 1] == x);
            }
            if b1.contains(x) {
                let k = choose|k: int| 0 <= k < b1.len() && b1[k] == x;
                assert(b[k + 1] == x);
                assert(b[0] < b[k + 1]);
                assert(b.contains(x));
                let m = choose|m: int| 0 <= m < a.len() && a[m] == x;
                assert(m != 0);
                assert(a1[m - 1] == x);
            }
        }
        assert forall|i: int, j: int| 0 <= i < j < a1.len() implies #[trigger] a1[i] < #[trigger] a1[j] by {
            assert(a[i + 1] < a[j + 1]);
        }
        assert forall|i: int, j: int| 0 <= i < j < b1.len() implies #[trigger] b1[i] < #[trigger] b1[j] by {
            assert(b[i + 1] < b[j + 1]);
        }
        lemma_increasing_same(a1, b1);
        assert(a =~= seq![a[0]] + a1);
        assert(b =~= seq![b[0]] + b1);
    }
}

/// The roots of the groups of `gs`, in order.
pub open spec fn roots_of(ds: DisjointSet, gs: Seq<Seq<usize>>) -> Seq<int> {
    gs.map_values(|g: Seq<usize>| ds.root(g[0] as int))
}

/// The classes of a disjoint set, in increasing order of their roots, can be listed in one
/// way only.
pub proof fn lemma_classes_by_root_unique(ds: DisjointSet, g1: Seq<Seq<usize>>, g2: Seq<Seq<usize>>)
    requires
        classes_by_root(ds, g1),
        classes_by_root(ds, g2),
    ensures
        g1 == g2,
{
    let r1 = roots_of(ds, g1);
    let r2 = roots_of(ds, g2);
    assert forall|i: int, j: int| 0 <= i < j < r1.len() implies #[trigger] r1[i] < #[trigger] r1[j] by {
        assert(ds.root(g1[i][0] as int) < ds.root(g1[j][0] as int));
    }
    assert forall|i: int, j: int| 0 <= i < j < r2.len() implies #[trigger] r2[i] < #[trigger] r2[j] by {
        assert(ds.root(g2[i][0] as int) < ds.root(g2[j][0] as int));
    }
    assert forall|x: int| r1.contains(x) implies r2.contains(x) by {
        let h = choose|h: int| 0 <= h < r1.len() && r1[h] == x;
        assert(g1[h].len() > 0);
        assert(ds.touched().contains(g1[h][0]));
        let (k, j) = choose|k: int, j: int| 0 <= k < g2.len() && 0 <= j < g2[k].len() && #[trigger] g2[k][j] == g1[h][0];
        lemma_class_member_root(ds, g2, k, j);
        assert(r2[k] == x);
    }
    assert forall|x: int| r2.contains(x) implies r1.contains(x) by {
        let h = choose|h: int| 0 <= h < r2.len() && r2[h] == x;
        assert(g2[h].len() > 0);
        assert(ds.touched().contains(g2[h][0]));
        let (k, j) = choose|k: int, j: int| 0 <= k < g1.len() && 0 <= j < g1[k].len() && #[trigger] g1[k][j] == g2[h][0];
        lemma_class_member_root(ds, g1, k, j);
        assert(r1[k] == x);
    }
    lemma_increasing_same(r1, r2);
    assert forall|h: int| 0 <= h < g1.len() implies g1[h] == g2[h] by {
        assert(r1[h] == r2[h]);
    }
    assert(g1 =~= g2);
}

/// Each cube of a group has the root of the group.
proof fn lemma_class_member_root(ds: DisjointSet, gs: Seq<Seq<usize>>, h: int, j: int)
    requires
        classes_by_root(ds, gs),
        0 <= h < gs.len(),
        0 <= j < gs[h].len(),
    ensures
        ds.root(gs[h][j] as int) == ds.root(gs[h][0] as int),
{
    let r = ds.root(gs[h][0] as int);
    let p = |e: usize| ds.root(e as int) == r;
    assert(gs[h] == ds.touched().filter(p));
    broadcast use vstd::seq_lib::group_filter_ensures;
    assert(p(gs[h][j]));
}

/// Classes of cubes, each listed once.
pub struct Groups(Vec<Vec<usize>>);

impl View for Groups {
    type V = Seq<Seq<usize>>;

    closed spec fn view(&self) -> Seq<Seq<usize>> {
        self.0@.map_values(|g: Vec<usize>| g@)
    }
}

impl Groups {
    /// A cursor over the groups, from the first.
    pub fn iter(&self) -> (r: GroupsIterator<'_>)
        ensures
            r.groups() == self@,
            r.index() == 0,
    {
        GroupsIterator { group: &self.0, index: 0 }
    }
}

/// A cursor over `Groups`.
pub struct GroupsIterator<'a> {
    group: &'a Vec<Vec<usize>>,
    index: usize,
}

impl<'a> GroupsIterator<'a> {
    pub closed spec fn groups(self) -> Seq<Seq<usize>> {
        self.group@.map_values(|g: Vec<usize>| g@)
    }

    pub closed spec fn index(self) -> nat {
        self.index as nat
    }

    /// The next group, if any is left.
    pub fn next(&mut self) -> (r: Option<Vec<usize>>)
        ensures
            final(self).groups() == old(self).groups(),
            old(self).index() < old(self).groups().len() ==> r is Some && r->0@ == old(self).groups()[old(self).index() as int]
                && final(self).index() == old(self).index() + 1,
            old(self).index() >= old(self).groups().len() ==> r is None && final(self).index() == old(self).index(),
    {
        if self.index < self.group.len() {
            let g = self.group[self.index].clone();
            proof {
                assert(g@ =~= self.group@[self.index as int]@);
            }
            self.index = self.index + 1;
            Some(g)
        } else {
            None
        }
    }
}

/// For each cube, the cubes that follow it.
pub struct Successors(Vec<Option<Vec<usize>>>);

impl View for Successors {
    type V = Seq<Set<usize>>;

    closed spec fn view(&self) -> Seq<Set<usize>> {
        self.0@.map_values(
            |o: Option<Vec<usize>>|
                match o {
                    Some(v) => v@.to_set(),
                    None => Set::empty(),
                },
        )
    }
}

impl Successors {
    pub closed spec fn wf(self) -> bool {
        forall|i: int|
            0 <= i < self.0@.len() && #[trigger] self.0@[i] is Some ==> self.0@[i]->0@.no_duplicates()
    }

    /// No successors, for cubes `0..maximum`.
    pub fn new(maximum: usize) -> (r: Successors)
        ensures
            r.wf(),
            r@.len() == maximum,
            forall|i: int| 0 <= i < maximum ==> #[trigger] r@[i] == Set::<usize>::empty(),
    {
        let mut v: Vec<Option<Vec<usize>>> = Vec::new();
        let mut i: usize = 0;
        while i < maximum
            invariant
                i <= maximum,
                v@.len() == i,
                forall|j: int| 0 <= j < i ==> v@[j] is None,
            decreases maximum - i,
        {
            v.push(None);
            i = i + 1;
        }
        let r = Successors(v);
        assert forall|i: int| 0 <= i < maximum implies #[trigger] r@[i] == Set::<usize>::empty() by {
            assert(r.0@[i] is None);
        }
        r
    }

    /// Adds `value` to the successors of `index`; an index past the end is ignored.
    pub fn insert(&mut self, index: usize, value: usize)
        requires
            old(self).wf(),
        ensures
            final(self).wf(),
            index < old(self)@.len() ==> final(self)@ == old(self)@.update(index as int, old(self)@[index as int].insert(value)),
            index >= old(self)@.len() ==> final(self)@ == old(self)@,
    {
        if index < self.0.len() {
            let ghost before = *self;
            let mut set = match &self.0[index] {
                Some(v) => v.clone(),
                None => Vec::new(),
            };
            proof {
                if before.0@[index as int] is Some {
                    assert(set@ =~= before.0@[index as int]->0@);
                }
            }
            let mut found = false;
            let mut k: usize = 0;
            while k < set.len()
                invariant
                    k <= set@.len(),
                    found <==> set@.take(k as int).contains(value),
                decreases set@.len() - k,
            {
                if set[k] == value {
                    found = true;
                }
                proof {
                    let t0 = set@.take(k as int);
                    let t1 = set@.take(k + 1);
                    assert(t1 =~= t0.push(set@[k as int]));
                    if t0.contains(value) {
                        let j = choose|j: int| 0 <= j < t0.len() && t0[j] == value;
                        assert(t1[j] == value);
                    }
                    if t1.contains(value) && set@[k as int] != value {
                        let j = choose|j: int| 0 <= j < t1.len() && t1[j] == value;
                        assert(t0[j] == value);
                    }
                    if set@[k as int] == value {
                        assert(t1[k as int] == value);
                    }
                }
                k = k + 1;
            }
            assert(set@.take(set@.len() as int) =~= set@);
            let ghost old_set = set@;
            if !found {
                set.push(value);
            }
            proof {
                if !found {
                    old_set.lemma_push_to_set_commute(value);
                } else {
                    assert(old_set.to_set().insert(value) =~= old_set.to_set());
                }
                if before.0@[index as int] is None {
                    assert(old_set.to_set() =~= Set::<usize>::empty());
                }
            }
            self.0.set(index, Some(set));
            proof {
                assert(self@ =~= before@.update(index as int, before@[index as int].insert(value)));
            }
        }
    }

    /// The successors of `index`, each once; none past the end.
    pub fn walk(&self, index: usize) -> (r: Vec<usize>)
        requires
            self.wf(),
        ensures
            r@.no_duplicates(),
            index < self@.len() ==> r@.to_set() == self@[index as int],
            index >= self@.len() ==> r@.len() == 0,
    {
        if index < self.0.len() {
            match &self.0[index] {
                Some(v) => {
                    let r = v.clone();
                    assert(r@ =~= v@);
                    r
                },
                None => {
                    let r: Vec<usize> = Vec::new();
                    assert(r@.to_set() =~= Set::<usize>::empty());
                    r
                },
            }
        } else {
            Vec::new()
        }
    }
}

} // verus!
