use vstd::prelude::*;

use super::lookup::{classes_by_root, faction_of, key_of, keys_of, Collision, DisjointSet, Faction, Groups};
use super::motion::Motion;
use super::movement::{spec_offset, Action, Movement, Restriction};
use super::types::{spec_absorbable, Kind};
use crate::common::forest::{flat_distinct, is_partition};
use crate::common::neighborhood::{interior, neighbor, Adjacence, Neighborhood};
use crate::common::point::Point;
use crate::refactor::cube::{fits, lbtr, shift_fits, shifted, side_index};
use crate::refactor::stopping::near;

verus! {

/// One cell of the board: the cube it belongs to, where it is, and its neighbours in that cube.
#[derive(Clone, Copy, Debug)]
pub struct Unit {
    pub head: usize,
    pub position: Point,
    pub neighborhood: Neighborhood,
}

/// The position of the unit that `index` names, or the origin when there is none.
pub open spec fn anchor_at(index: Option<usize>, units: Seq<Unit>) -> Point {
    match index {
        Some(i) if i < units.len() => units[i as int].position,
        _ => Point { x: 0, y: 0 },
    }
}

/// The first of `indexes`, if any.
pub open spec fn first_of(indexes: Seq<usize>) -> Option<usize> {
    if indexes.len() > 0 {
        Some(indexes[0])
    } else {
        None
    }
}

/// `first + offset(a) - u.position`.
pub open spec fn unit_offset(first: Point, u: Unit, a: Adjacence) -> Point {
    Point {
        x: (first.x + a.spec_offset().0 - u.position.x) as i32,
        y: (first.y + a.spec_offset().1 - u.position.y) as i32,
    }
}

/// The offsets kept for side `a`: one per named unit without a neighbour there, in order.
pub open spec fn unit_side(units: Seq<Unit>, indexes: Seq<usize>, a: Adjacence) -> Seq<Point> {
    let first = anchor_at(first_of(indexes), units);
    indexes.filter(|i: usize| !units[i as int].neighborhood.spec_has(a)).map_values(
        |i: usize| unit_offset(first, units[i as int], a),
    )
}

/// Every offset kept for the named units fits, and so does each step to it.
pub open spec fn unit_offsets_fit(units: Seq<Unit>, indexes: Seq<usize>) -> bool {
    forall|k: int, s: int|
        0 <= k < indexes.len() && 0 <= s < 4 && !units[(#[trigger] indexes[k]) as int].neighborhood.spec_has(
            #[trigger] lbtr(s),
        ) ==> {
            let first = anchor_at(first_of(indexes), units);
            let p = units[indexes[k] as int].position;
            let o = lbtr(s).spec_offset();
            &&& fits(first.x + o.0)
            &&& fits(first.y + o.1)
            &&& fits(first.x + o.0 - p.x)
            &&& fits(first.y + o.1 - p.y)
        }
}

fn side_at(i: usize) -> (r: Adjacence)
    requires
        i < 4,
    ensures
        r == lbtr(i as int),
{
    if i == 0 {
        Adjacence::LEFT
    } else if i == 1 {
        Adjacence::BOTTOM
    } else if i == 2 {
        Adjacence::TOP
    } else {
        Adjacence::RIGHT
    }
}

/// The cells around a cube, side by side, kept as offsets from its first unit.
#[derive(Clone, Debug)]
pub struct Outlines {
    count: [usize; 3],
    slice: Vec<Point>,
}

impl Outlines {
    pub closed spec fn wf(self) -> bool {
        self.count@[0] <= self.count@[1] <= self.count@[2] <= self.slice@.len()
    }

    /// The offsets kept for side `i` of `lbtr`.
    pub closed spec fn sides(self, i: int) -> Seq<Point> {
        let c = self.count@;
        let n = self.slice@.len() as int;
        let lo = if i == 0 { 0 } else { c[i - 1] as int };
        let hi = if i == 3 { n } else { c[i] as int };
        self.slice@.subrange(lo, hi)
    }

    /// Every offset kept, side by side.
    pub closed spec fn offsets(self) -> Seq<Point> {
        self.slice@
    }

    /// The outlines of the cube made of the units that `indexes` names.
    pub fn new(units: &[Unit], indexes: &[usize]) -> (r: Outlines)
        requires
            forall|k: int| 0 <= k < indexes@.len() ==> #[trigger] indexes@[k] < units@.len(),
            unit_offsets_fit(units@, indexes@),
        ensures
            r.wf(),
            forall|i: int| 0 <= i < 4 ==> #[trigger] r.sides(i) == unit_side(units@, indexes@, lbtr(i)),
            r.offsets() == unit_side(units@, indexes@, lbtr(0)) + unit_side(units@, indexes@, lbtr(1))
                + unit_side(units@, indexes@, lbtr(2)) + unit_side(units@, indexes@, lbtr(3)),
    {
        let first = Self::anchor(if indexes.len() > 0 {
            Some(indexes[0])
        } else {
            None
        }, units);
        let ghost us = units@;
        let ghost ids = indexes@;
        let mut slice: Vec<Point> = Vec::new();
        let mut count: [usize; 3] = [0, 0, 0];
        let mut i: usize = 0;
        while i < 4
            invariant
                i <= 4,
                us == units@,
                ids == indexes@,
                forall|k: int| 0 <= k < ids.len() ==> #[trigger] ids[k] < us.len(),
                unit_offsets_fit(us, ids),
                first == anchor_at(first_of(ids), us),
                slice@ == (if i == 0 {
                    Seq::<Point>::empty()
                } else if i == 1 {
                    unit_side(us, ids, lbtr(0))
                } else if i == 2 {
                    unit_side(us, ids, lbtr(0)) + unit_side(us, ids, lbtr(1))
                } else if i == 3 {
                    unit_side(us, ids, lbtr(0)) + unit_side(us, ids, lbtr(1)) + unit_side(us, ids, lbtr(2))
                } else {
                    unit_side(us, ids, lbtr(0)) + unit_side(us, ids, lbtr(1)) + unit_side(us, ids, lbtr(2))
                        + unit_side(us, ids, lbtr(3))
                }),
                i >= 1 ==> count@[0] == unit_side(us, ids, lbtr(0)).len(),
                i >= 2 ==> count@[1] == unit_side(us, ids, lbtr(0)).len() + unit_side(us, ids, lbtr(1)).len(),
                i >= 3 ==> count@[2] == unit_side(us, ids, lbtr(0)).len() + unit_side(us, ids, lbtr(1)).len()
                    + unit_side(us, ids, lbtr(2)).len(),
            decreases 4 - i,
        {
            let a = side_at(i);
            let ghost start = slice@;
            let mut k: usize = 0;
            while k < indexes.len()
                invariant
                    i < 4,
                    k <= ids.len(),
                    us == units@,
                    ids == indexes@,
                    a == lbtr(i as int),
                    forall|k: int| 0 <= k < ids.len() ==> #[trigger] ids[k] < us.len(),
                    unit_offsets_fit(us, ids),
                    first == anchor_at(first_of(ids), us),
                    slice@ == start + ids.take(k as int).filter(
                        |j: usize| !us[j as int].neighborhood.spec_has(a),
                    ).map_values(|j: usize| unit_offset(first, us[j as int], a)),
                decreases ids.len() - k,
            {
                let id = indexes[k];
                assert(id < us.len());
                let u = units[id];
                proof {
                    assert(ids.take(k + 1) =~= ids.take(k as int).push(id));
                    ids.take(k as int).lemma_filter_push(
                        id,
                        |j: usize| !us[j as int].neighborhood.spec_has(a),
                    );
                }
                if !u.neighborhood.has(a) {
                    proof {
                        assert(!us[ids[k as int] as int].neighborhood.spec_has(lbtr(i as int)));
                    }
                    let o = a.into_point();
                    let p = first.add(o).sub(u.position);
                    slice.push(p);
                    proof {
                        let f = ids.take(k as int).filter(|j: usize| !us[j as int].neighborhood.spec_has(a));
                        assert(f.push(id).map_values(|j: usize| unit_offset(first, us[j as int], a))
                            =~= f.map_values(|j: usize| unit_offset(first, us[j as int], a)).push(
                            unit_offset(first, u, a),
                        ));
                    }
                }
                k = k + 1;
            }
            proof {
                assert(ids.take(ids.len() as int) =~= ids);
            }
            if i < 3 {
                count[i] = slice.len();
            }
            i = i + 1;
        }
        let r = Outlines { count, slice };
        proof {
            assert(r.sides(0) =~= unit_side(us, ids, lbtr(0)));
            assert(r.sides(1) =~= unit_side(us, ids, lbtr(1)));
            assert(r.sides(2) =~= unit_side(us, ids, lbtr(2)));
            assert(r.sides(3) =~= unit_side(us, ids, lbtr(3)));
        }
        r
    }

    /// The outline points kept for the side of `movement`, each placed as `anchor` minus
    /// its offset, as `all` places every outline point: the side that `new` measured,
    /// mirrored through the anchor.
    pub fn one(&self, anchor: Point, movement: Movement) -> (r: Vec<Point>)
        requires
            self.wf(),
            shift_fits(anchor, self.offsets()),
        ensures
            r@ == shifted(anchor, self.sides(side_index(movement))),
    {
        let n = self.slice.len();
        let (lo, hi) = match movement {
            Movement::Left => (0, self.count[0]),
            Movement::Down => (self.count[0], self.count[1]),
            Movement::Up => (self.count[1], self.count[2]),
            Movement::Right => (self.count[2], n),
        };
        let mut r: Vec<Point> = Vec::new();
        let mut k: usize = lo;
        while k < hi
            invariant
                lo <= k <= hi <= self.slice@.len(),
                shift_fits(anchor, self.offsets()),
                r@ == shifted(anchor, self.slice@.subrange(lo as int, k as int)),
            decreases hi - k,
        {
            let o = self.slice[k];
            assert(fits(anchor.x - self.slice@[k as int].x));
            r.push(anchor.sub(o));
            proof {
                assert(self.slice@.subrange(lo as int, k + 1) =~= self.slice@.subrange(
                    lo as int,
                    k as int,
                ).push(o));
                assert(shifted(anchor, self.slice@.subrange(lo as int, k + 1)) =~= shifted(
                    anchor,
                    self.slice@.subrange(lo as int, k as int),
                ).push(Point { x: (anchor.x - o.x) as i32, y: (anchor.y - o.y) as i32 }));
            }
            k = k + 1;
        }
        r
    }

    /// Every cell around a cube anchored at `anchor`.
    pub fn all(&self, anchor: Point) -> (r: Vec<Point>)
        requires
            shift_fits(anchor, self.offsets()),
        ensures
            r@ == shifted(anchor, self.offsets()),
    {
        let mut r: Vec<Point> = Vec::new();
        let mut k: usize = 0;
        while k < self.slice.len()
            invariant
                k <= self.slice@.len(),
                shift_fits(anchor, self.offsets()),
                r@ == shifted(anchor, self.slice@.take(k as int)),
            decreases self.slice@.len() - k,
        {
            let o = self.slice[k];
            assert(fits(anchor.x - self.slice@[k as int].x));
            r.push(anchor.sub(o));
            proof {
                assert(self.slice@.take(k + 1) =~= self.slice@.take(k as int).push(o));
                assert(shifted(anchor, self.slice@.take(k + 1)) =~= shifted(
                    anchor,
                    self.slice@.take(k as int),
                ).push(Point { x: (anchor.x - o.x) as i32, y: (anchor.y - o.y) as i32 }));
            }
            k = k + 1;
        }
        assert(self.slice@.take(self.slice@.len() as int) =~= self.slice@);
        r
    }

    /// The position of the unit that `index` names, or the origin when there is none.
    pub fn anchor(index: Option<usize>, units: &[Unit]) -> (r: Point)
        ensures
            r == anchor_at(index, units@),
    {
        match index {
            Some(i) if i < units.len() => units[i].position,
            _ => Point { x: 0, y: 0 },
        }
    }
}


/// Where a head of the next state comes from.
#[derive(Clone, Debug, PartialEq, Eq)]
pub enum Source {
    /// The head at this index, as it was.
    Copy { head: usize },
    /// The head at this index, absorbing the heads of `tail`.
    Link { head: usize, tail: Vec<usize> },
}

/// A head of the next state; `moving` marks a head absorbed by another, or, once the list
/// is packed, a head that changed place.
#[derive(Clone, Debug, PartialEq, Eq)]
pub struct Mapping {
    pub moving: bool,
    pub source: Source,
}

/// A mapping as values: the head, and the heads it absorbs if it links.
pub struct MappingView {
    pub moving: bool,
    pub head: usize,
    pub tail: Option<Seq<usize>>,
}

impl View for Mapping {
    type V = MappingView;

    open spec fn view(&self) -> MappingView {
        match self.source {
            Source::Copy { head } => MappingView { moving: self.moving, head, tail: None },
            Source::Link { head, tail } => MappingView { moving: self.moving, head, tail: Some(tail@) },
        }
    }
}

/// The mappings as values.
pub open spec fn views(ms: Seq<Mapping>) -> Seq<MappingView> {
    ms.map_values(|m: Mapping| m@)
}

/// Every head copied as it is.
pub open spec fn copied(n: nat) -> Seq<MappingView> {
    Seq::new(n, |i: int| MappingView { moving: false, head: i as usize, tail: None })
}

/// `kinds[l]` absorbs every member of `g`.
pub open spec fn absorbs_all(kinds: Seq<Kind>, g: Seq<usize>, l: usize) -> bool {
    forall|j: int| 0 <= j < g.len() ==> spec_absorbable(kinds[l as int], kinds[#[trigger] g[j] as int])
}

/// The first place at or after `p` in `g` of a member that absorbs all of `g`.
pub open spec fn leader_from(kinds: Seq<Kind>, g: Seq<usize>, p: int) -> Option<int>
    decreases g.len() - p,
{
    if p < 0 || p >= g.len() {
        None
    } else if absorbs_all(kinds, g, g[p]) {
        Some(p)
    } else {
        leader_from(kinds, g, p + 1)
    }
}

/// `g` without its member at `p`, the last member taking its place.
pub open spec fn swap_removed(g: Seq<usize>, p: int) -> Seq<usize> {
    if p == g.len() - 1 {
        g.drop_last()
    } else {
        g.update(p, g.last()).drop_last()
    }
}

/// The mappings after linking one group: the members that name heads, led by the first
/// that absorbs them all; the others are marked as absorbed.
pub open spec fn linked(ms: Seq<MappingView>, kinds: Seq<Kind>, g: Seq<usize>) -> Seq<MappingView> {
    let g2 = g.filter(|i: usize| i < kinds.len());
    match leader_from(kinds, g2, 0) {
        None => ms,
        Some(p) => {
            let head = g2[p];
            let tail = swap_removed(g2, p);
            let marked = Seq::new(
                ms.len(),
                |i: int|
                    if tail.contains(i as usize) {
                        MappingView { moving: true, head: ms[i].head, tail: ms[i].tail }
                    } else {
                        ms[i]
                    },
            );
            marked.update(head as int, MappingView { moving: false, head, tail: Some(tail) })
        },
    }
}

/// The mappings after linking each group in turn.
pub open spec fn linked_all(ms: Seq<MappingView>, kinds: Seq<Kind>, gs: Seq<Seq<usize>>) -> Seq<MappingView>
    decreases gs.len(),
{
    if gs.len() == 0 {
        ms
    } else {
        linked(linked_all(ms, kinds, gs.drop_last()), kinds, gs.last())
    }
}

/// Going down from `m` towards `i`, the first place that is `i` or holds an unmarked mapping.
pub open spec fn last_kept(ms: Seq<MappingView>, i: int, m: int) -> int
    decreases m - i,
{
    if m > i && ms[m].moving {
        last_kept(ms, i, m - 1)
    } else {
        m
    }
}

/// Packing from place `i` with `n` places in use: each marked mapping gives its place to
/// the last unmarked one, which is then marked as moved.
pub open spec fn packed(ms: Seq<MappingView>, i: int, n: int) -> (Seq<MappingView>, int)
    decreases n - i,
{
    if i >= n {
        (ms, n)
    } else if ms[i].moving {
        let m = last_kept(ms, i, n - 1);
        proof {
            lemma_last_kept(ms, i, n - 1);
        }
        if i < m {
            let moved = ms[m];
            let ms2 = ms.update(m, ms[i]).update(i, MappingView { moving: true, head: moved.head, tail: moved.tail });
            packed(ms2, i + 1, m)
        } else {
            (ms, m)
        }
    } else {
        packed(ms, i + 1, n)
    }
}

/// The mappings of heads of the given kinds after linking the groups, packed.
pub open spec fn mappings_of(kinds: Seq<Kind>, gs: Seq<Seq<usize>>) -> Seq<MappingView> {
    let ms = linked_all(copied(kinds.len()), kinds, gs);
    let (packed_ms, n) = packed(ms, 0, ms.len() as int);
    packed_ms.take(n)
}

pub proof fn lemma_last_kept(ms: Seq<MappingView>, i: int, m: int)
    requires
        i <= m,
    ensures
        i <= last_kept(ms, i, m) <= m,
        forall|k: int| last_kept(ms, i, m) < k <= m ==> (#[trigger] ms[k]).moving,
        last_kept(ms, i, m) > i ==> !ms[last_kept(ms, i, m)].moving,
    decreases m - i,
{
    if m > i && ms[m].moving {
        lemma_last_kept(ms, i, m - 1);
    }
}

pub proof fn lemma_packed_len(ms: Seq<MappingView>, i: int, n: int)
    requires
        0 <= i,
        n <= ms.len(),
    ensures
        packed(ms, i, n).0.len() == ms.len(),
        packed(ms, i, n).1 <= (if i > n { i } else { n }),
        0 <= n ==> 0 <= packed(ms, i, n).1,
    decreases n - i,
{
    if i < n {
        if ms[i].moving {
            lemma_last_kept(ms, i, n - 1);
            let m = last_kept(ms, i, n - 1);
            if i < m {
                let moved = ms[m];
                let ms2 = ms.update(m, ms[i]).update(i, MappingView { moving: true, head: moved.head, tail: moved.tail });
                lemma_packed_len(ms2, i + 1, m);
            }
        } else {
            lemma_packed_len(ms, i + 1, n);
        }
    }
}

pub proof fn lemma_leader_from_range(kinds: Seq<Kind>, g: Seq<usize>, p: int)
    requires
        0 <= p,
    ensures
        leader_from(kinds, g, p) matches Some(q) ==> p <= q < g.len(),
    decreases g.len() - p,
{
    if p < g.len() && !absorbs_all(kinds, g, g[p]) {
        lemma_leader_from_range(kinds, g, p + 1);
    }
}

/// Keeping some members of a sequence with no repeats keeps it without repeats.
proof fn lemma_filter_no_dup(s: Seq<usize>, p: spec_fn(usize) -> bool)
    requires
        s.no_duplicates(),
    ensures
        s.filter(p).no_duplicates(),
    decreases s.len(),
{
    if s.len() > 0 {
        let t = s.drop_last();
        let e = s.last();
        assert(t.no_duplicates());
        lemma_filter_no_dup(t, p);
        assert(s =~= t.push(e));
        t.lemma_filter_push(e, p);
        if p(e) {
            assert(!t.contains(e));
            if t.filter(p).contains(e) {
                t.lemma_filter_contains_rev(p, e);
            }
            let f = t.filter(p);
            assert forall|a: int, b: int| 0 <= a < f.len() + 1 && 0 <= b < f.len() + 1 && a != b implies f.push(e)[a] != f.push(e)[b] by {
                if a == f.len() as int {
                    assert(f.contains(f[b]));
                }
                if b == f.len() as int {
                    assert(f.contains(f[a]));
                }
            }
        }
    }
}

/// Mapping `m` takes cube `y`: as its head, or in its tail.
pub open spec fn takes(m: MappingView, y: usize) -> bool {
    m.head == y || (m.tail matches Some(t) && t.contains(y))
}

/// No two mappings take one cube, and no mapping takes a cube twice.
pub open spec fn takes_once(ms: Seq<MappingView>) -> bool {
    &&& forall|i: int, j: int, y: usize|
        0 <= i < ms.len() && 0 <= j < ms.len() && i != j && #[trigger] takes(ms[i], y) ==> !#[trigger] takes(ms[j], y)
    &&& forall|i: int|
        0 <= i < ms.len() ==> ((#[trigger] ms[i]).tail matches Some(t) ==> t.no_duplicates() && !t.contains(ms[i].head))
}

/// Every cube that the mappings take is below `n`.
pub open spec fn takes_below(ms: Seq<MappingView>, n: int) -> bool {
    forall|i: int, y: usize| 0 <= i < ms.len() && #[trigger] takes(ms[i], y) ==> y < n
}

/// The state of linking after the groups whose members below `n` are `used`: each entry
/// keeps its head; a linked entry is a leader of used cubes, unmarked, with a tail of
/// other used cubes; a cube is marked exactly when some tail holds it, and no two tails
/// share a cube; the entries of cubes not used are as copied.
spec fn linking(ms: Seq<MappingView>, n: int, used: Set<usize>) -> bool {
    &&& ms.len() == n
    &&& n <= usize::MAX
    &&& forall|x: int| 0 <= x < n ==> (#[trigger] ms[x]).head == x
    &&& forall|x: int|
        0 <= x < n ==> ((#[trigger] ms[x]).tail matches Some(t) ==> {
            &&& used.contains(x as usize)
            &&& !ms[x].moving
            &&& t.no_duplicates()
            &&& !t.contains(x as usize)
            &&& forall|k: int| 0 <= k < t.len() ==> #[trigger] t[k] < n && used.contains(t[k])
        })
    &&& forall|x: int|
        0 <= x < n ==> ((#[trigger] ms[x]).moving <==> exists|z: int| 0 <= z < n && #[trigger] tail_holds(ms[z], x as usize))
    &&& forall|z1: int, z2: int, y: usize|
        0 <= z1 < n && 0 <= z2 < n && z1 != z2 && #[trigger] tail_holds(ms[z1], y) ==> !#[trigger] tail_holds(ms[z2], y)
    &&& forall|x: int| 0 <= x < n && !used.contains(x as usize) ==> #[trigger] ms[x] == MappingView { moving: false, head: x as usize, tail: None }
}

/// The tail of `m` holds `y`.
pub open spec fn tail_holds(m: MappingView, y: usize) -> bool {
    m.tail matches Some(t) && t.contains(y)
}

/// The members of the groups of `gs` below `n`.
spec fn members_below(gs: Seq<Seq<usize>>, n: int) -> Set<usize> {
    Set::new(|y: usize| y < n && exists|g: int, j: int| 0 <= g < gs.len() && 0 <= j < gs[g].len() && #[trigger] gs[g][j] == y)
}

/// A sequence with no repeats keeps none when its member at `p` is swapped out, and
/// holds exactly the others.
proof fn lemma_swap_removed(g: Seq<usize>, p: int)
    requires
        g.no_duplicates(),
        0 <= p < g.len(),
    ensures
        swap_removed(g, p).no_duplicates(),
        forall|y: usize| #[trigger] swap_removed(g, p).contains(y) <==> (g.contains(y) && y != g[p]),
{
    let t = swap_removed(g, p);
    if p == g.len() - 1 {
        assert forall|y: usize| #[trigger] t.contains(y) <==> (g.contains(y) && y != g[p]) by {
            if g.contains(y) && y != g[p] {
                let k = choose|k: int| 0 <= k < g.len() && g[k] == y;
                assert(t[k] == y);
            }
        }
    } else {
        assert forall|y: usize| #[trigger] t.contains(y) <==> (g.contains(y) && y != g[p]) by {
            if g.contains(y) && y != g[p] {
                let k = choose|k: int| 0 <= k < g.len() && g[k] == y;
                if k == g.len() - 1 {
                    assert(t[p] == y);
                } else {
                    assert(t[k] == y);
                }
            }
            if t.contains(y) {
                let k = choose|k: int| 0 <= k < t.len() && t[k] == y;
                if k == p {
                    assert(g[g.len() - 1] == y);
                } else {
                    assert(g[k] == y);
                }
            }
        }
    }
}

/// Linking one more group, fresh, keeps the state of linking.
proof fn lemma_linked_step(ms: Seq<MappingView>, kinds: Seq<Kind>, g: Seq<usize>, used: Set<usize>)
    requires
        linking(ms, kinds.len() as int, used),
        g.no_duplicates(),
        forall|k: int| 0 <= k < g.len() ==> !used.contains(#[trigger] g[k]),
    ensures
        linking(linked(ms, kinds, g), kinds.len() as int, used.union(Set::new(|y: usize| y < kinds.len() && g.contains(y)))),
{
    let n = kinds.len() as int;
    let g2 = g.filter(|i: usize| i < kinds.len());
    let used2 = used.union(Set::new(|y: usize| y < kinds.len() && g.contains(y)));
    assert forall|y: usize| #[trigger] g2.contains(y) <==> (g.contains(y) && y < n) by {
        if g.contains(y) && y < n {
            let k = choose|k: int| 0 <= k < g.len() && g[k] == y;
            g.lemma_filter_contains(|i: usize| i < kinds.len(), k);
        }
        if g2.contains(y) {
            let k = choose|k: int| 0 <= k < g2.len() && g2[k] == y;
            g.lemma_filter_pred(|i: usize| i < kinds.len(), k);
            g.lemma_filter_contains_rev(|i: usize| i < kinds.len(), y);
        }
    }
    lemma_filter_no_dup(g, |i: usize| i < kinds.len());
    lemma_leader_from_range(kinds, g2, 0);
    match leader_from(kinds, g2, 0) {
        None => {
            let r = linked(ms, kinds, g);
            assert(r == ms);
            assert forall|x: int| 0 <= x < n && !used2.contains(x as usize) implies #[trigger] r[x] == MappingView { moving: false, head: x as usize, tail: None } by {
                assert(!used.contains(x as usize));
            }
        },
        Some(p) => {
            let head = g2[p];
            let tail = swap_removed(g2, p);
            lemma_swap_removed(g2, p);
            assert(g2.contains(head));
            let r = linked(ms, kinds, g);
            assert(!used.contains(head)) by {
                let k = choose|k: int| 0 <= k < g.len() && g[k] == head;
            }
            assert forall|y: usize| #[trigger] tail.contains(y) implies !used.contains(y) && y < n by {
                let k = choose|k: int| 0 <= k < g.len() && g[k] == y;
            }
            assert(ms[head as int] == MappingView { moving: false, head, tail: None });
            // tails of ms only hold used cubes
            assert forall|z: int, y: usize| 0 <= z < n && #[trigger] tail_holds(ms[z], y) implies used.contains(y) by {
                let t = ms[z].tail->0;
                let k = choose|k: int| 0 <= k < t.len() && t[k] == y;
            }
            assert forall|x: int| 0 <= x < n implies (#[trigger] r[x]).head == x by {}
            assert forall|x: int|
                0 <= x < n implies ((#[trigger] r[x]).tail matches Some(t) ==> {
                    &&& used2.contains(x as usize)
                    &&& !r[x].moving
                    &&& t.no_duplicates()
                    &&& !t.contains(x as usize)
                    &&& forall|k: int| 0 <= k < t.len() ==> #[trigger] t[k] < n && used2.contains(t[k])
                }) by {
                if x == head as int {
                    assert forall|k: int| 0 <= k < tail.len() implies #[trigger] tail[k] < n && used2.contains(tail[k]) by {
                        assert(tail.contains(tail[k]));
                    }
                } else if tail.contains(x as usize) {
                    assert(!used.contains(x as usize));
                    assert(ms[x].tail is None);
                }
            }
            assert forall|x: int|
                0 <= x < n implies ((#[trigger] r[x]).moving <==> exists|z: int| 0 <= z < n && #[trigger] tail_holds(r[z], x as usize)) by {
                if tail.contains(x as usize) {
                    assert(tail_holds(r[head as int], x as usize));
                } else if x == head as int {
                    if exists|z: int| 0 <= z < n && #[trigger] tail_holds(r[z], x as usize) {
                        let z = choose|z: int| 0 <= z < n && #[trigger] tail_holds(r[z], x as usize);
                        if z != head as int {
                            assert(tail_holds(ms[z], x as usize));
                        }
                    }
                } else {
                    if exists|z: int| 0 <= z < n && #[trigger] tail_holds(r[z], x as usize) {
                        let z = choose|z: int| 0 <= z < n && #[trigger] tail_holds(r[z], x as usize);
                        if z != head as int {
                            assert(r[z].tail == ms[z].tail);
                            assert(tail_holds(ms[z], x as usize));
                        }
                    }
                    if ms[x].moving {
                        let z = choose|z: int| 0 <= z < n && #[trigger] tail_holds(ms[z], x as usize);
                        if z == head as int {
                            assert(ms[z].tail is None);
                        }
                        assert(r[z].tail == ms[z].tail);
                        assert(tail_holds(r[z], x as usize));
                    }
                }
            }
            assert forall|z1: int, z2: int, y: usize|
                0 <= z1 < n && 0 <= z2 < n && z1 != z2 && #[trigger] tail_holds(r[z1], y) implies !#[trigger] tail_holds(r[z2], y) by {
                if z1 == head as int {
                    if tail_holds(r[z2], y) {
                        assert(r[z2].tail == ms[z2].tail);
                        assert(tail_holds(ms[z2], y));
                    }
                } else if z2 == head as int {
                    assert(r[z1].tail == ms[z1].tail);
                    assert(tail_holds(ms[z1], y));
                } else {
                    assert(r[z1].tail == ms[z1].tail);
                    assert(r[z2].tail == ms[z2].tail);
                }
            }
            assert forall|x: int| 0 <= x < n && !used2.contains(x as usize) implies #[trigger] r[x] == MappingView { moving: false, head: x as usize, tail: None } by {
                assert(!used.contains(x as usize));
                assert(!g2.contains(x as usize));
                assert(!tail.contains(x as usize));
            }
        },
    }
}

/// Linking the groups in turn, each fresh, keeps the state of linking.
proof fn lemma_linked_all(kinds: Seq<Kind>, gs: Seq<Seq<usize>>)
    requires
        kinds.len() <= usize::MAX,
        forall|g: int| 0 <= g < gs.len() ==> (#[trigger] gs[g]).no_duplicates(),
        forall|g1: int, j1: int, g2: int, j2: int|
            0 <= g1 < gs.len() && 0 <= j1 < gs[g1].len() && 0 <= g2 < gs.len() && 0 <= j2 < gs[g2].len()
                && g1 != g2 ==> #[trigger] gs[g1][j1] != #[trigger] gs[g2][j2],
    ensures
        linking(linked_all(copied(kinds.len()), kinds, gs), kinds.len() as int, members_below(gs, kinds.len() as int)),
    decreases gs.len(),
{
    let n = kinds.len() as int;
    if gs.len() == 0 {
        let ms = copied(kinds.len());
        assert(members_below(gs, n) =~= Set::<usize>::empty());
        assert forall|x: int| 0 <= x < n implies ((#[trigger] ms[x]).moving <==> exists|z: int| 0 <= z < n && #[trigger] tail_holds(ms[z], x as usize)) by {}
    } else {
        let rest = gs.drop_last();
        let g = gs.last();
        assert forall|g1: int| 0 <= g1 < rest.len() implies (#[trigger] rest[g1]).no_duplicates() by {
            assert(rest[g1] == gs[g1]);
        }
        assert forall|g1: int, j1: int, g2: int, j2: int|
            0 <= g1 < rest.len() && 0 <= j1 < rest[g1].len() && 0 <= g2 < rest.len() && 0 <= j2 < rest[g2].len()
                && g1 != g2 implies #[trigger] rest[g1][j1] != #[trigger] rest[g2][j2] by {
            assert(rest[g1] == gs[g1] && rest[g2] == gs[g2]);
        }
        lemma_linked_all(kinds, rest);
        let used = members_below(rest, n);
        assert(g.no_duplicates());
        assert forall|k: int| 0 <= k < g.len() implies !used.contains(#[trigger] g[k]) by {
            if used.contains(g[k]) {
                let (g1, j1) = choose|g1: int, j1: int| 0 <= g1 < rest.len() && 0 <= j1 < rest[g1].len() && #[trigger] rest[g1][j1] == g[k];
                assert(gs[g1][j1] == gs[gs.len() - 1][k]);
            }
        }
        lemma_linked_step(linked_all(copied(kinds.len()), kinds, rest), kinds, g, used);
        assert(used.union(Set::new(|y: usize| y < kinds.len() && g.contains(y))) =~= members_below(gs, n)) by {
            assert forall|y: usize| #[trigger] members_below(gs, n).contains(y) implies used.union(Set::new(|y: usize| y < kinds.len() && g.contains(y))).contains(y) by {
                let (g1, j1) = choose|g1: int, j1: int| 0 <= g1 < gs.len() && 0 <= j1 < gs[g1].len() && #[trigger] gs[g1][j1] == y;
                if g1 < rest.len() {
                    assert(rest[g1][j1] == y);
                } else {
                    assert(g[j1] == y);
                }
            }
            assert forall|y: usize| used.union(Set::new(|y: usize| y < kinds.len() && g.contains(y))).contains(y) implies #[trigger] members_below(gs, n).contains(y) by {
                if used.contains(y) {
                    let (g1, j1) = choose|g1: int, j1: int| 0 <= g1 < rest.len() && 0 <= j1 < rest[g1].len() && #[trigger] rest[g1][j1] == y;
                    assert(gs[g1][j1] == y);
                } else {
                    let j1 = choose|j1: int| 0 <= j1 < g.len() && g[j1] == y;
                    assert(gs[gs.len() - 1][j1] == y);
                }
            }
        }
    }
}

/// Packing from place `i` with `n` places in use: the heads stay distinct, each entry
/// stays the entry of its head in `orig`, the entries before both `i` and `n` are unmarked
/// in `orig`, those from `i` to `n` keep their marks, and those from `n` on are marked.
spec fn packing(orig: Seq<MappingView>, cur: Seq<MappingView>, i: int, n: int) -> bool {
    &&& cur.len() == orig.len()
    &&& 0 <= i
    &&& 0 <= n <= cur.len()
    &&& forall|a: int, b: int| 0 <= a < cur.len() && 0 <= b < cur.len() && a != b ==> #[trigger] cur[a].head != #[trigger] cur[b].head
    &&& forall|k: int|
        0 <= k < cur.len() ==> (#[trigger] cur[k]).head < orig.len() && orig[cur[k].head as int].head == cur[k].head
            && cur[k].tail == orig[cur[k].head as int].tail
    &&& forall|k: int| 0 <= k < i && k < n ==> !orig[(#[trigger] cur[k]).head as int].moving
    &&& forall|k: int| i <= k < n ==> (#[trigger] cur[k]).moving == orig[cur[k].head as int].moving
    &&& forall|k: int| n <= k < cur.len() ==> orig[(#[trigger] cur[k]).head as int].moving
}

/// Packing keeps only entries unmarked in `orig`, each for a head of its own.
proof fn lemma_packed(orig: Seq<MappingView>, cur: Seq<MappingView>, i: int, n: int)
    requires
        packing(orig, cur, i, n),
    ensures
        ({
            let (r, m) = packed(cur, i, n);
            &&& r.len() == orig.len()
            &&& 0 <= m <= n
            &&& forall|a: int, b: int| 0 <= a < r.len() && 0 <= b < r.len() && a != b ==> #[trigger] r[a].head != #[trigger] r[b].head
            &&& forall|k: int|
                0 <= k < m ==> (#[trigger] r[k]).head < orig.len() && !orig[r[k].head as int].moving
                    && orig[r[k].head as int].head == r[k].head && r[k].tail == orig[r[k].head as int].tail
            &&& forall|k: int| 0 <= k < r.len() ==> (#[trigger] r[k]).head < orig.len()
            &&& forall|k: int| m <= k < r.len() ==> orig[(#[trigger] r[k]).head as int].moving
        }),
    decreases n - i,
{
    if i < n {
        if cur[i].moving {
            lemma_last_kept(cur, i, n - 1);
            let m = last_kept(cur, i, n - 1);
            if i < m {
                let moved = cur[m];
                let cur2 = cur.update(m, cur[i]).update(i, MappingView { moving: true, head: moved.head, tail: moved.tail });
                assert forall|a: int, b: int| 0 <= a < cur2.len() && 0 <= b < cur2.len() && a != b implies #[trigger] cur2[a].head != #[trigger] cur2[b].head by {
                    let fa = if a == i { m } else if a == m { i } else { a };
                    let fb = if b == i { m } else if b == m { i } else { b };
                    assert(cur2[a].head == cur[fa].head);
                    assert(cur2[b].head == cur[fb].head);
                }
                assert forall|k: int| m <= k < cur2.len() implies orig[(#[trigger] cur2[k]).head as int].moving by {
                    if k > m && k < n {
                        assert(cur[k].moving);
                    }
                }
                lemma_packed(orig, cur2, i + 1, m);
            } else {
                assert forall|k: int| 0 <= k < i && k < m implies !orig[(#[trigger] cur[k]).head as int].moving by {}
            }
        } else {
            lemma_packed(orig, cur, i + 1, n);
        }
    }
}

/// The packed mappings take each cube at most once, and only cubes below the number of
/// kinds, when the groups are disjoint and each without repeats.
pub proof fn lemma_mappings_take_once(kinds: Seq<Kind>, gs: Seq<Seq<usize>>)
    requires
        kinds.len() <= usize::MAX,
        forall|g: int| 0 <= g < gs.len() ==> (#[trigger] gs[g]).no_duplicates(),
        forall|g1: int, j1: int, g2: int, j2: int|
            0 <= g1 < gs.len() && 0 <= j1 < gs[g1].len() && 0 <= g2 < gs.len() && 0 <= j2 < gs[g2].len()
                && g1 != g2 ==> #[trigger] gs[g1][j1] != #[trigger] gs[g2][j2],
    ensures
        takes_once(mappings_of(kinds, gs)),
        takes_below(mappings_of(kinds, gs), kinds.len() as int),
        mappings_of(kinds, gs).len() <= kinds.len(),
{
    let n = kinds.len() as int;
    let orig = linked_all(copied(kinds.len()), kinds, gs);
    lemma_linked_all(kinds, gs);
    assert forall|a: int, b: int| 0 <= a < orig.len() && 0 <= b < orig.len() && a != b implies #[trigger] orig[a].head != #[trigger] orig[b].head by {}
    assert(packing(orig, orig, 0, orig.len() as int));
    lemma_packed(orig, orig, 0, orig.len() as int);
    let (r, m) = packed(orig, 0, orig.len() as int);
    let kept = r.take(m);
    assert(mappings_of(kinds, gs) == kept);
    assert(kept.len() == m);
    assert forall|i: int, j: int, y: usize|
        0 <= i < kept.len() && 0 <= j < kept.len() && i != j && #[trigger] takes(kept[i], y) implies !#[trigger] takes(kept[j], y) by {
        let hi = kept[i].head as int;
        let hj = kept[j].head as int;
        assert(kept[i] == r[i] && kept[j] == r[j]);
        assert(hi != hj);
        if takes(kept[j], y) {
            if y == hi {
                if y == hj {
                } else {
                    assert(tail_holds(orig[hj], y));
                    assert(orig[hi].moving);
                }
            } else if y == hj {
                assert(tail_holds(orig[hi], y));
                assert(orig[hj].moving);
            } else {
                assert(tail_holds(orig[hi], y));
                assert(tail_holds(orig[hj], y));
            }
        }
    }
    assert forall|i: int, y: usize| 0 <= i < kept.len() && #[trigger] takes(kept[i], y) implies y < n by {
        assert(kept[i] == r[i]);
        let hi = kept[i].head as int;
        if y != hi {
            let t = orig[hi].tail->0;
            let k = choose|k: int| 0 <= k < t.len() && t[k] == y;
        }
    }
}

/// A cube of the board: its kind, its cells by place, its motion, what it does this turn
/// and the cells around it.
#[derive(Debug)]
pub struct Head {
    pub kind: Kind,
    pub units: Vec<usize>,
    pub motion: Motion,
    pub action: Option<Action>,
    pub outlines: Outlines,
}

/// The cubes of a board, their cells, and which cube takes each point.
pub struct Collection {
    units: Vec<Unit>,
    heads: Vec<Head>,
    faction: Faction,
}

/// The points of the cells, each with the cube it belongs to.
pub open spec fn owners(us: Seq<Unit>) -> Seq<(Point, usize)> {
    us.map_values(|u: Unit| (u.position, u.head))
}

/// The kinds of the cubes.
pub open spec fn kinds_of(hs: Seq<Head>) -> Seq<Kind> {
    hs.map_values(|h: Head| h.kind)
}

/// The cell lists of the cubes.
pub open spec fn cell_lists(hs: Seq<Head>) -> Seq<Seq<usize>> {
    hs.map_values(|h: Head| h.units@)
}

/// The cells of the cubes `ids` of `hs`, one list after another.
pub open spec fn cells_of_heads(hs: Seq<Head>, ids: Seq<usize>) -> Seq<usize>
    decreases ids.len(),
{
    if ids.len() == 0 {
        Seq::empty()
    } else {
        cells_of_heads(hs, ids.drop_last()) + hs[ids.last() as int].units@
    }
}

/// The motions a linked cube keeps: its head's, then, in order, those of the cubes of the
/// tail whose kind absorbs the head's.
pub open spec fn kept_motions(hs: Seq<Head>, head: usize, tail: Seq<usize>) -> Seq<Motion> {
    seq![hs[head as int].motion] + tail.filter(
        |t: usize| spec_absorbable(hs[t as int].kind, hs[head as int].kind),
    ).map_values(|t: usize| hs[t as int].motion)
}

/// `h2` is the cube that mapping `m` makes of the cubes `hs` over the cells `us`: the
/// head as it is, or, for a link, the head with the cells of its tail after its own, the
/// kept motions as a team and outlines made anew.
pub open spec fn remade(hs: Seq<Head>, us: Seq<Unit>, m: MappingView, h2: Head) -> bool {
    let h = hs[m.head as int];
    match m.tail {
        None => h2 == h,
        Some(tail) => {
            &&& h2.kind == h.kind
            &&& h2.units@ == h.units@ + cells_of_heads(hs, tail)
            &&& h2.motion.is_team_of(kept_motions(hs, m.head, tail).filter(|x: Motion| !x.is_stop()))
            &&& h2.action == h.action
            &&& h2.outlines.wf()
            &&& forall|i: int| 0 <= i < 4 ==> #[trigger] h2.outlines.sides(i) == unit_side(us, h2.units@, lbtr(i))
        },
    }
}

/// The action given to cube `h` among `actions`, if any.
pub open spec fn action_at(actions: Seq<Option<Action>>, h: usize) -> Option<Action> {
    if h < actions.len() {
        actions[h as int]
    } else {
        None
    }
}

/// `h2` is `h1` after a turn with `action`: its motion moved on and that action taken.
pub open spec fn turned(h1: Head, h2: Head, action: Option<Action>) -> bool {
    &&& h2.kind == h1.kind
    &&& h2.units == h1.units
    &&& h2.outlines == h1.outlines
    &&& h1.motion.advances_to(h2.motion)
    &&& h2.action == action
}

/// `h2` is the cube that mapping `m` makes, and, when there are actions, after its turn.
pub open spec fn made(hs: Seq<Head>, us: Seq<Unit>, m: MappingView, actions: Option<Seq<Option<Action>>>, h2: Head) -> bool {
    match actions {
        None => remade(hs, us, m, h2),
        Some(a) => exists|h1: Head| #[trigger] remade(hs, us, m, h1) && turned(h1, h2, action_at(a, m.head)),
    }
}

/// The cells of the cube that mapping `m` makes change owner: it moved or links.
pub open spec fn rebinds(m: MappingView) -> bool {
    m.moving || m.tail is Some
}

/// The step the cells of the cube of mapping `m` take: that of its action, when free.
pub open spec fn shift_of(m: MappingView, actions: Option<Seq<Option<Action>>>) -> Option<Movement> {
    match actions {
        Some(a) => match action_at(a, m.head) {
            Some(x) => if x.restriction == Restriction::Free {
                Some(x.movement)
            } else {
                None
            },
            None => None,
        },
        None => None,
    }
}

/// The positions of the cells `ids`.
pub open spec fn positions(us: Seq<Unit>, ids: Seq<usize>) -> Seq<Point> {
    ids.map_values(|i: usize| us[i as int].position)
}

/// `p` moved by `shift`, if any.
pub open spec fn shifted_by(p: Point, shift: Option<Movement>) -> Point {
    match shift {
        Some(d) => Point { x: (p.x + spec_offset(d).0) as i32, y: (p.y + spec_offset(d).1) as i32 },
        None => p,
    }
}

/// `us2` is `us` after the cells `ids` change: owner `head` when given, moved by `shift`,
/// and, when `reunit`, their neighbourhoods made anew among themselves.
pub open spec fn cells_step(
    us: Seq<Unit>,
    us2: Seq<Unit>,
    ids: Seq<usize>,
    head: Option<usize>,
    shift: Option<Movement>,
    reunit: bool,
) -> bool {
    &&& us2.len() == us.len()
    &&& forall|k: int| 0 <= k < us.len() && !ids.contains(k as usize) ==> #[trigger] us2[k] == us[k]
    &&& forall|k: int|
        0 <= k < us.len() && ids.contains(k as usize) ==> {
            &&& (#[trigger] us2[k]).head == match head {
                Some(h) => h,
                None => us[k].head,
            }
            &&& us2[k].position == shifted_by(us[k].position, shift)
            &&& if reunit {
                &&& forall|d: Adjacence|
                    d != Adjacence::NONE ==> (us2[k].neighborhood.spec_has(d) <==> keys_of(
                        positions(us2, ids),
                    ).contains(key_of(#[trigger] neighbor(us2[k].position, d))))
                &&& !us2[k].neighborhood.spec_has(Adjacence::NONE)
            } else {
                us2[k].neighborhood == us[k].neighborhood
            }
        }
}

/// The change that the cube made by mapping `m`, now `h2`, brings to the cells.
pub open spec fn cells_turn(us: Seq<Unit>, us2: Seq<Unit>, m: MappingView, h2: Head, actions: Option<Seq<Option<Action>>>) -> bool {
    cells_step(
        us,
        us2,
        h2.units@,
        if rebinds(m) {
            Some(m.head)
        } else {
            None
        },
        shift_of(m, actions),
        m.tail is Some,
    )
}

/// The cells `us2` come from `us` by the changes of the cubes `hs2`, made by the
/// mappings `ms`, in order.
pub open spec fn cells_fold(
    us: Seq<Unit>,
    us2: Seq<Unit>,
    ms: Seq<MappingView>,
    hs2: Seq<Head>,
    actions: Option<Seq<Option<Action>>>,
) -> bool
    decreases ms.len(),
{
    if ms.len() == 0 {
        us2 == us
    } else {
        exists|mid: Seq<Unit>|
            cells_fold(us, mid, ms.drop_last(), hs2, actions) && #[trigger] cells_turn(
                mid,
                us2,
                ms.last(),
                hs2[ms.len() - 1],
                actions,
            )
    }
}

/// Some cube made by the mappings changes its cells.
pub open spec fn changes_cells(ms: Seq<MappingView>, actions: Option<Seq<Option<Action>>>) -> bool {
    exists|i: int| 0 <= i < ms.len() && (rebinds(#[trigger] ms[i]) || shift_of(ms[i], actions) is Some)
}

impl Collection {
    /// The cells in order.
    pub closed spec fn units(self) -> Seq<Unit> {
        self.units@
    }

    /// The cubes in order.
    pub closed spec fn heads(self) -> Seq<Head> {
        self.heads@
    }

    /// The table of points to cubes, by key.
    pub closed spec fn table(self) -> Map<u64, usize> {
        self.faction@
    }

    /// Every cell a cube names is a cell of the board, no cell is named twice, every cell
    /// is near the origin, there are fewer cubes than that margin, and every motion can
    /// take its next turn.
    pub open spec fn wf(self) -> bool {
        let hs = self.heads();
        let us = self.units();
        &&& forall|h: int, j: int| 0 <= h < hs.len() && 0 <= j < hs[h].units@.len() ==> #[trigger] hs[h].units@[j] < us.len()
        &&& flat_distinct(cell_lists(hs))
        &&& forall|k: int| 0 <= k < us.len() ==> near(#[trigger] us[k].position)
        &&& hs.len() < 0x3fff_ffff
        &&& forall|h: int| 0 <= h < hs.len() ==> (#[trigger] hs[h]).motion.ready()
    }

    /// The collection of `units` and `heads`, with its table of points.
    pub fn new(units: Vec<Unit>, heads: Vec<Head>) -> (r: Collection)
        ensures
            r.units() == units@,
            r.heads() == heads@,
            r.table() == faction_of(owners(units@)),
    {
        let faction = make_faction(&units);
        Collection { units, heads, faction }
    }

    pub fn number_of_cubes(&self) -> (r: usize)
        ensures
            r == self.heads().len(),
    {
        self.heads.len()
    }

    pub fn number_of_units(&self) -> (r: usize)
        ensures
            r == self.units().len(),
    {
        self.units.len()
    }

    /// The cell at place `k`.
    pub fn unit(&self, k: usize) -> (r: Unit)
        requires
            k < self.units().len(),
        ensures
            r == self.units()[k as int],
    {
        self.units[k]
    }

    /// The cube at place `i`.
    pub fn head(&self, i: usize) -> (r: &Head)
        requires
            i < self.heads().len(),
        ensures
            *r == self.heads()[i as int],
    {
        &self.heads[i]
    }

    /// The cube that the table gives for `point`, if any.
    pub fn owner_at(&self, point: Point) -> (r: Option<usize>)
        ensures
            r == if self.table().contains_key(key_of(point)) {
                Some(self.table()[key_of(point)])
            } else {
                None
            },
    {
        self.faction.get(point)
    }
}

/// The table of the points of `units` to their cubes.
fn make_faction(units: &Vec<Unit>) -> (r: Faction)
    ensures
        r@ == faction_of(owners(units@)),
{
    let mut pairs: Vec<(Point, usize)> = Vec::new();
    let mut i: usize = 0;
    while i < units.len()
        invariant
            i <= units@.len(),
            pairs@ == owners(units@.take(i as int)),
        decreases units@.len() - i,
    {
        pairs.push((units[i].position, units[i].head));
        assert(pairs@ =~= owners(units@.take(i + 1)));
        i = i + 1;
    }
    assert(units@.take(units@.len() as int) =~= units@);
    Faction::new(pairs.as_slice())
}

/// The cubes `hs` still in `slots`: those not taken, each in its place.
pub open spec fn slots_hold(slots: Seq<Option<Head>>, hs: Seq<Head>, taken: Set<usize>) -> bool {
    &&& slots.len() == hs.len()
    &&& hs.len() <= usize::MAX
    &&& forall|x: int| 0 <= x < hs.len() ==> #[trigger] slots[x] == if taken.contains(x as usize) {
        None
    } else {
        Some(hs[x])
    }
}

/// Takes the cube in slot `x`, leaving the slot empty.
fn take_head(slots: &mut Vec<Option<Head>>, x: usize) -> (r: Head)
    requires
        x < old(slots)@.len(),
        old(slots)@[x as int] is Some,
    ensures
        r == old(slots)@[x as int]->0,
        final(slots)@ == old(slots)@.update(x as int, None),
{
    let o = slots.remove(x);
    slots.insert(x, None);
    o.unwrap()
}

/// Cells near the origin leave outlines that fit, whatever cells are named.
proof fn lemma_unit_offsets_near(us: Seq<Unit>, ids: Seq<usize>)
    requires
        forall|k: int| 0 <= k < ids.len() ==> #[trigger] ids[k] < us.len(),
        forall|k: int| 0 <= k < us.len() ==> near(#[trigger] us[k].position),
    ensures
        unit_offsets_fit(us, ids),
{
    assert forall|k: int, s: int|
        0 <= k < ids.len() && 0 <= s < 4 && !us[(#[trigger] ids[k]) as int].neighborhood.spec_has(#[trigger] lbtr(s)) implies {
            let first = anchor_at(first_of(ids), us);
            let p = us[ids[k] as int].position;
            let o = lbtr(s).spec_offset();
            &&& fits(first.x + o.0)
            &&& fits(first.y + o.1)
            &&& fits(first.x + o.0 - p.x)
            &&& fits(first.y + o.1 - p.y)
        } by {
        assert(near(us[ids[k] as int].position));
        assert(near(us[ids[0] as int].position));
        let o = lbtr(s).spec_offset();
        assert(-1 <= o.0 <= 1 && -1 <= o.1 <= 1);
    }
}

/// The cells of distinct cubes, one list after another, hold no cell twice, and hold
/// exactly the cells of those cubes.
proof fn lemma_cells_of_heads(hs: Seq<Head>, ids: Seq<usize>)
    requires
        flat_distinct(cell_lists(hs)),
        ids.no_duplicates(),
        forall|k: int| 0 <= k < ids.len() ==> #[trigger] ids[k] < hs.len(),
    ensures
        cells_of_heads(hs, ids).no_duplicates(),
        forall|c: usize| #[trigger] cells_of_heads(hs, ids).contains(c) <==> exists|k: int, j: int|
            0 <= k < ids.len() && 0 <= j < hs[ids[k] as int].units@.len() && #[trigger] hs[ids[k] as int].units@[j] == c,
    decreases ids.len(),
{
    if ids.len() > 0 {
        let rest = ids.drop_last();
        let last = ids.last();
        lemma_cells_of_heads(hs, rest);
        let a = cells_of_heads(hs, rest);
        let b = hs[last as int].units@;
        let ls = cell_lists(hs);
        assert(ls[last as int] == b);
        assert forall|c: usize| #[trigger] (a + b).contains(c) <==> exists|k: int, j: int|
            0 <= k < ids.len() && 0 <= j < hs[ids[k] as int].units@.len() && #[trigger] hs[ids[k] as int].units@[j] == c by {
            if (a + b).contains(c) {
                let q = choose|q: int| 0 <= q < (a + b).len() && (a + b)[q] == c;
                if q < a.len() {
                    assert(a.contains(c));
                    let (k, j) = choose|k: int, j: int|
                        0 <= k < rest.len() && 0 <= j < hs[rest[k] as int].units@.len() && #[trigger] hs[rest[k] as int].units@[j] == c;
                    assert(ids[k] == rest[k]);
                } else {
                    assert(b[q - a.len()] == c);
                    assert(ids[ids.len() - 1] == last);
                }
            }
            if exists|k: int, j: int|
                0 <= k < ids.len() && 0 <= j < hs[ids[k] as int].units@.len() && #[trigger] hs[ids[k] as int].units@[j] == c {
                let (k, j) = choose|k: int, j: int|
                    0 <= k < ids.len() && 0 <= j < hs[ids[k] as int].units@.len() && #[trigger] hs[ids[k] as int].units@[j] == c;
                if k < rest.len() {
                    assert(rest[k] == ids[k]);
                    assert(a.contains(c));
                    let q = choose|q: int| 0 <= q < a.len() && a[q] == c;
                    assert((a + b)[q] == c);
                } else {
                    assert((a + b)[a.len() + j] == c);
                }
            }
        }
        assert forall|x: int, y: int| 0 <= x < (a + b).len() && 0 <= y < (a + b).len() && x != y implies (a + b)[x] != (a + b)[y] by {
            if x >= a.len() && y >= a.len() {
                assert(ls[last as int][x - a.len()] == (a + b)[x]);
                assert(ls[last as int][y - a.len()] == (a + b)[y]);
            } else if x < a.len() && y < a.len() {
            } else {
                let (xa, xb) = if x < a.len() { (x, y) } else { (y, x) };
                let c = (a + b)[xa];
                assert(a.contains(c));
                let (k, j) = choose|k: int, j: int|
                    0 <= k < rest.len() && 0 <= j < hs[rest[k] as int].units@.len() && #[trigger] hs[rest[k] as int].units@[j] == c;
                assert(ls[rest[k] as int][j] == c);
                assert(ls[last as int][xb - a.len()] == (a + b)[xb]);
                if (a + b)[xb] == c {
                    assert(rest[k] != last);
                }
            }
        }
        assert(cells_of_heads(hs, ids) == a + b);
    }
}

/// The cube that the head in slot `head` makes with the cubes of `tail` (see `remade`).
fn link_head(
    slots: &mut Vec<Option<Head>>,
    units: &Vec<Unit>,
    head: usize,
    tail: &Vec<usize>,
    Ghost(hs): Ghost<Seq<Head>>,
    Ghost(taken): Ghost<Set<usize>>,
) -> (r: Head)
    requires
        slots_hold(old(slots)@, hs, taken),
        head < hs.len(),
        !taken.contains(head),
        forall|k: int| 0 <= k < tail@.len() ==> #[trigger] tail@[k] < hs.len() && !taken.contains(tail@[k]),
        tail@.no_duplicates(),
        !tail@.contains(head),
        forall|h: int, j: int| 0 <= h < hs.len() && 0 <= j < hs[h].units@.len() ==> #[trigger] hs[h].units@[j] < units@.len(),
        forall|k: int| 0 <= k < units@.len() ==> near(#[trigger] units@[k].position),
        forall|h: int| 0 <= h < hs.len() ==> (#[trigger] hs[h]).motion.ready(),
    ensures
        remade(hs, units@, MappingView { moving: false, head, tail: Some(tail@) }, r),
        r.motion.ready(),
        slots_hold(final(slots)@, hs, taken.insert(head).union(tail@.to_set())),
{
    let ghost s0 = slots@;
    let Head { kind, units: mut ids, motion, action, outlines: _ } = take_head(slots, head);
    let mut motions: Vec<Motion> = Vec::new();
    motions.push(motion);
    proof {
        assert(motions@ =~= seq![hs[head as int].motion]);
        assert(hs[head as int] == s0[head as int]->0);
        assert(tail@.take(0) =~= Seq::<usize>::empty());
        assert(cells_of_heads(hs, tail@.take(0)) =~= Seq::<usize>::empty());
        assert(ids@ =~= hs[head as int].units@ + cells_of_heads(hs, tail@.take(0)));
        assert(slots@ =~= s0.update(head as int, None));
        assert(slots_hold(slots@, hs, taken.insert(head).union(tail@.take(0).to_set()))) by {
            assert(taken.insert(head).union(tail@.take(0).to_set()) =~= taken.insert(head));
            assert forall|y: int| 0 <= y < hs.len() implies #[trigger] slots@[y] == if taken.insert(head).contains(y as usize) {
                None
            } else {
                Some(hs[y])
            } by {
                if y != head as int {
                    assert(slots@[y] == s0[y]);
                }
            }
        }
    }
    let ghost absorbs = |t: usize| spec_absorbable(hs[t as int].kind, hs[head as int].kind);
    let mut t: usize = 0;
    while t < tail.len()
        invariant
            t <= tail@.len(),
            head < hs.len(),
            kind == hs[head as int].kind,
            absorbs == (|t: usize| spec_absorbable(hs[t as int].kind, hs[head as int].kind)),
            forall|k: int| 0 <= k < tail@.len() ==> #[trigger] tail@[k] < hs.len() && !taken.contains(tail@[k]),
            tail@.no_duplicates(),
            !tail@.contains(head),
            slots_hold(slots@, hs, taken.insert(head).union(tail@.take(t as int).to_set())),
            ids@ == hs[head as int].units@ + cells_of_heads(hs, tail@.take(t as int)),
            motions@ == seq![hs[head as int].motion] + tail@.take(t as int).filter(absorbs).map_values(|x: usize| hs[x as int].motion),
        decreases tail@.len() - t,
    {
        let x = tail[t];
        let ghost sb = slots@;
        let ghost tb = tail@.take(t as int);
        proof {
            assert(tail@.take(t + 1) =~= tb.push(x));
            assert(!tb.contains(x)) by {
                if tb.contains(x) {
                    let q = choose|q: int| 0 <= q < tb.len() && tb[q] == x;
                    assert(tail@[q] == tail@[t as int]);
                }
            }
            assert(x != head);
            assert(!taken.insert(head).union(tb.to_set()).contains(x));
        }
        let Head { kind: k2, units: more, motion: m2, action: _, outlines: _ } = take_head(slots, x);
        let ghost before = ids@;
        let mut j: usize = 0;
        while j < more.len()
            invariant
                j <= more@.len(),
                ids@ == before + more@.take(j as int),
            decreases more@.len() - j,
        {
            ids.push(more[j]);
            assert(ids@ =~= before + more@.take(j + 1));
            j = j + 1;
        }
        let ghost mb = motions@;
        if k2.absorbable(kind) {
            motions.push(m2);
        }
        proof {
            assert(more@.take(more@.len() as int) =~= more@);
            assert(hs[x as int] == sb[x as int]->0);
            assert(tb.push(x).drop_last() =~= tb);
            assert(cells_of_heads(hs, tb.push(x)) == cells_of_heads(hs, tb) + hs[x as int].units@);
            assert(ids@ =~= hs[head as int].units@ + cells_of_heads(hs, tb.push(x)));
            tb.lemma_filter_push(x, absorbs);
            assert(motions@ =~= seq![hs[head as int].motion] + tb.push(x).filter(absorbs).map_values(|y: usize| hs[y as int].motion));
            assert(slots@ =~= sb.update(x as int, None));
            assert(taken.insert(head).union(tb.push(x).to_set()) =~= taken.insert(head).union(tb.to_set()).insert(x)) by {
                tb.lemma_push_to_set_commute(x);
            }
            assert(slots_hold(slots@, hs, taken.insert(head).union(tb.push(x).to_set()))) by {
                let tk = taken.insert(head).union(tb.push(x).to_set());
                assert forall|y: int| 0 <= y < hs.len() implies #[trigger] slots@[y] == if tk.contains(y as usize) {
                    None
                } else {
                    Some(hs[y])
                } by {
                    if y != x as int {
                        assert(slots@[y] == sb[y]);
                        assert(tk.contains(y as usize) == taken.insert(head).union(tb.to_set()).contains(y as usize));
                    }
                }
            }
        }
        t = t + 1;
    }
    proof {
        assert(tail@.take(tail@.len() as int) =~= tail@);
        assert forall|i: int| 0 <= i < motions@.len() implies (#[trigger] motions@[i]).ready() by {
            if i > 0 {
                let f = tail@.filter(absorbs);
                let y = f[i - 1];
                assert(motions@[i] == hs[y as int].motion);
                tail@.lemma_filter_contains_rev(absorbs, y);
                assert(f.contains(y));
                let q = choose|q: int| 0 <= q < tail@.len() && tail@[q] == y;
                assert(tail@[q] < hs.len());
            }
        }
        assert forall|k: int| 0 <= k < ids@.len() implies #[trigger] ids@[k] < units@.len() by {
            lemma_cells_upper(hs, tail@, units@.len() as int);
            if k < hs[head as int].units@.len() {
                assert(ids@[k] == hs[head as int].units@[k]);
            } else {
                assert(ids@[k] == cells_of_heads(hs, tail@)[k - hs[head as int].units@.len()]);
            }
        }
        lemma_unit_offsets_near(units@, ids@);
    }
    let team = Motion::from_iter(motions);
    let outlines = Outlines::new(units.as_slice(), ids.as_slice());
    Head { kind, units: ids, motion: team, action, outlines }
}

/// The cells of cubes whose cells are below `n` are below `n`.
proof fn lemma_cells_upper(hs: Seq<Head>, ids: Seq<usize>, n: int)
    requires
        forall|k: int| 0 <= k < ids.len() ==> #[trigger] ids[k] < hs.len(),
        forall|h: int, j: int| 0 <= h < hs.len() && 0 <= j < hs[h].units@.len() ==> #[trigger] hs[h].units@[j] < n,
    ensures
        forall|k: int| 0 <= k < cells_of_heads(hs, ids).len() ==> #[trigger] cells_of_heads(hs, ids)[k] < n,
    decreases ids.len(),
{
    if ids.len() > 0 {
        let rest = ids.drop_last();
        lemma_cells_upper(hs, rest, n);
        let a = cells_of_heads(hs, rest);
        let b = hs[ids.last() as int].units@;
        assert forall|k: int| 0 <= k < (a + b).len() implies #[trigger] (a + b)[k] < n by {
            if k >= a.len() {
                assert(b[k - a.len()] == (a + b)[k]);
            }
        }
    }
}

/// Both coordinates of `p` are within `b` of the origin.
pub open spec fn within(p: Point, b: int) -> bool {
    -b <= p.x <= b && -b <= p.y <= b
}

/// Changes the cells `ids` as `cells_step` says.
fn apply_cells(units: &mut Vec<Unit>, ids: &Vec<usize>, head: Option<usize>, shift: Option<Movement>, reunit: bool)
    requires
        ids@.no_duplicates(),
        forall|k: int| 0 <= k < ids@.len() ==> #[trigger] ids@[k] < old(units)@.len(),
        forall|k: int| 0 <= k < old(units)@.len() ==> within(#[trigger] old(units)@[k].position, 0x7fff_fffd),
    ensures
        cells_step(old(units)@, final(units)@, ids@, head, shift, reunit),
{
    let ghost us = units@;
    let _ = units.len();
    assert(us.len() <= usize::MAX);
    let mut i: usize = 0;
    while i < ids.len()
        invariant
            i <= ids@.len(),
            us.len() <= usize::MAX,
            ids@.no_duplicates(),
            forall|k: int| 0 <= k < ids@.len() ==> #[trigger] ids@[k] < us.len(),
            forall|k: int| 0 <= k < us.len() ==> within(#[trigger] us[k].position, 0x7fff_fffd),
            units@.len() == us.len(),
            forall|k: int|
                0 <= k < us.len() ==> #[trigger] units@[k] == if ids@.take(i as int).contains(k as usize) {
                    Unit {
                        head: match head {
                            Some(h) => h,
                            None => us[k].head,
                        },
                        position: shifted_by(us[k].position, shift),
                        neighborhood: us[k].neighborhood,
                    }
                } else {
                    us[k]
                },
        decreases ids@.len() - i,
    {
        let id = ids[i];
        let ghost ub = units@;
        proof {
            assert(!ids@.take(i as int).contains(id)) by {
                if ids@.take(i as int).contains(id) {
                    let q = choose|q: int| 0 <= q < i && ids@.take(i as int)[q] == id;
                    assert(ids@[q] == ids@[i as int]);
                }
            }
            assert(ids@.take(i + 1) =~= ids@.take(i as int).push(id));
        }
        let mut u = units[id];
        match head {
            Some(h) => {
                u.head = h;
            },
            None => {},
        }
        match shift {
            Some(d) => {
                assert(within(us[id as int].position, 0x7fff_fffd));
                u.position = u.position.add(d.into_point());
            },
            None => {},
        }
        units.set(id, u);
        proof {
            assert forall|k: int|
                0 <= k < us.len() implies #[trigger] units@[k] == if ids@.take(i + 1).contains(k as usize) {
                    Unit {
                        head: match head {
                            Some(h) => h,
                            None => us[k].head,
                        },
                        position: shifted_by(us[k].position, shift),
                        neighborhood: us[k].neighborhood,
                    }
                } else {
                    us[k]
                } by {
                vstd::seq_lib::lemma_seq_contains_after_push(ids@.take(i as int), id, k as usize);
                if k != id as int {
                    assert(units@[k] == ub[k]);
                }
            }
        }
        i = i + 1;
    }
    proof {
        assert(ids@.take(ids@.len() as int) =~= ids@);
    }
    if reunit {
        let ghost moved = units@;
        let mut pts: Vec<Point> = Vec::new();
        let mut j: usize = 0;
        while j < ids.len()
            invariant
                j <= ids@.len(),
                units@ == moved,
                forall|k: int| 0 <= k < ids@.len() ==> #[trigger] ids@[k] < moved.len(),
                pts@ == positions(moved, ids@.take(j as int)),
            decreases ids@.len() - j,
        {
            pts.push(units[ids[j]].position);
            assert(pts@ =~= positions(moved, ids@.take(j + 1)));
            j = j + 1;
        }
        assert(ids@.take(ids@.len() as int) =~= ids@);
        let collision = Collision::new(pts.as_slice());
        let mut j: usize = 0;
        while j < ids.len()
            invariant
                j <= ids@.len(),
                ids@.no_duplicates(),
                us.len() <= usize::MAX,
                forall|k: int| 0 <= k < ids@.len() ==> #[trigger] ids@[k] < moved.len(),
                forall|q: u64| collision@.contains(q) <==> keys_of(positions(moved, ids@)).contains(q),
                forall|k: int| 0 <= k < us.len() ==> within(#[trigger] us[k].position, 0x7fff_fffd),
                moved.len() == us.len(),
                forall|k: int| 0 <= k < us.len() && ids@.contains(k as usize) ==> #[trigger] moved[k].position == shifted_by(us[k].position, shift),
                units@.len() == moved.len(),
                forall|k: int|
                    0 <= k < moved.len() ==> {
                        &&& (#[trigger] units@[k]).head == moved[k].head
                        &&& units@[k].position == moved[k].position
                        &&& if ids@.take(j as int).contains(k as usize) {
                            &&& forall|d: Adjacence|
                                d != Adjacence::NONE ==> (units@[k].neighborhood.spec_has(d) <==> keys_of(
                                    positions(moved, ids@),
                                ).contains(key_of(#[trigger] neighbor(units@[k].position, d))))
                            &&& !units@[k].neighborhood.spec_has(Adjacence::NONE)
                        } else {
                            units@[k].neighborhood == moved[k].neighborhood
                        }
                    },
            decreases ids@.len() - j,
        {
            let id = ids[j];
            let ghost ub = units@;
            proof {
                assert(!ids@.take(j as int).contains(id)) by {
                    if ids@.take(j as int).contains(id) {
                        let q = choose|q: int| 0 <= q < j && ids@.take(j as int)[q] == id;
                        assert(ids@[q] == ids@[j as int]);
                    }
                }
                assert(ids@.take(j + 1) =~= ids@.take(j as int).push(id));
                assert(ids@.contains(id));
                assert(within(us[id as int].position, 0x7fff_fffd));
            }
            let mut u = units[id];
            u.neighborhood = collision.neighborhood(u.position);
            units.set(id, u);
            proof {
                assert forall|k: int|
                    0 <= k < moved.len() implies {
                        &&& (#[trigger] units@[k]).head == moved[k].head
                        &&& units@[k].position == moved[k].position
                        &&& if ids@.take(j + 1).contains(k as usize) {
                            &&& forall|d: Adjacence|
                                d != Adjacence::NONE ==> (units@[k].neighborhood.spec_has(d) <==> keys_of(
                                    positions(moved, ids@),
                                ).contains(key_of(#[trigger] neighbor(units@[k].position, d))))
                            &&& !units@[k].neighborhood.spec_has(Adjacence::NONE)
                        } else {
                            units@[k].neighborhood == moved[k].neighborhood
                        }
                    } by {
                    vstd::seq_lib::lemma_seq_contains_after_push(ids@.take(j as int), id, k as usize);
                    if k != id as int {
                        assert(units@[k] == ub[k]);
                    }
                }
            }
            j = j + 1;
        }
        proof {
            assert(positions(units@, ids@) =~= positions(moved, ids@));
        }
    }
}

/// The actions as values, if any.
pub open spec fn actions_view(actions: Option<&[Option<Action>]>) -> Option<Seq<Option<Action>>> {
    match actions {
        Some(a) => Some(a@),
        None => None,
    }
}

/// `r` is the collection that `col` becomes when the cubes that `ds` ties, grouped as
/// `gs`, are linked and packed, and, when there are actions, each cube takes its turn.
pub open spec fn transformed(
    col: Collection,
    ds: DisjointSet,
    gs: Seq<Seq<usize>>,
    actions: Option<Seq<Option<Action>>>,
    r: Collection,
) -> bool {
    let ms = mappings_of(kinds_of(col.heads()), gs);
    &&& classes_by_root(ds, gs)
    &&& r.heads().len() == ms.len()
    &&& forall|i: int| 0 <= i < ms.len() ==> made(col.heads(), col.units(), ms[i], actions, #[trigger] r.heads()[i])
    &&& cells_fold(col.units(), r.units(), ms, r.heads(), actions)
    &&& r.table() == if changes_cells(ms, actions) {
        faction_of(owners(r.units()))
    } else {
        col.table()
    }
}

/// Folding the turns of the cubes over the cells keeps their number.
proof fn lemma_cells_fold_len(
    us: Seq<Unit>,
    us2: Seq<Unit>,
    ms: Seq<MappingView>,
    hs2: Seq<Head>,
    actions: Option<Seq<Option<Action>>>,
)
    requires
        cells_fold(us, us2, ms, hs2, actions),
    ensures
        us2.len() == us.len(),
    decreases ms.len(),
{
    if ms.len() > 0 {
        let mid = choose|mid: Seq<Unit>|
            cells_fold(us, mid, ms.drop_last(), hs2, actions) && #[trigger] cells_turn(
                mid,
                us2,
                ms.last(),
                hs2[ms.len() - 1],
                actions,
            );
        lemma_cells_fold_len(us, mid, ms.drop_last(), hs2, actions);
    }
}

/// Taking a turn keeps every cell: the collection after it has as many cells as before.
pub proof fn lemma_transform_keeps_cells(
    col: Collection,
    ds: DisjointSet,
    gs: Seq<Seq<usize>>,
    actions: Option<Seq<Option<Action>>>,
    r: Collection,
)
    requires
        transformed(col, ds, gs, actions, r),
    ensures
        r.units().len() == col.units().len(),
{
    let ms = mappings_of(kinds_of(col.heads()), gs);
    lemma_cells_fold_len(col.units(), r.units(), ms, r.heads(), actions);
}

/// What a filter keeps comes from the sequence filtered.
proof fn lemma_filter_from<A>(s: Seq<A>, p: spec_fn(A) -> bool)
    ensures
        forall|i: int| 0 <= i < s.filter(p).len() ==> s.contains(#[trigger] s.filter(p)[i]),
    decreases s.len(),
{
    reveal_with_fuel(Seq::filter, 1);
    if s.len() > 0 {
        let r = s.drop_last();
        lemma_filter_from(r, p);
        assert forall|i: int| 0 <= i < s.filter(p).len() implies s.contains(#[trigger] s.filter(p)[i]) by {
            if i < r.filter(p).len() {
                assert(s.filter(p)[i] == r.filter(p)[i]);
                let j = choose|j: int| 0 <= j < r.len() && r[j] == r.filter(p)[i];
                assert(s[j] == r[j]);
            } else {
                assert(s.filter(p)[i] == s[s.len() - 1]);
            }
        }
    }
}

/// Each cube made by a mapping of well-counted cubes has a well-counted, ready motion.
proof fn lemma_made_counted(hs: Seq<Head>, us: Seq<Unit>, m: MappingView, actions: Option<Seq<Option<Action>>>, h2: Head)
    requires
        made(hs, us, m, actions, h2),
        m.head < hs.len(),
        m.tail matches Some(t) ==> forall|j: int| 0 <= j < t.len() ==> #[trigger] t[j] < hs.len(),
        forall|h: int| 0 <= h < hs.len() ==> (#[trigger] hs[h]).motion.well_counted(),
    ensures
        h2.motion.well_counted(),
        h2.motion.ready(),
{
    broadcast use vstd::seq_lib::group_filter_ensures;
    let h1 = match actions {
        None => h2,
        Some(a) => choose|h1: Head| #[trigger] remade(hs, us, m, h1) && turned(h1, h2, action_at(a, m.head)),
    };
    assert(remade(hs, us, m, h1));
    match m.tail {
        None => {
            assert(hs[m.head as int].motion.well_counted());
        },
        Some(tail) => {
            let km = kept_motions(hs, m.head, tail);
            let ft = tail.filter(|t: usize| spec_absorbable(hs[t as int].kind, hs[m.head as int].kind));
            assert forall|i: int| 0 <= i < km.len() implies (#[trigger] km[i]).well_counted() by {
                if i == 0 {
                    assert(km[i] == hs[m.head as int].motion);
                } else {
                    let t = ft[i - 1];
                    assert(km[i] == hs[t as int].motion);
                    lemma_filter_from(tail, |t: usize| spec_absorbable(hs[t as int].kind, hs[m.head as int].kind));
                    assert(tail.contains(t));
                    let j = choose|j: int| 0 <= j < tail.len() && tail[j] == t;
                    assert(tail[j] < hs.len());
                }
            }
            let kept = km.filter(|x: Motion| !x.is_stop());
            lemma_filter_from(km, |x: Motion| !x.is_stop());
            assert forall|i: int| 0 <= i < kept.len() implies (#[trigger] kept[i]).well_counted() by {
                assert(km.contains(kept[i]));
            }
            h1.motion.lemma_team_counted(kept);
        },
    }
    match actions {
        None => {
            h2.motion.lemma_counted_ready();
        },
        Some(a) => {
            h1.motion.lemma_advance_counted(h2.motion);
        },
    }
}

/// Taking a turn keeps motions well counted: when every cube's motion is, every cube
/// after the turn has a well-counted motion, and so one ready for the next turn.
pub proof fn lemma_transform_keeps_counted(
    col: Collection,
    ds: DisjointSet,
    gs: Seq<Seq<usize>>,
    actions: Option<Seq<Option<Action>>>,
    r: Collection,
)
    requires
        transformed(col, ds, gs, actions, r),
        col.heads().len() <= usize::MAX,
        forall|h: int| 0 <= h < col.heads().len() ==> (#[trigger] col.heads()[h]).motion.well_counted(),
    ensures
        forall|h: int| 0 <= h < r.heads().len() ==> (#[trigger] r.heads()[h]).motion.well_counted()
            && r.heads()[h].motion.ready(),
{
    let hs = col.heads();
    let kinds = kinds_of(hs);
    let ms = mappings_of(kinds, gs);
    assert forall|x: int| 0 <= x < gs.len() implies (#[trigger] gs[x]).no_duplicates() by {
        assert forall|a: int, b: int| 0 <= a < gs[x].len() && 0 <= b < gs[x].len() && a != b implies gs[x][a] != gs[x][b] by {}
    }
    lemma_mappings_take_once(kinds, gs);
    assert forall|h: int| 0 <= h < r.heads().len() implies (#[trigger] r.heads()[h]).motion.well_counted()
        && r.heads()[h].motion.ready() by {
        let m = ms[h];
        assert(takes(m, m.head));
        if m.tail is Some {
            let t = m.tail->0;
            assert forall|j: int| 0 <= j < t.len() implies #[trigger] t[j] < hs.len() by {
                assert(t.contains(t[j]));
                assert(takes(m, t[j]));
            }
        }
        assert(made(hs, col.units(), m, actions, r.heads()[h]));
        lemma_made_counted(hs, col.units(), m, actions, r.heads()[h]);
    }
}

/// The cells of a head and then of the cubes of a tail are those of the head and the
/// tail together.
proof fn lemma_cells_of_heads_front(hs: Seq<Head>, h: usize, tail: Seq<usize>)
    ensures
        cells_of_heads(hs, seq![h] + tail) == hs[h as int].units@ + cells_of_heads(hs, tail),
    decreases tail.len(),
{
    if tail.len() == 0 {
        assert(seq![h] + tail =~= seq![h]);
        assert(seq![h].drop_last() =~= Seq::<usize>::empty());
        assert(seq![h].last() == h);
        assert(cells_of_heads(hs, Seq::<usize>::empty()) =~= Seq::<usize>::empty());
        assert(Seq::<usize>::empty() + hs[h as int].units@ =~= hs[h as int].units@);
        assert(cells_of_heads(hs, seq![h]) =~= hs[h as int].units@);
        assert(cells_of_heads(hs, tail) =~= Seq::<usize>::empty());
        assert(hs[h as int].units@ + Seq::<usize>::empty() =~= hs[h as int].units@);
    } else {
        lemma_cells_of_heads_front(hs, h, tail.drop_last());
        assert((seq![h] + tail).drop_last() =~= seq![h] + tail.drop_last());
        assert((seq![h] + tail).last() == tail.last());
    }
}

/// A step of the fold of cells keeps one more mapping.
proof fn lemma_cells_fold_step(
    us: Seq<Unit>,
    mid: Seq<Unit>,
    us2: Seq<Unit>,
    ms: Seq<MappingView>,
    hs2: Seq<Head>,
    actions: Option<Seq<Option<Action>>>,
)
    requires
        ms.len() > 0,
        hs2.len() >= ms.len(),
        cells_fold(us, mid, ms.drop_last(), hs2, actions),
        cells_turn(mid, us2, ms.last(), hs2[ms.len() - 1], actions),
    ensures
        cells_fold(us, us2, ms, hs2, actions),
{
    assert(cells_turn(mid, us2, ms.last(), hs2[ms.len() - 1], actions));
}

/// The fold of cells depends only on the cubes made so far.
proof fn lemma_cells_fold_prefix(
    us: Seq<Unit>,
    us2: Seq<Unit>,
    ms: Seq<MappingView>,
    hs2: Seq<Head>,
    hs3: Seq<Head>,
    actions: Option<Seq<Option<Action>>>,
)
    requires
        cells_fold(us, us2, ms, hs2, actions),
        hs2.len() >= ms.len(),
        hs3.len() >= ms.len(),
        forall|i: int| 0 <= i < ms.len() ==> hs2[i] == hs3[i],
    ensures
        cells_fold(us, us2, ms, hs3, actions),
    decreases ms.len(),
{
    if ms.len() > 0 {
        let mid = choose|mid: Seq<Unit>|
            cells_fold(us, mid, ms.drop_last(), hs2, actions) && #[trigger] cells_turn(
                mid,
                us2,
                ms.last(),
                hs2[ms.len() - 1],
                actions,
            );
        lemma_cells_fold_prefix(us, mid, ms.drop_last(), hs2, hs3, actions);
        assert(hs2[ms.len() - 1] == hs3[ms.len() - 1]);
        assert(cells_turn(mid, us2, ms.last(), hs3[ms.len() - 1], actions));
    }
}

impl Collection {
    /// The collection after linking the cubes that `groups` ties: each group is led by
    /// its first cube that absorbs all the others, which takes their cells and, as a team,
    /// the motions of those that absorb it; the cubes are packed, and those moved or
    /// linked take their cells back. With `actions`, each cube then takes its turn: its
    /// motion moves on, it takes the action given for it, and, when that action is free,
    /// its cells move a step. The table of points is made anew when any cell changed.
    pub fn transform(self, groups: DisjointSet, actions: Option<&[Option<Action>]>) -> (r: Collection)
        requires
            self.wf(),
            groups.wf(),
        ensures
            exists|gs: Seq<Seq<usize>>| #[trigger] transformed(self, groups, gs, actions_view(actions), r),
            (forall|h: int| 0 <= h < self.heads().len() ==> (#[trigger] self.heads()[h]).motion.well_counted())
                ==> forall|h: int| 0 <= h < r.heads().len() ==> (#[trigger] r.heads()[h]).motion.well_counted()
                && r.heads()[h].motion.ready(),
    {
        let ghost col = self;
        let ghost ds = groups;
        let ghost acts = actions_view(actions);
        let Collection { mut units, heads, faction } = self;
        let ghost hs = heads@;
        let ghost us = units@;
        let n = heads.len();
        let mut kinds: Vec<Kind> = Vec::new();
        let mut k: usize = 0;
        while k < n
            invariant
                k <= n,
                n == hs.len(),
                heads@ == hs,
                kinds@ == kinds_of(hs).take(k as int),
            decreases n - k,
        {
            kinds.push(heads[k].kind);
            assert(kinds@ =~= kinds_of(hs).take(k + 1));
            k = k + 1;
        }
        assert(kinds@ =~= kinds_of(hs));
        let gs = groups.groups();
        let ms = mappings(kinds.as_slice(), &gs);
        let ghost msv = views(ms@);
        proof {
            let g = gs@;
            assert forall|x: int| 0 <= x < g.len() implies (#[trigger] g[x]).no_duplicates() by {
                assert forall|a: int, b: int| 0 <= a < g[x].len() && 0 <= b < g[x].len() && a != b implies g[x][a] != g[x][b] by {}
            }
            lemma_mappings_take_once(kinds@, g);
        }
        // the cells as they stand before the turn, for outlines
        let mut orig: Vec<Unit> = Vec::new();
        let mut k: usize = 0;
        while k < units.len()
            invariant
                k <= units@.len(),
                units@ == us,
                orig@ == us.take(k as int),
            decreases units@.len() - k,
        {
            orig.push(units[k]);
            assert(orig@ =~= us.take(k + 1));
            k = k + 1;
        }
        assert(orig@ =~= us);
        // every cube in a slot of its own
        let mut rest = heads;
        let mut slots: Vec<Option<Head>> = Vec::new();
        let ghost mut moved_out: int = 0;
        while rest.len() > 0
            invariant
                0 <= moved_out <= hs.len(),
                rest@ == hs.skip(moved_out),
                slots@ == hs.take(moved_out).map_values(|h: Head| Some(h)),
            decreases rest@.len(),
        {
            let h = rest.remove(0);
            slots.push(Some(h));
            proof {
                assert(slots@ =~= hs.take(moved_out + 1).map_values(|h: Head| Some(h)));
                assert(rest@ =~= hs.skip(moved_out + 1));
                moved_out = moved_out + 1;
            }
        }
        proof {
            assert(hs.take(hs.len() as int) =~= hs);
            assert(slots_hold(slots@, hs, Set::empty()));
            assert(us == col.units());
            assert(col.wf());
            assert forall|k: int| 0 <= k < units@.len() implies within(#[trigger] units@[k].position, 0x3fff_ffff) by {
                assert(near(col.units()[k].position));
            }
            assert(msv.take(0) =~= Seq::<MappingView>::empty());
        }
        let mut made_heads: Vec<Head> = Vec::new();
        let mut remake = false;
        let ghost mut taken: Set<usize> = Set::empty();
        let mut i: usize = 0;
        while i < ms.len()
            invariant
                i <= ms@.len(),
                msv == views(ms@),
                msv == mappings_of(kinds_of(hs), gs@),
                takes_once(msv),
                takes_below(msv, hs.len() as int),
                msv.len() <= hs.len(),
                col.wf(),
                hs == col.heads(),
                us == col.units(),
                orig@ == us,
                slots_hold(slots@, hs, taken),
                forall|y: usize| #[trigger] taken.contains(y) <==> exists|j: int| 0 <= j < i && #[trigger] takes(msv[j], y),
                made_heads@.len() == i,
                forall|j: int| 0 <= j < i ==> made(hs, us, msv[j], acts, #[trigger] made_heads@[j]),
                forall|j: int| 0 <= j < i ==> #[trigger] made_heads@[j].units@.len() >= 0,
                cells_fold(us, units@, msv.take(i as int), made_heads@, acts),
                remake == changes_cells(msv.take(i as int), acts),
                units@.len() == us.len(),
                forall|k: int| 0 <= k < units@.len() ==> within(#[trigger] units@[k].position, 0x3fff_ffff + i),
                acts == actions_view(actions),
            decreases ms@.len() - i,
        {
            assert(msv[i as int] == ms@[i as int]@);
            let ghost mi = msv[i as int];
            let (index, mut head, rebind, reunit) = match &ms[i].source {
                Source::Copy { head: h } => {
                    assert(takes(mi, *h));
                    let x = *h;
                    assert(!taken.contains(x)) by {
                        if taken.contains(x) {
                            let j = choose|j: int| 0 <= j < i && #[trigger] takes(msv[j], x);
                        }
                    }
                    let ghost sb = slots@;
                    let hd = take_head(&mut slots, x);
                    proof {
                        let t0 = taken;
                        taken = taken.insert(x);
                        assert forall|y: int| 0 <= y < hs.len() implies #[trigger] slots@[y] == if taken.contains(y as usize) {
                            None
                        } else {
                            Some(hs[y])
                        } by {
                            if y != x as int {
                                assert(slots@[y] == sb[y]);
                            }
                        }
                        assert forall|y: usize| #[trigger] taken.contains(y) <==> exists|j: int| 0 <= j < i + 1 && #[trigger] takes(msv[j], y) by {
                            if y == x {
                                assert(takes(msv[i as int], y));
                            } else if exists|j: int| 0 <= j < i + 1 && #[trigger] takes(msv[j], y) {
                                let j = choose|j: int| 0 <= j < i + 1 && #[trigger] takes(msv[j], y);
                                if j == i {
                                    assert(mi.tail is None);
                                }
                                assert(t0.contains(y));
                            }
                        }
                        assert(hd == hs[x as int]);
                        assert(hd.motion.ready());
                    }
                    (x, hd, ms[i].moving, false)
                },
                Source::Link { head: h, tail } => {
                    let x = *h;
                    assert(takes(mi, x));
                    assert(!taken.contains(x)) by {
                        if taken.contains(x) {
                            let j = choose|j: int| 0 <= j < i && #[trigger] takes(msv[j], x);
                        }
                    }
                    assert forall|q: int| 0 <= q < tail@.len() implies #[trigger] tail@[q] < hs.len() && !taken.contains(tail@[q]) by {
                        assert(tail@.contains(tail@[q]));
                        assert(takes(mi, tail@[q]));
                        if taken.contains(tail@[q]) {
                            let j = choose|j: int| 0 <= j < i && #[trigger] takes(msv[j], tail@[q]);
                        }
                    }
                    let hd = link_head(&mut slots, &orig, x, tail, Ghost(hs), Ghost(taken));
                    proof {
                        let t0 = taken;
                        taken = taken.insert(x).union(tail@.to_set());
                        assert(mi.tail == Some(tail@));
                        assert forall|y: usize| #[trigger] taken.contains(y) <==> exists|j: int| 0 <= j < i + 1 && #[trigger] takes(msv[j], y) by {
                            if y == x || tail@.contains(y) {
                                assert(takes(msv[i as int], y));
                            } else if exists|j: int| 0 <= j < i + 1 && #[trigger] takes(msv[j], y) {
                                let j = choose|j: int| 0 <= j < i + 1 && #[trigger] takes(msv[j], y);
                                assert(t0.contains(y));
                            }
                        }
                    }
                    (x, hd, true, true)
                },
            };
            let ghost h1 = head;
            let mut shift: Option<Movement> = None;
            match actions {
                Some(a) => {
                    head.motion.next();
                    head.action = if index < a.len() {
                        a[index]
                    } else {
                        None
                    };
                    match head.action {
                        Some(x) => {
                            if x.restriction == Restriction::Free {
                                shift = Some(x.movement);
                            }
                        },
                        None => {},
                    }
                },
                None => {},
            }
            let ghost mid = units@;
            let ghost hb = made_heads@;
            proof {
                // the cells of the cube are different places of the board
                if mi.tail is Some {
                    let tl = mi.tail->0;
                    assert(!tl.contains(index));
                    assert((seq![index] + tl).no_duplicates()) by {
                        let q = seq![index] + tl;
                        assert forall|a: int, b: int| 0 <= a < q.len() && 0 <= b < q.len() && a != b implies q[a] != q[b] by {
                            if a == 0 {
                                assert(tl.contains(q[b]));
                            } else if b == 0 {
                                assert(tl.contains(q[a]));
                            } else {
                                assert(q[a] == tl[a - 1] && q[b] == tl[b - 1]);
                            }
                        }
                    }
                    assert forall|q: int| 0 <= q < (seq![index] + tl).len() implies #[trigger] (seq![index] + tl)[q] < hs.len() by {
                        if q > 0 {
                            assert(tl.contains(tl[q - 1]));
                            assert(takes(mi, tl[q - 1]));
                        }
                    }
                    lemma_cells_of_heads(hs, seq![index] + tl);
                    lemma_cells_of_heads_front(hs, index, tl);
                    lemma_cells_upper(hs, tl, us.len() as int);
                    assert forall|q: int| 0 <= q < tl.len() implies #[trigger] tl[q] < hs.len() by {
                        assert(tl.contains(tl[q]));
                        assert(takes(mi, tl[q]));
                    }
                    assert forall|q: int| 0 <= q < head.units@.len() implies #[trigger] head.units@[q] < units@.len() by {
                        if q >= hs[index as int].units@.len() {
                            assert(head.units@[q] == cells_of_heads(hs, tl)[q - hs[index as int].units@.len()]);
                        }
                    }
                } else {
                    let ls = cell_lists(hs);
                    assert(ls[index as int] == head.units@);
                    assert(head.units@.no_duplicates()) by {
                        assert forall|a: int, b: int| 0 <= a < head.units@.len() && 0 <= b < head.units@.len() && a != b implies head.units@[a] != head.units@[b] by {
                            assert(ls[index as int][a] == head.units@[a]);
                            assert(ls[index as int][b] == head.units@[b]);
                        }
                    }
                }
                assert(i < hs.len());
            }
            if rebind || shift.is_some() || reunit {
                apply_cells(&mut units, &head.units, if rebind { Some(index) } else { None }, shift, reunit);
                remake = true;
            }
            made_heads.push(head);
            proof {
                let hf = made_heads@[i as int];
                assert(rebind == rebinds(mi));
                assert(reunit == (mi.tail is Some));
                assert(shift == shift_of(mi, acts));
                assert(cells_turn(mid, units@, mi, hf, acts));
                lemma_cells_fold_prefix(us, mid, msv.take(i as int), hb, made_heads@, acts);
                assert(msv.take(i + 1).drop_last() =~= msv.take(i as int));
                assert(msv.take(i + 1).last() == mi);
                lemma_cells_fold_step(us, mid, units@, msv.take(i + 1), made_heads@, acts);
                assert(remade(hs, us, mi, h1));
                assert(made(hs, us, mi, acts, hf));
                assert forall|j: int| 0 <= j < i + 1 implies made(hs, us, msv[j], acts, #[trigger] made_heads@[j]) by {
                    if j < i {
                        assert(made_heads@[j] == hb[j]);
                    }
                }
                assert forall|k: int| 0 <= k < units@.len() implies within(#[trigger] units@[k].position, 0x3fff_ffff + i + 1) by {
                    assert(within(mid[k].position, 0x3fff_ffff + i));
                }
                assert(remake == changes_cells(msv.take(i + 1), acts)) by {
                    let t1 = msv.take(i + 1);
                    if changes_cells(t1, acts) {
                        let j = choose|j: int| 0 <= j < t1.len() && (rebinds(#[trigger] t1[j]) || shift_of(t1[j], acts) is Some);
                        if j < i {
                            assert(msv.take(i as int)[j] == t1[j]);
                        }
                    }
                    if changes_cells(msv.take(i as int), acts) {
                        let j = choose|j: int| 0 <= j < i && (rebinds(#[trigger] msv.take(i as int)[j]) || shift_of(msv.take(i as int)[j], acts) is Some);
                        assert(t1[j] == msv.take(i as int)[j]);
                    }
                    if rebind || shift is Some {
                        assert(t1[i as int] == mi);
                    }
                }
            }
            i = i + 1;
        }
        let faction = if remake {
            make_faction(&units)
        } else {
            faction
        };
        let r = Collection { units, heads: made_heads, faction };
        proof {
            assert(msv.take(msv.len() as int) =~= msv);
            assert(transformed(col, ds, gs@, acts, r));
            if forall|h: int| 0 <= h < col.heads().len() ==> (#[trigger] col.heads()[h]).motion.well_counted() {
                lemma_transform_keeps_counted(col, ds, gs@, acts, r);
            }
        }
        r
    }
}

/// A collection seen for one turn: the movement given to blue cubes, if any.
#[derive(Clone, Copy)]
pub struct Collected<'a> {
    pub input: Option<Movement>,
    pub collection: &'a Collection,
}

/// One cube of a collection seen for a turn.
#[derive(Clone, Copy)]
pub struct CollectedCube<'a> {
    pub owner: Collected<'a>,
    pub value: &'a Head,
    pub index: usize,
}

/// What is asked of a cube: where it stands, its kind, and whom it absorbs.
pub trait BasicCube {
    /// The place of the cube.
    spec fn cube_index(&self) -> usize;

    /// The kind of the cube.
    spec fn cube_kind(&self) -> Kind;

    fn index(&self) -> (r: usize)
        ensures
            r == self.cube_index(),
    ;

    fn id(&self) -> (r: usize)
        ensures
            r == self.cube_index(),
    ;

    fn kind(&self) -> (r: Kind)
        ensures
            r == self.cube_kind(),
    ;

    /// Every kind but white can change.
    fn unstable(&self) -> (r: bool)
        ensures
            r == (self.cube_kind() != Kind::White),
    ;

    fn absorbable(&self, that: &Self) -> (r: bool)
        ensures
            r == spec_absorbable(self.cube_kind(), that.cube_kind()),
    ;

    /// This cube absorbs `that` and `that` does not absorb it.
    fn absorbable_actively(&self, that: &Self) -> (r: bool)
        ensures
            r == (spec_absorbable(self.cube_kind(), that.cube_kind()) && !spec_absorbable(that.cube_kind(), self.cube_kind())),
    ;
}

impl<'a> BasicCube for CollectedCube<'a> {
    open spec fn cube_index(&self) -> usize {
        self.index
    }

    open spec fn cube_kind(&self) -> Kind {
        self.value.kind
    }

    fn index(&self) -> (r: usize) {
        self.index
    }

    fn id(&self) -> (r: usize) {
        self.index
    }

    fn kind(&self) -> (r: Kind) {
        self.value.kind
    }

    fn unstable(&self) -> (r: bool) {
        self.value.kind.unstable()
    }

    fn absorbable(&self, that: &Self) -> (r: bool) {
        self.value.kind.absorbable(that.value.kind)
    }

    fn absorbable_actively(&self, that: &Self) -> (r: bool) {
        self.value.kind.absorbable_actively(that.value.kind)
    }
}

/// The cubes that the table gives along the points `ps`, skipping points it has none for.
pub open spec fn owners_along(t: Map<u64, usize>, ps: Seq<Point>) -> Seq<usize>
    decreases ps.len(),
{
    if ps.len() == 0 {
        Seq::empty()
    } else {
        let before = owners_along(t, ps.drop_last());
        let k = key_of(ps.last());
        if t.contains_key(k) {
            before.push(t[k])
        } else {
            before
        }
    }
}

/// The cells around cube `h` of a collection with cells `us`, from its first cell.
pub open spec fn outline_points(h: Head, us: Seq<Unit>) -> Seq<Point> {
    shifted(anchor_at(first_of(h.units@), us), h.outlines.offsets())
}

impl Collection {
    /// This collection seen for a turn in which blue cubes are given `input`.
    pub fn getter(&self, input: Option<Movement>) -> (r: Collected<'_>)
        ensures
            r.input == input,
            *r.collection == *self,
    {
        Collected { input, collection: self }
    }
}

impl<'a> Collected<'a> {
    pub fn number_of_cubes(&self) -> (r: usize)
        ensures
            r == self.collection.heads().len(),
    {
        self.collection.number_of_cubes()
    }

    pub fn number_of_units(&self) -> (r: usize)
        ensures
            r == self.collection.units().len(),
    {
        self.collection.number_of_units()
    }

    /// The cube at place `index`.
    pub fn cube(&self, index: usize) -> (r: CollectedCube<'a>)
        requires
            index < self.collection.heads().len(),
        ensures
            r.owner == *self,
            r.index == index,
            *r.value == self.collection.heads()[index as int],
    {
        CollectedCube { owner: *self, value: self.collection.head(index), index }
    }

    /// Every cube, in order.
    pub fn cubes(&self) -> (r: Vec<CollectedCube<'a>>)
        ensures
            r@.len() == self.collection.heads().len(),
            forall|i: int|
                0 <= i < r@.len() ==> (#[trigger] r@[i]).owner == *self && r@[i].index == i && *r@[i].value
                    == self.collection.heads()[i],
    {
        let n = self.number_of_cubes();
        let mut r: Vec<CollectedCube<'a>> = Vec::new();
        let mut i: usize = 0;
        while i < n
            invariant
                i <= n,
                n == self.collection.heads().len(),
                r@.len() == i,
                forall|j: int|
                    0 <= j < i ==> (#[trigger] r@[j]).owner == *self && r@[j].index == j && *r@[j].value
                        == self.collection.heads()[j],
            decreases n - i,
        {
            r.push(self.cube(i));
            i = i + 1;
        }
        r
    }
}

impl<'a> CollectedCube<'a> {
    /// The cells around the cube.
    pub fn outlines(&self) -> (r: Vec<Point>)
        requires
            shift_fits(anchor_at(first_of(self.value.units@), self.owner.collection.units()), self.value.outlines.offsets()),
        ensures
            r@ == outline_points(*self.value, self.owner.collection.units()),
    {
        let c = self.owner.collection;
        let first = if self.value.units.len() > 0 {
            Some(self.value.units[0])
        } else {
            None
        };
        let anchor = if first.is_some() && first.unwrap() < c.number_of_units() {
            c.unit(first.unwrap()).position
        } else {
            Point { x: 0, y: 0 }
        };
        self.value.outlines.all(anchor)
    }

    /// The cubes around this one, one for each cell around it that the table gives a
    /// cube for.
    pub fn neighbors(&self) -> (r: Vec<CollectedCube<'a>>)
        requires
            shift_fits(anchor_at(first_of(self.value.units@), self.owner.collection.units()), self.value.outlines.offsets()),
            forall|k: u64| #[trigger] self.owner.collection.table().contains_key(k) ==> self.owner.collection.table()[k]
                < self.owner.collection.heads().len(),
        ensures
            r@.len() == owners_along(self.owner.collection.table(), outline_points(*self.value, self.owner.collection.units())).len(),
            forall|i: int|
                0 <= i < r@.len() ==> (#[trigger] r@[i]).owner == self.owner && r@[i].index == owners_along(
                    self.owner.collection.table(),
                    outline_points(*self.value, self.owner.collection.units()),
                )[i] && *r@[i].value == self.owner.collection.heads()[r@[i].index as int],
    {
        let points = self.outlines();
        let c = self.owner.collection;
        let ghost t = c.table();
        let mut r: Vec<CollectedCube<'a>> = Vec::new();
        let mut i: usize = 0;
        while i < points.len()
            invariant
                i <= points@.len(),
                t == c.table(),
                c == self.owner.collection,
                forall|k: u64| #[trigger] t.contains_key(k) ==> t[k] < c.heads().len(),
                r@.len() == owners_along(t, points@.take(i as int)).len(),
                forall|j: int|
                    0 <= j < r@.len() ==> (#[trigger] r@[j]).owner == self.owner && r@[j].index == owners_along(
                        t,
                        points@.take(i as int),
                    )[j] && *r@[j].value == c.heads()[r@[j].index as int],
            decreases points@.len() - i,
        {
            proof {
                assert(points@.take(i + 1).drop_last() =~= points@.take(i as int));
                assert(points@.take(i + 1).last() == points@[i as int]);
            }
            match c.owner_at(points[i]) {
                Some(h) => {
                    let ghost rb = r@;
                    r.push(self.owner.cube(h));
                    proof {
                        assert forall|j: int|
                            0 <= j < r@.len() implies (#[trigger] r@[j]).owner == self.owner && r@[j].index == owners_along(
                                t,
                                points@.take(i + 1),
                            )[j] && *r@[j].value == c.heads()[r@[j].index as int] by {
                            if j < rb.len() {
                                assert(r@[j] == rb[j]);
                            }
                        }
                    }
                },
                None => {},
            }
            i = i + 1;
        }
        proof {
            assert(points@.take(points@.len() as int) =~= points@);
        }
        r
    }
}

/// The cells in front of cube `h` moving by `m`, on a board with cells `us`.
pub open spec fn front_points(h: Head, us: Seq<Unit>, m: Movement) -> Seq<Point> {
    shifted(anchor_at(first_of(h.units@), us), h.outlines.sides(side_index(m)))
}

impl<'a> CollectedCube<'a> {
    /// The movement the cube tries this turn: the input for a blue cube when there is one,
    /// otherwise what its motion chooses for this turn.
    pub fn movable(&self) -> (r: Option<Movement>)
        ensures
            r == if self.owner.input is Some && self.value.kind == Kind::Blue {
                self.owner.input
            } else {
                match self.value.motion.out() {
                    Some(c) => c,
                    None => None,
                }
            },
    {
        if self.owner.input.is_some() && self.value.kind == Kind::Blue {
            self.owner.input
        } else {
            self.value.motion.current()
        }
    }

    /// The cube with the movement it tries this turn, if it tries one.
    pub fn into_movable(self) -> (r: Option<CollectedMovableCube<'a>>)
        ensures
            match r {
                Some(m) => m.owner == self.owner && m.value == self.value && m.index == self.index
                    && self.movable_spec() == Some(m.movement),
                None => self.movable_spec() is None,
            },
    {
        match self.movable() {
            Some(movement) => Some(CollectedMovableCube { index: self.index, value: self.value, owner: self.owner, movement }),
            None => None,
        }
    }

    /// The movement the cube tries this turn, as `movable` gives it.
    pub open spec fn movable_spec(self) -> Option<Movement> {
        if self.owner.input is Some && self.value.kind == Kind::Blue {
            self.owner.input
        } else {
            match self.value.motion.out() {
                Some(c) => c,
                None => None,
            }
        }
    }
}

/// A cube of a collection seen for a turn, with the movement it tries.
#[derive(Clone, Copy)]
pub struct CollectedMovableCube<'a> {
    pub index: usize,
    pub value: &'a Head,
    pub owner: Collected<'a>,
    pub movement: Movement,
}

impl<'a> BasicCube for CollectedMovableCube<'a> {
    open spec fn cube_index(&self) -> usize {
        self.index
    }

    open spec fn cube_kind(&self) -> Kind {
        self.value.kind
    }

    fn index(&self) -> (r: usize) {
        self.index
    }

    fn id(&self) -> (r: usize) {
        self.index
    }

    fn kind(&self) -> (r: Kind) {
        self.value.kind
    }

    fn unstable(&self) -> (r: bool) {
        self.value.kind.unstable()
    }

    fn absorbable(&self, that: &Self) -> (r: bool) {
        self.value.kind.absorbable(that.value.kind)
    }

    fn absorbable_actively(&self, that: &Self) -> (r: bool) {
        self.value.kind.absorbable_actively(that.value.kind)
    }
}

impl<'a> CollectedMovableCube<'a> {
    pub fn movement(&self) -> (r: Movement)
        ensures
            r == self.movement,
    {
        self.movement
    }

    /// The cells in front of the cube, on the side it moves to.
    pub fn outlines_in_front(&self) -> (r: Vec<Point>)
        requires
            self.value.outlines.wf(),
            shift_fits(anchor_at(first_of(self.value.units@), self.owner.collection.units()), self.value.outlines.offsets()),
        ensures
            r@ == front_points(*self.value, self.owner.collection.units(), self.movement),
    {
        let c = self.owner.collection;
        let first = if self.value.units.len() > 0 {
            Some(self.value.units[0])
        } else {
            None
        };
        let anchor = if first.is_some() && first.unwrap() < c.number_of_units() {
            c.unit(first.unwrap()).position
        } else {
            Point { x: 0, y: 0 }
        };
        self.value.outlines.one(anchor, self.movement)
    }

    /// The cubes in front of this one, one for each cell in front that the table gives a
    /// cube for.
    pub fn neighbors_in_front(&self) -> (r: Vec<CollectedCube<'a>>)
        requires
            self.value.outlines.wf(),
            shift_fits(anchor_at(first_of(self.value.units@), self.owner.collection.units()), self.value.outlines.offsets()),
            forall|k: u64| #[trigger] self.owner.collection.table().contains_key(k) ==> self.owner.collection.table()[k]
                < self.owner.collection.heads().len(),
        ensures
            r@.len() == owners_along(
                self.owner.collection.table(),
                front_points(*self.value, self.owner.collection.units(), self.movement),
            ).len(),
            forall|i: int|
                0 <= i < r@.len() ==> (#[trigger] r@[i]).owner == self.owner && r@[i].index == owners_along(
                    self.owner.collection.table(),
                    front_points(*self.value, self.owner.collection.units(), self.movement),
                )[i] && *r@[i].value == self.owner.collection.heads()[r@[i].index as int],
    {
        let points = self.outlines_in_front();
        let c = self.owner.collection;
        let ghost t = c.table();
        let mut r: Vec<CollectedCube<'a>> = Vec::new();
        let mut i: usize = 0;
        while i < points.len()
            invariant
                i <= points@.len(),
                t == c.table(),
                c == self.owner.collection,
                forall|k: u64| #[trigger] t.contains_key(k) ==> t[k] < c.heads().len(),
                r@.len() == owners_along(t, points@.take(i as int)).len(),
                forall|j: int|
                    0 <= j < r@.len() ==> (#[trigger] r@[j]).owner == self.owner && r@[j].index == owners_along(
                        t,
                        points@.take(i as int),
                    )[j] && *r@[j].value == c.heads()[r@[j].index as int],
            decreases points@.len() - i,
        {
            proof {
                assert(points@.take(i + 1).drop_last() =~= points@.take(i as int));
                assert(points@.take(i + 1).last() == points@[i as int]);
            }
            match c.owner_at(points[i]) {
                Some(h) => {
                    let ghost rb = r@;
                    r.push(self.owner.cube(h));
                    proof {
                        assert forall|j: int|
                            0 <= j < r@.len() implies (#[trigger] r@[j]).owner == self.owner && r@[j].index == owners_along(
                                t,
                                points@.take(i + 1),
                            )[j] && *r@[j].value == c.heads()[r@[j].index as int] by {
                            if j < rb.len() {
                                assert(r@[j] == rb[j]);
                            }
                        }
                    }
                },
                None => {},
            }
            i = i + 1;
        }
        proof {
            assert(points@.take(points@.len() as int) =~= points@);
        }
        r
    }
}

/// `n` different places below `n` are all the places below `n`.
proof fn lemma_all_below(q: Seq<usize>, n: int, y: usize)
    requires
        q.len() == n,
        q.no_duplicates(),
        forall|x: int| 0 <= x < q.len() ==> #[trigger] q[x] < n,
        y < n,
    ensures
        q.contains(y),
{
    let qi = q.map_values(|x: usize| x as int);
    assert(qi.no_duplicates()) by {
        assert forall|a: int, b: int| 0 <= a < qi.len() && 0 <= b < qi.len() && a != b implies qi[a] != qi[b] by {
            assert(q[a] != q[b]);
        }
    }
    qi.unique_seq_to_set();
    vstd::set_lib::lemma_int_range(0, n);
    let range = vstd::set_lib::set_int_range(0, n);
    assert(qi.to_set().subset_of(range)) by {
        assert forall|v: int| qi.to_set().contains(v) implies range.contains(v) by {
            let x = choose|x: int| 0 <= x < qi.len() && qi[x] == v;
            assert(q[x] < n);
        }
    }
    vstd::set_lib::lemma_len_subset(qi.to_set(), range);
    vstd::set_lib::lemma_subset_equality(qi.to_set(), range);
    assert(range.contains(y as int));
    assert(qi.to_set().contains(y as int));
    let x = choose|x: int| 0 <= x < qi.len() && qi[x] == y as int;
    assert(q[x] == y);
}

/// Linking loses no cube: every cube below the number of kinds is taken by some packed
/// mapping, when the groups are disjoint and each without repeats.
pub proof fn lemma_mappings_cover(kinds: Seq<Kind>, gs: Seq<Seq<usize>>, y: usize)
    requires
        kinds.len() <= usize::MAX,
        y < kinds.len(),
        forall|g: int| 0 <= g < gs.len() ==> (#[trigger] gs[g]).no_duplicates(),
        forall|g1: int, j1: int, g2: int, j2: int|
            0 <= g1 < gs.len() && 0 <= j1 < gs[g1].len() && 0 <= g2 < gs.len() && 0 <= j2 < gs[g2].len()
                && g1 != g2 ==> #[trigger] gs[g1][j1] != #[trigger] gs[g2][j2],
    ensures
        exists|i: int| 0 <= i < mappings_of(kinds, gs).len() && #[trigger] takes(mappings_of(kinds, gs)[i], y),
{
    let n = kinds.len() as int;
    let orig = linked_all(copied(kinds.len()), kinds, gs);
    lemma_linked_all(kinds, gs);
    assert forall|a: int, b: int| 0 <= a < orig.len() && 0 <= b < orig.len() && a != b implies #[trigger] orig[a].head != #[trigger] orig[b].head by {}
    assert(packing(orig, orig, 0, orig.len() as int));
    lemma_packed(orig, orig, 0, orig.len() as int);
    let (r, m) = packed(orig, 0, orig.len() as int);
    let kept = r.take(m);
    assert(mappings_of(kinds, gs) == kept);
    let heads = r.map_values(|v: MappingView| v.head);
    assert(heads.no_duplicates()) by {
        assert forall|a: int, b: int| 0 <= a < heads.len() && 0 <= b < heads.len() && a != b implies heads[a] != heads[b] by {
            assert(r[a].head != r[b].head);
        }
    }
    assert forall|x: int| 0 <= x < heads.len() implies #[trigger] heads[x] < n by {
        assert(r[x].head < orig.len());
    }
    // the place of `y`, and of the leader holding it when it is marked
    lemma_all_below(heads, n, y);
    let k = choose|k: int| 0 <= k < heads.len() && heads[k] == y;
    if k < m {
        assert(kept[k] == r[k]);
        assert(takes(kept[k], y));
    } else {
        assert(orig[y as int].moving);
        let z = choose|z: int| 0 <= z < n && #[trigger] tail_holds(orig[z], y);
        assert(!orig[z].moving);
        lemma_all_below(heads, n, z as usize);
        let k2 = choose|k2: int| 0 <= k2 < heads.len() && heads[k2] == z as usize;
        if k2 >= m {
            assert(orig[r[k2].head as int].moving);
        }
        assert(kept[k2] == r[k2]);
        assert(r[k2].tail == orig[z].tail);
        assert(takes(kept[k2], y));
    }
}

/// The first member of `g` at or after `p` that absorbs all of `g`.
fn find_leader(kinds: &[Kind], g: &Vec<usize>, p: usize) -> (r: Option<usize>)
    requires
        forall|j: int| 0 <= j < g@.len() ==> #[trigger] g@[j] < kinds@.len(),
        p <= g@.len(),
    ensures
        r == (match leader_from(kinds@, g@, p as int) {
            Some(q) => Some(q as usize),
            None => None,
        }),
        r matches Some(q) ==> q < g@.len(),
    decreases g@.len() - p,
{
    if p >= g.len() {
        return None;
    }
    let l = g[p];
    let mut all = true;
    let mut j: usize = 0;
    while j < g.len()
        invariant
            j <= g@.len(),
            p < g@.len(),
            l == g@[p as int],
            forall|j: int| 0 <= j < g@.len() ==> #[trigger] g@[j] < kinds@.len(),
            all <==> forall|k: int| 0 <= k < j ==> spec_absorbable(kinds@[l as int], kinds@[#[trigger] g@[k] as int]),
        decreases g@.len() - j,
    {
        if !kinds[l].absorbable(kinds[g[j]]) {
            all = false;
        }
        j = j + 1;
    }
    if all {
        Some(p)
    } else {
        find_leader(kinds, g, p + 1)
    }
}

/// The mappings of heads of the given kinds after linking the groups, packed: each group
/// of heads is led by its first member that absorbs all the others, the others are
/// dropped, and the holes they leave are filled from the end.
pub fn mappings(kinds: &[Kind], groups: &Groups) -> (r: Vec<Mapping>)
    ensures
        views(r@) == mappings_of(kinds@, groups@),
{
    let n = kinds.len();
    let mut ms: Vec<Mapping> = Vec::new();
    let mut i: usize = 0;
    while i < n
        invariant
            i <= n,
            n == kinds@.len(),
            views(ms@) == copied(i as nat),
        decreases n - i,
    {
        let ghost before = ms@;
        let m = Mapping { moving: false, source: Source::Copy { head: i } };
        ms.push(m);
        proof {
            assert(ms@ == before.push(m));
            assert(views(ms@) =~= views(before).push(m@));
            assert(copied((i + 1) as nat) =~= copied(i as nat).push(m@));
        }
        i = i + 1;
    }
    let mut it = groups.iter();
    let ghost gs = groups@;
    loop
        invariant
            n == kinds@.len(),
            it.groups() == gs,
            it.index() <= gs.len(),
            gs == groups@,
            ms@.len() == n,
            views(ms@) == linked_all(copied(n as nat), kinds@, gs.take(it.index() as int)),
        ensures
            ms@.len() == n,
            views(ms@) == linked_all(copied(n as nat), kinds@, gs),
        decreases gs.len() - it.index(),
    {
        let ghost k = it.index() as int;
        let group = match it.next() {
            Some(g) => g,
            None => {
                proof {
                    assert(gs.take(k) =~= gs);
                }
                break;
            },
        };
        proof {
            assert(gs.take(k + 1).drop_last() =~= gs.take(k as int));
            assert(gs.take(k + 1).last() == group@);
        }
        // the members that name heads
        let mut g: Vec<usize> = Vec::new();
        let mut j: usize = 0;
        while j < group.len()
            invariant
                j <= group@.len(),
                n == kinds@.len(),
                g@ == group@.take(j as int).filter(|i: usize| i < kinds@.len()),
            decreases group@.len() - j,
        {
            proof {
                assert(group@.take(j + 1) =~= group@.take(j as int).push(group@[j as int]));
                group@.take(j as int).lemma_filter_push(group@[j as int], |i: usize| i < kinds@.len());
            }
            if group[j] < n {
                g.push(group[j]);
            }
            j = j + 1;
        }
        proof {
            assert(group@.take(group@.len() as int) =~= group@);
            assert forall|j: int| 0 <= j < g@.len() implies #[trigger] g@[j] < kinds@.len() by {
                group@.lemma_filter_pred(|i: usize| i < kinds@.len(), j);
            }
        }
        let ghost before = views(ms@);
        match find_leader(kinds, &g, 0) {
            None => {
                proof {
                    assert(g@ == group@.filter(|i: usize| i < kinds@.len()));
                    assert(views(ms@) =~= linked(before, kinds@, group@));
                }
            },
            Some(p) => {
                let ghost g2 = g@;
                let head = g.swap_remove(p);
                let tail = g;
                proof {
                    assert(tail@ =~= swap_removed(g2, p as int));
                    assert forall|j: int| 0 <= j < tail@.len() implies #[trigger] tail@[j] < n by {
                        if j == p {
                            assert(tail@[j] == g2[g2.len() - 1]);
                        } else {
                            assert(tail@[j] == g2[j]);
                        }
                    }
                }
                let mut t: usize = 0;
                while t < tail.len()
                    invariant
                        t <= tail@.len(),
                        ms@.len() == n,
                        before.len() == n,
                        forall|j: int| 0 <= j < tail@.len() ==> #[trigger] tail@[j] < n,
                        forall|x: int|
                            0 <= x < n ==> (#[trigger] ms@[x])@ == if tail@.take(t as int).contains(x as usize) {
                                MappingView { moving: true, head: before[x].head, tail: before[x].tail }
                            } else {
                                before[x]
                            },
                    decreases tail@.len() - t,
                {
                    let x = tail[t];
                    let ghost prev = ms@;
                    let mut m = ms.remove(x);
                    m.moving = true;
                    ms.insert(x, m);
                    proof {
                        assert(ms@ =~= prev.update(x as int, m));
                        assert(tail@.take(t + 1) =~= tail@.take(t as int).push(x));
                        assert forall|y: int|
                            0 <= y < n implies (#[trigger] ms@[y])@ == if tail@.take(t + 1).contains(y as usize) {
                                MappingView { moving: true, head: before[y].head, tail: before[y].tail }
                            } else {
                                before[y]
                            } by {
                            vstd::seq_lib::lemma_seq_contains_after_push(tail@.take(t as int), x, y as usize);
                        }
                    }
                    t = t + 1;
                }
                proof {
                    assert(tail@.take(tail@.len() as int) =~= tail@);
                }
                let ghost tv = tail@;
                let ghost prev = ms@;
                let _old = ms.remove(head);
                ms.insert(head, Mapping { moving: false, source: Source::Link { head, tail } });
                proof {
                    assert(ms@ =~= prev.update(head as int, ms@[head as int]));
                    let marked = Seq::new(
                        before.len(),
                        |x: int|
                            if tv.contains(x as usize) {
                                MappingView { moving: true, head: before[x].head, tail: before[x].tail }
                            } else {
                                before[x]
                            },
                    );
                    assert(ms@[head as int]@ == MappingView { moving: false, head, tail: Some(tv) });
                    assert forall|x: int| 0 <= x < n implies #[trigger] views(ms@)[x] == marked.update(head as int, MappingView { moving: false, head, tail: Some(tv) })[x] by {
                        if x != head {
                            assert(ms@[x] == prev[x]);
                        }
                    }
                    assert(views(ms@) =~= marked.update(head as int, MappingView { moving: false, head, tail: Some(tv) }));
                    assert(g2 == group@.filter(|i: usize| i < kinds@.len()));
                    lemma_leader_from_range(kinds@, g2, 0);
                    assert(leader_from(kinds@, g2, 0) == Some(p as int));
                    assert(head == g2[p as int]);
                    let spec_marked = Seq::new(
                        before.len(),
                        |x: int|
                            if swap_removed(g2, p as int).contains(x as usize) {
                                MappingView { moving: true, head: before[x].head, tail: before[x].tail }
                            } else {
                                before[x]
                            },
                    );
                    assert(marked =~= spec_marked);
                    assert(views(ms@) =~= linked(before, kinds@, group@));
                }
            },
        }
    }
    // pack
    let ghost start = views(ms@);
    let mut i: usize = 0;
    let mut n: usize = ms.len();
    while i < n
        invariant
            n <= ms@.len(),
            ms@.len() == start.len(),
            packed(views(ms@), i as int, n as int) == packed(start, 0, start.len() as int),
        decreases ms@.len() - i,
    {
        let ghost cur = views(ms@);
        let ghost n0 = n as int;
        if ms[i].moving {
            n = n - 1;
            while i < n && ms[n].moving
                invariant
                    i <= n,
                    n < n0,
                    n0 <= ms@.len(),
                    cur == views(ms@),
                    last_kept(cur, i as int, n as int) == last_kept(cur, i as int, n0 - 1),
                decreases n - i,
            {
                n = n - 1;
            }
            assert(last_kept(cur, i as int, n as int) == n);
            if i < n {
                let ghost prev = ms@;
                let a = ms.remove(n);
                let b = ms.remove(i);
                let mut a = a;
                a.moving = true;
                ms.insert(i, a);
                ms.insert(n, b);
                proof {
                    assert(ms@ =~= prev.update(n as int, prev[i as int]).update(i as int, a));
                    assert(views(ms@) =~= cur.update(n as int, cur[i as int]).update(
                        i as int,
                        MappingView { moving: true, head: cur[n as int].head, tail: cur[n as int].tail },
                    ));
                }
            }
        }
        i = i + 1;
    }
    let ghost fin = views(ms@);
    ms.truncate(n);
    proof {
        assert(views(ms@) =~= fin.take(n as int));
    }
    ms
}

} // verus!