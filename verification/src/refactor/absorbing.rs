use vstd::prelude::*;

use super::cube::{
    anchor_of, arena_result, linked_into, shift_fits, shifted, with_balance, Arena, ArenaResult,
    Collection, Cube, Outlines,
};
use super::kind::Kind;
use super::lookup::Faction;
use super::stopping::{
    cells_near, group_result, holds_cell, lemma_gathered_near, lemma_near_fits, lemma_partition_same, lemma_unique_below, near, outlined,
};
use super::cube::{cell_count, gathered, lemma_cells_among_lengths, lemma_linked_count};
use crate::common::forest::{is_partition, lemma_filter_agree};
use crate::common::point::Point;
use crate::rule::lookup::{lemma_join_tracked, tied, tied_cubes, touched_by, tracks, DisjointSet};

verus! {

/// The cube has cells and may still absorb or be absorbed.
pub open spec fn restless(c: Cube) -> bool {
    c.spec_alive() && c.spec_unstable()
}

/// The last restless cube of `cs` with a cell at `p`.
pub open spec fn restless_owner(cs: Seq<Cube>, p: Point) -> Option<usize>
    decreases cs.len(),
{
    if cs.len() == 0 {
        None
    } else if restless(cs.last()) && holds_cell(cs.last(), p) {
        Some((cs.len() - 1) as usize)
    } else {
        restless_owner(cs.drop_last(), p)
    }
}

/// The cells around a cube, from its first cell.
pub open spec fn around(c: Cube) -> Seq<Point> {
    shifted(anchor_of(c.units@), c.outlines.offsets())
}

/// The restless cubes that own the points of `ps`, in order, skipping points no such cube
/// owns.
pub open spec fn restless_along(cs: Seq<Cube>, ps: Seq<Point>) -> Seq<usize>
    decreases ps.len(),
{
    if ps.len() == 0 {
        Seq::empty()
    } else {
        let before = restless_along(cs, ps.drop_last());
        match restless_owner(cs, ps.last()) {
            Some(j) => before.push(j),
            None => before,
        }
    }
}

/// The restless cubes met around cube `u`, in the order of its outline, with repeats.
pub open spec fn met(cs: Seq<Cube>, u: usize) -> Seq<usize> {
    restless_along(cs, around(cs[u as int]))
}

/// Cube `u` meets the cubes of `list` in turn: each not reached yet is reached, and
/// joined with `u` when they may merge.
pub open spec fn meet(
    cs: Seq<Cube>,
    u: usize,
    list: Seq<usize>,
    order: Seq<usize>,
    pairs: Seq<(usize, usize)>,
) -> (Seq<usize>, Seq<(usize, usize)>)
    decreases list.len(),
{
    if list.len() == 0 {
        (order, pairs)
    } else {
        let (o, p) = meet(cs, u, list.drop_last(), order, pairs);
        let v = list.last();
        if o.contains(v) {
            (o, p)
        } else {
            (o.push(v), if cs[u as int].spec_mergeable(cs[v as int]) {
                p.push((u, v))
            } else {
                p
            })
        }
    }
}

/// The first restless cube at or after place `k` not reached yet.
pub open spec fn next_root(cs: Seq<Cube>, order: Seq<usize>, k: int) -> Option<usize>
    decreases cs.len() - k,
{
    if k < 0 || k >= cs.len() {
        None
    } else if restless(cs[k]) && !order.contains(k as usize) {
        Some(k as usize)
    } else {
        next_root(cs, order, k + 1)
    }
}

/// A walk, breadth first, over the restless cubes: `order` holds the cubes reached, in
/// that order, of which the first `done` have met their neighbours, and `pairs` the
/// joins made; when all reached cubes are done, the first restless cube not reached
/// starts anew. `fuel` bounds the steps.
pub open spec fn walk(
    cs: Seq<Cube>,
    order: Seq<usize>,
    done: int,
    pairs: Seq<(usize, usize)>,
    fuel: nat,
) -> (Seq<usize>, Seq<(usize, usize)>)
    decreases fuel,
{
    if fuel == 0 {
        (order, pairs)
    } else if 0 <= done < order.len() {
        let u = order[done];
        let (o, p) = meet(cs, u, met(cs, u), order, pairs);
        walk(cs, o, done + 1, p, (fuel - 1) as nat)
    } else {
        match next_root(cs, order, 0) {
            Some(r) => walk(cs, order.push(r), done, pairs, (fuel - 1) as nat),
            None => (order, pairs),
        }
    }
}

/// The joins of the whole walk; twice the number of cubes, and one, bounds its steps.
pub open spec fn walk_pairs(cs: Seq<Cube>) -> Seq<(usize, usize)> {
    walk(cs, Seq::empty(), 0, Seq::empty(), (2 * cs.len() + 1) as nat).1
}

/// One group on board `before`: if one colour absorbs the others, its cubes are linked
/// into the first with that colour; if all three colours meet, its cubes are balanced;
/// otherwise nothing changes.
pub open spec fn absorbed_step(before: Seq<Cube>, after: Seq<Cube>, g: Seq<usize>) -> bool {
    match group_result(before, g) {
        ArenaResult::Have(kind) => linked_into(before, after, g, kind),
        ArenaResult::Draw => after == Seq::new(
            before.len(),
            |k: int|
                if g.contains(k as usize) {
                    with_balance(before[k])
                } else {
                    before[k]
                },
        ),
        _ => after == before,
    }
}

/// The groups of `gs` taken in turn, as by `absorbed_step`, lead from `before` to `after`.
pub open spec fn absorbed_all(before: Seq<Cube>, after: Seq<Cube>, gs: Seq<Seq<usize>>) -> bool
    decreases gs.len(),
{
    if gs.len() == 0 {
        after == before
    } else {
        exists|mid: Seq<Cube>|
            absorbed_all(before, mid, gs.drop_last()) && #[trigger] absorbed_step(mid, after, gs.last())
    }
}

impl Collection {
    /// For each cell of a restless cube, the last such cube.
    fn restless_table(&self) -> (r: Faction)
        ensures
            forall|p: Point| #[trigger] r.owner_of(p) == restless_owner(self.cubes(), p),
    {
        let n = self.number_of_cubes();
        let ghost cs = self.cubes();
        let mut f = Faction::with_capacity(n);
        let mut k: usize = 0;
        while k < n
            invariant
                k <= n,
                n == cs.len(),
                cs == self.cubes(),
                forall|p: Point| #[trigger] f.owner_of(p) == restless_owner(cs.take(k as int), p),
            decreases n - k,
        {
            let c = self.cube_at(k);
            proof {
                assert(cs.take(k + 1).drop_last() =~= cs.take(k as int));
                assert(cs.take(k + 1).last() == cs[k as int]);
            }
            if c.alive() && c.unstable() {
                let mut u: usize = 0;
                while u < c.units.len()
                    invariant
                        u <= c.units@.len(),
                        *c == cs[k as int],
                        forall|p: Point|
                            #[trigger] f.owner_of(p) == if exists|i: int|
                                0 <= i < u && (#[trigger] c.units@[i]).position == p {
                                Some(k)
                            } else {
                                restless_owner(cs.take(k as int), p)
                            },
                    decreases c.units@.len() - u,
                {
                    f.put(c.units[u].position, k);
                    proof {
                        assert forall|p: Point| #[trigger] f.owner_of(p) == if exists|i: int|
                            0 <= i < u + 1 && (#[trigger] c.units@[i]).position == p {
                            Some(k)
                        } else {
                            restless_owner(cs.take(k as int), p)
                        } by {
                            if p == c.units@[u as int].position {
                                assert(0 <= u < u + 1 && c.units@[u as int].position == p);
                            } else {
                                if exists|i: int| 0 <= i < u + 1 && (#[trigger] c.units@[i]).position == p {
                                    let i = choose|i: int| 0 <= i < u + 1 && (#[trigger] c.units@[i]).position == p;
                                    assert(i < u);
                                }
                            }
                        }
                    }
                    u = u + 1;
                }
                proof {
                    assert forall|p: Point| #[trigger] f.owner_of(p) == restless_owner(cs.take(k + 1), p) by {
                        if holds_cell(cs[k as int], p) {
                            let i = choose|i: int| 0 <= i < c.units@.len() && (#[trigger] c.units@[i]).position == p;
                            assert(0 <= i < c.units@.len() && c.units@[i].position == p);
                        }
                    }
                }
            }
            k = k + 1;
        }
        proof {
            assert(cs.take(n as int) =~= cs);
        }
        f
    }
}

/// A restless owner is a place of the sequence, and a restless cube.
proof fn lemma_restless_owner_below(cs: Seq<Cube>, p: Point)
    requires
        cs.len() <= usize::MAX,
    ensures
        restless_owner(cs, p) matches Some(j) ==> j < cs.len() && restless(cs[j as int]),
    decreases cs.len(),
{
    if cs.len() > 0 && !(restless(cs.last()) && holds_cell(cs.last(), p)) {
        lemma_restless_owner_below(cs.drop_last(), p);
    }
}

impl Collection {
    /// The restless cubes met around cube `u`, in the order of its outline.
    fn met_by(&self, f: &Faction, u: usize) -> (r: Vec<usize>)
        requires
            u < self.cubes().len(),
            outlined(self.cubes()),
            forall|p: Point| #[trigger] f.owner_of(p) == restless_owner(self.cubes(), p),
        ensures
            r@ == met(self.cubes(), u),
            forall|i: int| 0 <= i < r@.len() ==> #[trigger] r@[i] < self.cubes().len(),
    {
        let ghost cs = self.cubes();
        let c = self.cube_at(u);
        assert(c.outlines.wf() && shift_fits(anchor_of(c.units@), c.outlines.offsets()));
        let anchor = Outlines::anchor(c.units.as_slice());
        let points = c.outlines.all(anchor);
        assert(points@ == around(cs[u as int]));
        let _ = self.number_of_cubes();
        let mut r: Vec<usize> = Vec::new();
        let mut i: usize = 0;
        while i < points.len()
            invariant
                i <= points@.len(),
                cs == self.cubes(),
                cs.len() <= usize::MAX,
                forall|p: Point| #[trigger] f.owner_of(p) == restless_owner(cs, p),
                r@ == restless_along(cs, points@.take(i as int)),
                forall|x: int| 0 <= x < r@.len() ==> #[trigger] r@[x] < cs.len(),
            decreases points@.len() - i,
        {
            proof {
                assert(points@.take(i + 1).drop_last() =~= points@.take(i as int));
                assert(points@.take(i + 1).last() == points@[i as int]);
                lemma_restless_owner_below(cs, points@[i as int]);
            }
            match f.get(points[i]) {
                Some(j) => {
                    r.push(j);
                },
                None => {},
            }
            i = i + 1;
        }
        proof {
            assert(points@.take(points@.len() as int) =~= points@);
        }
        r
    }
}

/// The walk goes on from a state to the next one, and ends at the same place.
proof fn lemma_walk_visit(cs: Seq<Cube>, order: Seq<usize>, done: int, pairs: Seq<(usize, usize)>, fuel: nat)
    requires
        fuel > 0,
        0 <= done < order.len(),
    ensures
        walk(cs, order, done, pairs, fuel) == walk(
            cs,
            meet(cs, order[done], met(cs, order[done]), order, pairs).0,
            done + 1,
            meet(cs, order[done], met(cs, order[done]), order, pairs).1,
            (fuel - 1) as nat,
        ),
{
}

proof fn lemma_walk_root(cs: Seq<Cube>, order: Seq<usize>, done: int, pairs: Seq<(usize, usize)>, fuel: nat, r: usize)
    requires
        fuel > 0,
        done == order.len(),
        next_root(cs, order, 0) == Some(r),
    ensures
        walk(cs, order, done, pairs, fuel) == walk(cs, order.push(r), done, pairs, (fuel - 1) as nat),
{
}

proof fn lemma_walk_end(cs: Seq<Cube>, order: Seq<usize>, done: int, pairs: Seq<(usize, usize)>, fuel: nat)
    requires
        done == order.len(),
        next_root(cs, order, 0) is None,
    ensures
        walk(cs, order, done, pairs, fuel) == (order, pairs),
{
}

/// The first restless cube not reached at or after `k` is the first from the start, when
/// every restless cube before `k` is reached.
proof fn lemma_next_root_from(cs: Seq<Cube>, order: Seq<usize>, k: int)
    requires
        0 <= k <= cs.len(),
        forall|x: int| 0 <= x < k && restless(cs[x]) ==> order.contains(x as usize),
        cs.len() <= usize::MAX,
    ensures
        next_root(cs, order, 0) == next_root(cs, order, k),
    decreases k,
{
    if k > 0 {
        lemma_next_root_from(cs, order, k - 1);
    }
}

/// `order` holds the reached cubes, each once, all places of the board, and `visit`
/// marks exactly them.
pub open spec fn reached(visit: Seq<bool>, order: Seq<usize>, n: int) -> bool {
    &&& visit.len() == n
    &&& order.no_duplicates()
    &&& forall|x: int| 0 <= x < order.len() ==> #[trigger] order[x] < n
    &&& forall|x: int| 0 <= x < n ==> (#[trigger] visit[x] <==> order.contains(x as usize))
}

/// Reaching a cube not reached yet keeps the marks in order.
proof fn lemma_reach(visit: Seq<bool>, order: Seq<usize>, n: int, v: usize)
    requires
        reached(visit, order, n),
        v < n,
        n <= usize::MAX,
        !visit[v as int],
    ensures
        reached(visit.update(v as int, true), order.push(v), n),
{
    let vs = visit.update(v as int, true);
    let o = order.push(v);
    assert(!order.contains(v));
    assert forall|a: int, b: int| 0 <= a < o.len() && 0 <= b < o.len() && a != b implies o[a] != o[b] by {
        if a == order.len() as int {
            assert(order[b] == o[b]);
        }
        if b == order.len() as int {
            assert(order[a] == o[a]);
        }
    }
    assert forall|x: int| 0 <= x < o.len() implies #[trigger] o[x] < n by {
        if x < order.len() {
            assert(o[x] == order[x]);
        }
    }
    assert forall|x: int| 0 <= x < n implies (#[trigger] vs[x] <==> o.contains(x as usize)) by {
        let y = x as usize;
        vstd::seq_lib::lemma_seq_contains_after_push(order, v, y);
        if x != v as int {
            assert(vs[x] == visit[x]);
        }
    }
}

impl Collection {
    /// Cube `u` meets the cubes of `list` in turn, as `meet` says.
    fn meet_exec(
        &self,
        u: usize,
        list: &Vec<usize>,
        visit: &mut Vec<bool>,
        order: &mut Vec<usize>,
        conn: &mut DisjointSet,
        Ghost(pairs): Ghost<Seq<(usize, usize)>>,
    ) -> (r: Ghost<Seq<(usize, usize)>>)
        requires
            u < self.cubes().len(),
            forall|i: int| 0 <= i < list@.len() ==> #[trigger] list@[i] < self.cubes().len(),
            reached(old(visit)@, old(order)@, self.cubes().len() as int),
            tracks(*old(conn), self.cubes().len() as int, pairs),
        ensures
            (final(order)@, r@) == meet(self.cubes(), u, list@, old(order)@, pairs),
            reached(final(visit)@, final(order)@, self.cubes().len() as int),
            tracks(*final(conn), self.cubes().len() as int, r@),
    {
        let ghost cs = self.cubes();
        let n = self.number_of_cubes();
        let ghost o0 = order@;
        let ghost p0 = pairs;
        let ghost mut pairs = pairs;
        let mut i: usize = 0;
        while i < list.len()
            invariant
                i <= list@.len(),
                n == cs.len(),
                cs == self.cubes(),
                u < n,
                forall|x: int| 0 <= x < list@.len() ==> #[trigger] list@[x] < n,
                reached(visit@, order@, n as int),
                tracks(*conn, n as int, pairs),
                (order@, pairs) == meet(cs, u, list@.take(i as int), o0, p0),
            decreases list@.len() - i,
        {
            let v = list[i];
            proof {
                assert(list@.take(i + 1).drop_last() =~= list@.take(i as int));
                assert(list@.take(i + 1).last() == v);
            }
            if !visit[v] {
                let ghost vb = visit@;
                let ghost ob = order@;
                visit.set(v, true);
                order.push(v);
                proof {
                    lemma_reach(vb, ob, n as int, v);
                    assert(visit@ == vb.update(v as int, true));
                }
                if self.cube_at(u).mergeable(self.cube_at(v)) {
                    let ghost before = *conn;
                    conn.join(u, v);
                    proof {
                        lemma_join_tracked(before, *conn, n as int, pairs, u, v);
                        pairs = pairs.push((u, v));
                    }
                }
            }
            i = i + 1;
        }
        proof {
            assert(list@.take(list@.len() as int) =~= list@);
        }
        Ghost(pairs)
    }

    /// Walks over the restless cubes breadth first, from each restless cube not reached
    /// yet in order, joining each cube with the cubes it first reaches when they may merge.
    fn walk_exec(&self) -> (r: (DisjointSet, Ghost<Seq<(usize, usize)>>))
        requires
            outlined(self.cubes()),
        ensures
            r.1@ == walk_pairs(self.cubes()),
            tracks(r.0, self.cubes().len() as int, r.1@),
    {
        let ghost cs = self.cubes();
        let n = self.number_of_cubes();
        let f = self.restless_table();
        let mut conn = DisjointSet::new(n);
        let ghost mut pairs: Seq<(usize, usize)> = Seq::empty();
        let mut visit: Vec<bool> = Vec::new();
        while visit.len() < n
            invariant
                visit@.len() <= n,
                forall|x: int| 0 <= x < visit@.len() ==> !#[trigger] visit@[x],
            decreases n - visit@.len(),
        {
            visit.push(false);
        }
        let mut order: Vec<usize> = Vec::new();
        let mut done: usize = 0;
        let mut k: usize = 0;
        let ghost mut roots: int = 0;
        let ghost goal = walk(cs, Seq::empty(), 0, Seq::empty(), (2 * cs.len() + 1) as nat);
        proof {
            assert forall|a: int, b: int| 0 <= a < n && 0 <= b < n implies (#[trigger] conn.same(a, b) <==> tied(n as int, pairs, a, b)) by {}
            assert forall|x: usize| #[trigger] conn.touched().contains(x) <==> tied_cubes(n as int, pairs).contains(x) by {}
            assert(reached(visit@, order@, n as int));
        }
        loop
            invariant
                n == cs.len(),
                cs == self.cubes(),
                outlined(cs),
                forall|p: Point| #[trigger] f.owner_of(p) == restless_owner(cs, p),
                reached(visit@, order@, n as int),
                tracks(conn, n as int, pairs),
                done <= order@.len(),
                k <= n,
                forall|x: int| 0 <= x < k && restless(cs[x]) ==> order@.contains(x as usize),
                0 <= roots <= order@.len(),
                walk(cs, order@, done as int, pairs, (2 * n + 1 - done - roots) as nat) == goal,
            ensures
                tracks(conn, n as int, pairs),
                goal == (order@, pairs),
            decreases 2 * n + 1 - done - roots,
        {
            proof {
                lemma_unique_below(order@, n as int);
            }
            if done < order.len() {
                let u = order[done];
                let list = self.met_by(&f, u);
                let ghost ob = order@;
                let ghost pb = pairs;
                let Ghost(next) = self.meet_exec(u, &list, &mut visit, &mut order, &mut conn, Ghost(pairs));
                proof {
                    lemma_walk_visit(cs, ob, done as int, pb, (2 * n + 1 - done - roots) as nat);
                    pairs = next;
                    assert(meet(cs, u, list@, ob, pb).0 == order@);
                    lemma_meet_grows(cs, u, list@, ob, pb);
                    assert forall|x: int| 0 <= x < k && restless(cs[x]) implies order@.contains(x as usize) by {
                        assert(ob.contains(x as usize));
                        let q = choose|q: int| 0 <= q < ob.len() && ob[q] == x as usize;
                        assert(order@[q] == ob[q]);
                    }
                }
                done = done + 1;
            } else {
                while k < n && !(self.cube_at(k).alive() && self.cube_at(k).unstable() && !visit[k])
                    invariant
                        k <= n,
                        n == cs.len(),
                        cs == self.cubes(),
                        reached(visit@, order@, n as int),
                        forall|x: int| 0 <= x < k && restless(cs[x]) ==> order@.contains(x as usize),
                    decreases n - k,
                {
                    k = k + 1;
                }
                proof {
                    lemma_next_root_from(cs, order@, k as int);
                }
                if k == n {
                    proof {
                        lemma_walk_end(cs, order@, done as int, pairs, (2 * n + 1 - done - roots) as nat);
                    }
                    break;
                }
                let ghost ob = order@;
                let ghost vb = visit@;
                proof {
                    assert(next_root(cs, order@, k as int) == Some(k));
                    lemma_walk_root(cs, ob, done as int, pairs, (2 * n + 1 - done - roots) as nat, k);
                    lemma_reach(vb, ob, n as int, k);
                }
                visit.set(k, true);
                order.push(k);
                proof {
                    assert(visit@ == vb.update(k as int, true));
                    roots = roots + 1;
                    assert forall|x: int| 0 <= x < k && restless(cs[x]) implies order@.contains(x as usize) by {
                        vstd::seq_lib::lemma_seq_contains_after_push(ob, k, x as usize);
                    }
                }
            }
        }
        (conn, Ghost(pairs))
    }
}

/// Meeting keeps what was reached, in order, and reaches only more.
proof fn lemma_meet_grows(cs: Seq<Cube>, u: usize, list: Seq<usize>, order: Seq<usize>, pairs: Seq<(usize, usize)>)
    ensures
        meet(cs, u, list, order, pairs).0.len() >= order.len(),
        meet(cs, u, list, order, pairs).0.take(order.len() as int) == order,
    decreases list.len(),
{
    if list.len() > 0 {
        lemma_meet_grows(cs, u, list.drop_last(), order, pairs);
        let (o, p) = meet(cs, u, list.drop_last(), order, pairs);
        if !o.contains(list.last()) {
            assert(o.push(list.last()).take(order.len() as int) =~= o.take(order.len() as int));
        }
    }
}

/// Each of `s` is a place of `cs` that holds a restless cube.
pub open spec fn all_restless(cs: Seq<Cube>, s: Seq<usize>) -> bool {
    forall|i: int| 0 <= i < s.len() ==> #[trigger] s[i] < cs.len() && restless(cs[s[i] as int])
}

/// Both cubes of each pair of `ps` are places of `cs` that hold restless cubes.
pub open spec fn pairs_restless(cs: Seq<Cube>, ps: Seq<(usize, usize)>) -> bool {
    forall|i: int|
        0 <= i < ps.len() ==> {
            &&& (#[trigger] ps[i]).0 < cs.len()
            &&& restless(cs[ps[i].0 as int])
            &&& ps[i].1 < cs.len()
            &&& restless(cs[ps[i].1 as int])
        }
}

/// The cubes met along points are restless.
proof fn lemma_restless_along(cs: Seq<Cube>, ps: Seq<Point>)
    requires
        cs.len() <= usize::MAX,
    ensures
        all_restless(cs, restless_along(cs, ps)),
    decreases ps.len(),
{
    if ps.len() > 0 {
        lemma_restless_along(cs, ps.drop_last());
        lemma_restless_owner_below(cs, ps.last());
    }
}

/// Meeting restless cubes reaches and joins restless cubes only.
proof fn lemma_meet_restless(
    cs: Seq<Cube>,
    u: usize,
    list: Seq<usize>,
    order: Seq<usize>,
    pairs: Seq<(usize, usize)>,
)
    requires
        u < cs.len(),
        restless(cs[u as int]),
        all_restless(cs, list),
        all_restless(cs, order),
        pairs_restless(cs, pairs),
    ensures
        all_restless(cs, meet(cs, u, list, order, pairs).0),
        pairs_restless(cs, meet(cs, u, list, order, pairs).1),
    decreases list.len(),
{
    if list.len() > 0 {
        let rest = list.drop_last();
        assert forall|i: int| 0 <= i < rest.len() implies #[trigger] rest[i] < cs.len() && restless(cs[rest[i] as int]) by {
            assert(rest[i] == list[i]);
        }
        lemma_meet_restless(cs, u, rest, order, pairs);
        let (o, p) = meet(cs, u, rest, order, pairs);
        let v = list.last();
        assert(v == list[list.len() - 1]);
        if !o.contains(v) {
            assert forall|i: int| 0 <= i < o.push(v).len() implies #[trigger] o.push(v)[i] < cs.len() && restless(cs[o.push(v)[i] as int]) by {
                if i < o.len() {
                    assert(o.push(v)[i] == o[i]);
                }
            }
            if cs[u as int].spec_mergeable(cs[v as int]) {
                assert forall|i: int| 0 <= i < p.push((u, v)).len() implies {
                    &&& (#[trigger] p.push((u, v))[i]).0 < cs.len()
                    &&& restless(cs[p.push((u, v))[i].0 as int])
                    &&& p.push((u, v))[i].1 < cs.len()
                    &&& restless(cs[p.push((u, v))[i].1 as int])
                } by {
                    if i < p.len() {
                        assert(p.push((u, v))[i] == p[i]);
                    }
                }
            }
        }
    }
}

/// The first restless cube not reached yet is restless.
proof fn lemma_next_root_restless(cs: Seq<Cube>, order: Seq<usize>, k: int)
    requires
        cs.len() <= usize::MAX,
    ensures
        next_root(cs, order, k) matches Some(r) ==> r < cs.len() && restless(cs[r as int]),
    decreases cs.len() - k,
{
    if 0 <= k < cs.len() && !(restless(cs[k]) && !order.contains(k as usize)) {
        lemma_next_root_restless(cs, order, k + 1);
    }
}

/// The walk reaches and joins restless cubes only.
proof fn lemma_walk_restless(
    cs: Seq<Cube>,
    order: Seq<usize>,
    done: int,
    pairs: Seq<(usize, usize)>,
    fuel: nat,
)
    requires
        cs.len() <= usize::MAX,
        all_restless(cs, order),
        pairs_restless(cs, pairs),
    ensures
        pairs_restless(cs, walk(cs, order, done, pairs, fuel).1),
    decreases fuel,
{
    if fuel > 0 {
        if 0 <= done < order.len() {
            let u = order[done];
            lemma_restless_along(cs, around(cs[u as int]));
            lemma_meet_restless(cs, u, met(cs, u), order, pairs);
            let (o, p) = meet(cs, u, met(cs, u), order, pairs);
            lemma_walk_restless(cs, o, done + 1, p, (fuel - 1) as nat);
        } else {
            lemma_next_root_restless(cs, order, 0);
            match next_root(cs, order, 0) {
                Some(r) => {
                    assert forall|i: int| 0 <= i < order.push(r).len() implies #[trigger] order.push(r)[i] < cs.len() && restless(cs[order.push(r)[i] as int]) by {
                        if i < order.len() {
                            assert(order.push(r)[i] == order[i]);
                        }
                    }
                    lemma_walk_restless(cs, order.push(r), done, pairs, (fuel - 1) as nat);
                },
                None => {},
            }
        }
    }
}

/// The groups taken in turn keep the number of cubes, and leave each cube that none of
/// them holds as it was.
proof fn lemma_absorbed_all_keeps(before: Seq<Cube>, after: Seq<Cube>, gs: Seq<Seq<usize>>, k: int)
    requires
        absorbed_all(before, after, gs),
    ensures
        after.len() == before.len(),
        0 <= k < before.len() && (forall|g: int| 0 <= g < gs.len() ==> !(#[trigger] gs[g]).contains(k as usize))
            ==> after[k] == before[k],
    decreases gs.len(),
{
    if gs.len() > 0 {
        let mid = choose|mid: Seq<Cube>|
            absorbed_all(before, mid, gs.drop_last()) && #[trigger] absorbed_step(mid, after, gs.last());
        lemma_absorbed_all_keeps(before, mid, gs.drop_last(), k);
        let g = gs.last();
        if 0 <= k < before.len() && (forall|x: int| 0 <= x < gs.len() ==> !(#[trigger] gs[x]).contains(k as usize)) {
            assert forall|x: int| 0 <= x < gs.drop_last().len() implies !(#[trigger] gs.drop_last()[x]).contains(k as usize) by {
                assert(gs.drop_last()[x] == gs[x]);
            }
            assert(!gs[gs.len() - 1].contains(k as usize));
            assert(g.len() > 0 ==> g[0] != k as usize);
        }
        match group_result(mid, g) {
            ArenaResult::Have(kind) => {},
            ArenaResult::Draw => {},
            _ => {},
        }
    }
}

/// Absorbing keeps the number of cubes, and leaves each cube that is empty, white or
/// balanced as it was: only restless cubes absorb or are absorbed.
pub proof fn lemma_absorb_keeps_settled(
    cs: Seq<Cube>,
    gs: Seq<Seq<usize>>,
    elems: Seq<usize>,
    after: Seq<Cube>,
    k: int,
)
    requires
        cs.len() <= usize::MAX,
        absorbing_outcome(cs, gs, elems, after),
    ensures
        after.len() == cs.len(),
        0 <= k < cs.len() && !restless(cs[k]) ==> after[k] == cs[k],
{
    let n = cs.len() as int;
    let ps = walk_pairs(cs);
    lemma_walk_restless(cs, Seq::empty(), 0, Seq::empty(), (2 * cs.len() + 1) as nat);
    if 0 <= k < cs.len() && !restless(cs[k]) {
        assert forall|g: int| 0 <= g < gs.len() implies !(#[trigger] gs[g]).contains(k as usize) by {
            if gs[g].contains(k as usize) {
                let j = choose|j: int| 0 <= j < gs[g].len() && gs[g][j] == k as usize;
                assert(elems.contains(gs[g][j]));
                assert(elems.to_set().contains(k as usize));
                assert(tied_cubes(n, ps).contains(k as usize));
                let i = choose|i: int|
                    0 <= i < ps.len() && (#[trigger] ps[i]).0 < n && ps[i].1 < n && ps[i].0 != ps[i].1
                        && (ps[i].0 == k as usize || ps[i].1 == k as usize);
                assert(pairs_restless(cs, ps));
            }
        }
    }
    lemma_absorbed_all_keeps(cs, after, gs, k);
}

/// The groups taken in turn keep the number of cells.
proof fn lemma_absorbed_all_count(before: Seq<Cube>, after: Seq<Cube>, gs: Seq<Seq<usize>>)
    requires
        absorbed_all(before, after, gs),
        before.len() <= usize::MAX,
        forall|g: int, j: int| 0 <= g < gs.len() && 0 <= j < gs[g].len() ==> #[trigger] gs[g][j] < before.len(),
    ensures
        cell_count(after) == cell_count(before),
    decreases gs.len(),
{
    if gs.len() > 0 {
        let mid = choose|mid: Seq<Cube>|
            absorbed_all(before, mid, gs.drop_last()) && #[trigger] absorbed_step(mid, after, gs.last());
        let rest = gs.drop_last();
        assert forall|g: int, j: int| 0 <= g < rest.len() && 0 <= j < rest[g].len() implies #[trigger] rest[g][j] < before.len() by {
            assert(rest[g] == gs[g]);
        }
        lemma_absorbed_all_count(before, mid, rest);
        lemma_absorbed_all_keeps(before, mid, rest, 0);
        let g = gs.last();
        assert forall|n: int| 0 <= n < g.len() implies #[trigger] g[n] < mid.len() by {
            assert(gs[gs.len() - 1][n] < before.len());
        }
        match group_result(mid, g) {
            ArenaResult::Have(kind) => {
                lemma_linked_count(mid, after, g, kind);
            },
            ArenaResult::Draw => {
                lemma_cells_among_lengths(after, mid, after.len() as int, |k: int| true);
            },
            _ => {},
        }
    }
}

/// Absorbing keeps the number of cells: an absorbed cube gives its cells to the cube it
/// is linked into, and no cell is lost or made.
pub proof fn lemma_absorb_keeps_cells(cs: Seq<Cube>, gs: Seq<Seq<usize>>, elems: Seq<usize>, after: Seq<Cube>)
    requires
        cs.len() <= usize::MAX,
        absorbing_outcome(cs, gs, elems, after),
    ensures
        cell_count(after) == cell_count(cs),
{
    let n = cs.len() as int;
    let ps = walk_pairs(cs);
    assert forall|g: int, j: int| 0 <= g < gs.len() && 0 <= j < gs[g].len() implies #[trigger] gs[g][j] < cs.len() by {
        assert(elems.contains(gs[g][j]));
        assert(elems.to_set().contains(gs[g][j]));
        assert(tied_cubes(n, ps).contains(gs[g][j]));
    }
    lemma_absorbed_all_count(cs, after, gs);
}

/// One more group taken after the others.
proof fn lemma_absorbed_step(before: Seq<Cube>, mid: Seq<Cube>, after: Seq<Cube>, gs: Seq<Seq<usize>>)
    requires
        gs.len() > 0,
        absorbed_all(before, mid, gs.drop_last()),
        absorbed_step(mid, after, gs.last()),
    ensures
        absorbed_all(before, after, gs),
{
    assert(absorbed_step(mid, after, gs.last()));
}

/// What absorbing comes to: `elems` are the cubes that the joins of the walk name, in the
/// order first named; `gs` groups them by what the joins tie, each group in that order;
/// and the groups taken in turn lead from `cs` to `after`.
pub open spec fn absorbing_outcome(cs: Seq<Cube>, gs: Seq<Seq<usize>>, elems: Seq<usize>, after: Seq<Cube>) -> bool {
    let n = cs.len() as int;
    let ps = walk_pairs(cs);
    &&& elems == touched_by(n, ps)
    &&& elems.to_set() == tied_cubes(n, ps)
    &&& is_partition(gs, elems, |a: int, b: int| tied(n, ps, a, b))
    &&& forall|h: int|
        0 <= h < gs.len() ==> #[trigger] gs[h] == elems.filter(|e: usize| tied(n, ps, e as int, gs[h][0] as int))
    &&& absorbed_all(cs, after, gs)
}

impl Collection {
    /// Each group in turn: if one colour absorbs the others, its cubes are linked into
    /// the first; if all three colours meet, its cubes are balanced.
    fn absorb_groups(&mut self, gs: &Vec<Vec<usize>>)
        requires
            forall|g: int, j: int| 0 <= g < gs@.len() && 0 <= j < gs@[g]@.len() ==> #[trigger] gs@[g]@[j] < old(self).cubes().len(),
            cells_near(old(self).cubes()),
        ensures
            absorbed_all(old(self).cubes(), final(self).cubes(), gs@.map_values(|g: Vec<usize>| g@)),
            final(self).frozen() == old(self).frozen(),
            final(self).cubes().len() == old(self).cubes().len(),
    {
        let ghost cs0 = self.cubes();
        let ghost gsv = gs@.map_values(|g: Vec<usize>| g@);
        let ghost f0 = self.frozen();
        let mut t: usize = 0;
        proof {
            assert(gsv.take(0) =~= Seq::<Seq<usize>>::empty());
        }
        while t < gs.len()
            invariant
                t <= gs@.len(),
                gsv == gs@.map_values(|g: Vec<usize>| g@),
                forall|g: int, j: int| 0 <= g < gs@.len() && 0 <= j < gs@[g]@.len() ==> #[trigger] gs@[g]@[j] < cs0.len(),
                self.cubes().len() == cs0.len(),
                cells_near(self.cubes()),
                self.frozen() == f0,
                absorbed_all(cs0, self.cubes(), gsv.take(t as int)),
            decreases gs@.len() - t,
        {
            let g = &gs[t];
            let ghost mid = self.cubes();
            let n = self.number_of_cubes();
            proof {
                assert forall|x: int| 0 <= x < g@.len() implies #[trigger] g@[x] < mid.len() by {
                    assert(gs@[t as int]@[x] < cs0.len());
                }
            }
            let mut arena = Arena::new(self);
            let mut i: usize = 0;
            while i < g.len()
                invariant
                    i <= g@.len(),
                    arena.cubes() == mid,
                    n == mid.len(),
                    arena.seen().len() == 3,
                    arena.seen()[0] == exists|x: int| 0 <= x < i && g@[x] < n && mid[#[trigger] g@[x] as int].kind == Kind::Red,
                    arena.seen()[1] == exists|x: int| 0 <= x < i && g@[x] < n && mid[#[trigger] g@[x] as int].kind == Kind::Blue,
                    arena.seen()[2] == exists|x: int| 0 <= x < i && g@[x] < n && mid[#[trigger] g@[x] as int].kind == Kind::Green,
                ensures
                    arena.cubes() == mid,
                    arena.seen().len() == 3,
                    arena_result(arena.seen()[0], arena.seen()[1], arena.seen()[2]) == group_result(mid, g@),
                decreases g@.len() - i,
            {
                let unseen = arena.input(g[i]);
                i = i + 1;
                if !unseen {
                    break;
                }
            }
            let result = arena.output();
            match result {
                ArenaResult::Have(kind) => {
                    proof {
                        lemma_gathered_near(mid, g@);
                        lemma_near_fits(gathered(mid, g@));
                    }
                    self.link_into_first(g.as_slice(), kind);
                    proof {
                        let after = self.cubes();
                        assert forall|k: int, i: int|
                            0 <= k < after.len() && 0 <= i < after[k].units@.len() implies near(#[trigger] after[k].units@[i].position) by {
                            if g@.len() > 0 && k == g@[0] {
                                assert(after[k].units@ == gathered(mid, g@));
                            } else if g@.contains(k as usize) {
                                assert(after[k].units@.len() == 0);
                            } else {
                                assert(after[k] == mid[k]);
                            }
                        }
                    }
                },
                ArenaResult::Draw => {
                    self.mark_balanced(g.as_slice());
                    proof {
                        let after = self.cubes();
                        assert(after =~= Seq::new(
                            mid.len(),
                            |k: int|
                                if g@.contains(k as usize) {
                                    with_balance(mid[k])
                                } else {
                                    mid[k]
                                },
                        ));
                        assert forall|k: int, i: int|
                            0 <= k < after.len() && 0 <= i < after[k].units@.len() implies near(#[trigger] after[k].units@[i].position) by {
                            assert(after[k].units == mid[k].units);
                        }
                    }
                },
                _ => {},
            }
            proof {
                assert(gsv.take(t + 1).drop_last() =~= gsv.take(t as int));
                assert(gsv.take(t + 1).last() == g@);
                assert(absorbed_step(mid, self.cubes(), g@));
                lemma_absorbed_step(cs0, mid, self.cubes(), gsv.take(t + 1));
            }
            t = t + 1;
        }
        proof {
            assert(gsv.take(gs@.len() as int) =~= gsv);
        }
    }

    /// Lets the restless cubes absorb each other: walking over them breadth first, each
    /// cube is joined with the cubes it first reaches when they may merge; then each group
    /// so tied in which one colour absorbs the others is linked into its first cube, and
    /// each group in which all three colours meet is balanced.
    pub fn absorb(&mut self)
        requires
            outlined(old(self).cubes()),
            cells_near(old(self).cubes()),
        ensures
            final(self).frozen() == old(self).frozen(),
            final(self).cubes().len() == old(self).cubes().len(),
            exists|gs: Seq<Seq<usize>>, elems: Seq<usize>|
                #[trigger] absorbing_outcome(old(self).cubes(), gs, elems, final(self).cubes()),
    {
        let ghost cs = self.cubes();
        let n = self.number_of_cubes();
        let (mut conn, Ghost(pairs)) = self.walk_exec();
        let ghost conn0 = conn;
        let groups = conn.groups();
        let ghost gsv = groups@.map_values(|g: Vec<usize>| g@);
        let ghost elems = conn0.touched();
        proof {
            assert forall|x: int| 0 <= x < elems.len() implies #[trigger] elems[x] < n by {
                assert(elems.contains(elems[x]));
                assert(tied_cubes(n as int, pairs).contains(elems[x]));
            }
            lemma_partition_same(gsv, elems, |a: int, b: int| conn0.same(a, b), |a: int, b: int| tied(n as int, pairs, a, b), n as int);
            assert forall|g: int, j: int| 0 <= g < groups@.len() && 0 <= j < groups@[g]@.len() implies #[trigger] groups@[g]@[j] < cs.len() by {
                assert(gsv[g] == groups@[g]@);
                assert(elems.contains(gsv[g][j]));
            }
        }
        proof {
            assert forall|h: int| 0 <= h < gsv.len() implies #[trigger] gsv[h] == elems.filter(
                |e: usize| tied(n as int, pairs, e as int, gsv[h][0] as int),
            ) by {
                assert(gsv[h] == groups@[h]@);
                let g0 = gsv[h][0];
                assert(elems.contains(g0));
                assert(g0 < n);
                lemma_filter_agree(
                    elems,
                    |e: usize| conn0.same(e as int, g0 as int),
                    |e: usize| tied(n as int, pairs, e as int, g0 as int),
                );
            }
        }
        self.absorb_groups(&groups);
        proof {
            assert(elems.to_set() =~= tied_cubes(n as int, pairs));
            assert(absorbing_outcome(cs, gsv, elems, self.cubes()));
        }
    }
}

} // verus!
