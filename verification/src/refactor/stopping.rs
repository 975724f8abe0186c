use vstd::prelude::*;

use super::cube::{
    anchor_of, arena_result, fits, gathered, kind_slot, lbtr, linked_into, offsets_fit, shift_fits,
    shifted, side_index, with_constraint, Arena, ArenaResult, Collection, Cube, Moving, Unit,
};
use super::cube::{cell_count, lemma_cells_among_lengths, lemma_linked_count};
use super::kind::{spec_linkable, Kind};
use super::lookup::Faction;
use super::movement::Constraint;
use crate::common::forest::{is_partition, lemma_filter_agree, touch_seq};
use crate::common::point::Point;
use crate::rule::lookup::{
    lemma_join_tracked, tied, tied_cubes, touched_by, tracks, Digraph, DisjointSet,
};

verus! {

/// The cube has cells and was told where to go.
pub open spec fn moving(c: Cube) -> bool {
    c.spec_alive() && c.movement is Some
}

/// The cube has a cell at `p`.
pub open spec fn holds_cell(c: Cube, p: Point) -> bool {
    exists|i: int| 0 <= i < c.units@.len() && (#[trigger] c.units@[i]).position == p
}

/// The last live cube of `cs` with a cell at `p`.
pub open spec fn owner(cs: Seq<Cube>, p: Point) -> Option<usize>
    decreases cs.len(),
{
    if cs.len() == 0 {
        None
    } else if cs.last().spec_alive() && holds_cell(cs.last(), p) {
        Some((cs.len() - 1) as usize)
    } else {
        owner(cs.drop_last(), p)
    }
}

/// The cells in front of a moving cube.
pub open spec fn front(c: Cube) -> Seq<Point> {
    shifted(anchor_of(c.units@), c.outlines.sides(side_index(c.movement->0)))
}

/// The cubes met in front of cube `k`.
pub open spec fn ahead(cs: Seq<Cube>, k: int) -> Set<usize> {
    Set::new(
        |j: usize|
            exists|i: int| 0 <= i < front(cs[k]).len() && owner(cs, #[trigger] front(cs[k])[i]) == Some(j),
    )
}

/// A frozen cell stands in front of cube `k`.
pub open spec fn walled(col: Collection, k: int) -> bool {
    exists|i: int|
        0 <= i < front(col.cubes()[k]).len() && col.blocks(#[trigger] front(col.cubes()[k])[i])
}

/// Cube `j` goes another way than cube `k`.
pub open spec fn crosses(cs: Seq<Cube>, k: int, j: usize) -> bool {
    cs[j as int].movement != cs[k].movement
}

/// A cube going another way, that cube `k` cannot link with, stands in front of it.
pub open spec fn clashes(cs: Seq<Cube>, k: int) -> bool {
    exists|j: usize|
        #[trigger] ahead(cs, k).contains(j) && crosses(cs, k, j) && !spec_linkable(
            cs[k].kind,
            cs[j as int].kind,
        )
}

/// The cubes that cube `k`, moving with nothing else in its way, links with: those in
/// front of it going another way, of its colour.
pub open spec fn links(col: Collection, k: int) -> Set<usize> {
    let cs = col.cubes();
    if !moving(cs[k]) || walled(col, k) || clashes(cs, k) {
        Set::empty()
    } else {
        ahead(cs, k).filter(
            |j: usize| crosses(cs, k, j) && spec_linkable(cs[k].kind, cs[j as int].kind),
        )
    }
}

/// Moving cube `k` is stopped where it stands: a frozen cell, a cube it clashes with or a
/// cube it links with is in its way.
pub open spec fn halted(col: Collection, k: int) -> bool {
    let cs = col.cubes();
    moving(cs[k]) && (walled(col, k) || clashes(cs, k) || exists|j: usize|
        #[trigger] links(col, k).contains(j))
}

/// The cubes stopped first: the halted ones and those they link with.
pub open spec fn first_stopped(col: Collection) -> Set<usize> {
    Set::new(
        |j: usize|
            (j < col.cubes().len() && halted(col, j as int)) || exists|k: int|
                0 <= k < col.cubes().len() && #[trigger] links(col, k).contains(j),
    )
}

/// Cube `k` follows cube `j`: it is moving and not halted, and `j` is in front of it
/// going its way.
pub open spec fn follows(col: Collection, j: usize, k: usize) -> bool {
    let cs = col.cubes();
    &&& k < cs.len()
    &&& moving(cs[k as int])
    &&& !halted(col, k as int)
    &&& ahead(cs, k as int).contains(j)
    &&& !crosses(cs, k as int, j)
}

/// For each cube that some cube follows, its followers.
pub open spec fn followers(col: Collection) -> Map<usize, Set<usize>> {
    Map::new(
        |j: usize| exists|k: usize| #[trigger] follows(col, j, k),
        |j: usize| Set::new(|k: usize| follows(col, j, k)),
    )
}

/// `path` starts at a cube stopped first and each next cube follows the one before.
pub open spec fn stop_path(col: Collection, path: Seq<usize>) -> bool {
    &&& path.len() > 0
    &&& first_stopped(col).contains(path[0])
    &&& forall|i: int| 0 <= i < path.len() - 1 ==> follows(col, #[trigger] path[i], path[i + 1])
}

/// The cubes that end up stopped: those at the end of a stop path.
pub open spec fn stopped(col: Collection) -> Set<usize> {
    Set::new(|k: usize| exists|p: Seq<usize>| #[trigger] stop_path(col, p) && p.last() == k)
}

/// The pairs joined: each cube with those it links with, and each stopped cube with its
/// followers of its colour.
pub open spec fn joins(col: Collection) -> Set<(usize, usize)> {
    let cs = col.cubes();
    Set::new(
        |e: (usize, usize)|
            (e.0 < cs.len() && links(col, e.0 as int).contains(e.1)) || (stopped(col).contains(e.0)
                && follows(col, e.0, e.1) && spec_linkable(cs[e.0 as int].kind, cs[e.1 as int].kind)),
    )
}

/// The colour a group of cubes comes to.
pub open spec fn group_result(cs: Seq<Cube>, g: Seq<usize>) -> ArenaResult {
    arena_result(
        exists|i: int| 0 <= i < g.len() && g[i] < cs.len() && cs[#[trigger] g[i] as int].kind == Kind::Red,
        exists|i: int| 0 <= i < g.len() && g[i] < cs.len() && cs[#[trigger] g[i] as int].kind == Kind::Blue,
        exists|i: int| 0 <= i < g.len() && g[i] < cs.len() && cs[#[trigger] g[i] as int].kind == Kind::Green,
    )
}

/// One group on board `before`: if it comes to a colour alone, its cubes are linked into
/// the first with that colour; otherwise nothing changes.
pub open spec fn step_linked(before: Seq<Cube>, after: Seq<Cube>, g: Seq<usize>) -> bool {
    match group_result(before, g) {
        ArenaResult::Pure(kind) => linked_into(before, after, g, kind),
        _ => after == before,
    }
}

/// The groups of `gs` taken in turn, as by `step_linked`, lead from `before` to `after`.
pub open spec fn pure_linked(before: Seq<Cube>, after: Seq<Cube>, gs: Seq<Seq<usize>>) -> bool
    decreases gs.len(),
{
    if gs.len() == 0 {
        after == before
    } else {
        exists|mid: Seq<Cube>|
            pure_linked(before, mid, gs.drop_last()) && #[trigger] step_linked(mid, after, gs.last())
    }
}

/// One more group taken after the others.
proof fn lemma_pure_linked_step(before: Seq<Cube>, mid: Seq<Cube>, after: Seq<Cube>, gs: Seq<Seq<usize>>)
    requires
        gs.len() > 0,
        pure_linked(before, mid, gs.drop_last()),
        step_linked(mid, after, gs.last()),
    ensures
        pure_linked(before, after, gs),
{
    assert(step_linked(mid, after, gs.last()));
}

/// `cs` with the cubes of `s` stopped.
pub open spec fn with_stops(cs: Seq<Cube>, s: Set<usize>) -> Seq<Cube> {
    Seq::new(
        cs.len(),
        |k: int|
            if s.contains(k as usize) {
                with_constraint(cs[k], Constraint::Stop)
            } else {
                cs[k]
            },
    )
}

/// What stopping comes to: the pairs `ps` are the joins, in some order; `elems` are the
/// cubes they name, in the order first named; `gs` groups them by what the pairs tie,
/// each group in that order; each group in turn is linked if it comes to one colour; and
/// then the stopped cubes are marked so.
pub open spec fn stopping_outcome(
    col: Collection,
    ps: Seq<(usize, usize)>,
    gs: Seq<Seq<usize>>,
    elems: Seq<usize>,
    mid: Seq<Cube>,
    after: Seq<Cube>,
) -> bool {
    let n = col.cubes().len() as int;
    &&& ps.to_set() == joins(col)
    &&& elems == touched_by(n, ps)
    &&& elems.to_set() == tied_cubes(n, ps)
    &&& is_partition(gs, elems, |a: int, b: int| tied(n, ps, a, b))
    &&& forall|h: int|
        0 <= h < gs.len() ==> #[trigger] gs[h] == elems.filter(|e: usize| tied(n, ps, e as int, gs[h][0] as int))
    &&& pure_linked(col.cubes(), mid, gs)
    &&& after == with_stops(mid, stopped(col))
}

/// Both coordinates are within half the range of an `i32`.
pub open spec fn near(p: Point) -> bool {
    -0x3fff_ffff <= p.x <= 0x3fff_ffff && -0x3fff_ffff <= p.y <= 0x3fff_ffff
}

/// Every cell of every cube is near the origin.
pub open spec fn cells_near(cs: Seq<Cube>) -> bool {
    forall|k: int, i: int|
        0 <= k < cs.len() && 0 <= i < cs[k].units@.len() ==> near(#[trigger] cs[k].units@[i].position)
}

/// Every cube's outlines are well formed and fit around its first cell.
pub open spec fn outlined(cs: Seq<Cube>) -> bool {
    forall|k: int|
        0 <= k < cs.len() ==> (#[trigger] cs[k]).outlines.wf() && shift_fits(
            anchor_of(cs[k].units@),
            cs[k].outlines.offsets(),
        )
}

impl Collection {
    /// For each cell of a live cube, the last such cube.
    fn owner_table(&self) -> (r: Faction)
        ensures
            forall|p: Point| #[trigger] r.owner_of(p) == owner(self.cubes(), p),
    {
        let n = self.number_of_cubes();
        let ghost cs = self.cubes();
        let mut f = Faction::with_capacity(n);
        let mut k: usize = 0;
        while k < n
            invariant
                k <= n,
                n == cs.len(),
                cs == self.cubes(),
                forall|p: Point| #[trigger] f.owner_of(p) == owner(cs.take(k as int), p),
            decreases n - k,
        {
            let c = self.cube_at(k);
            proof {
                assert(cs.take(k + 1).drop_last() =~= cs.take(k as int));
                assert(cs.take(k + 1).last() == cs[k as int]);
            }
            if c.alive() {
                let mut u: usize = 0;
                while u < c.units.len()
                    invariant
                        u <= c.units@.len(),
                        *c == cs[k as int],
                        forall|p: Point|
                            #[trigger] f.owner_of(p) == if exists|i: int|
                                0 <= i < u && (#[trigger] c.units@[i]).position == p {
                                Some(k)
                            } else {
                                owner(cs.take(k as int), p)
                            },
                    decreases c.units@.len() - u,
                {
                    let ghost before = f;
                    f.put(c.units[u].position, k);
                    proof {
                        assert forall|p: Point| #[trigger] f.owner_of(p) == if exists|i: int|
                            0 <= i < u + 1 && (#[trigger] c.units@[i]).position == p {
                            Some(k)
                        } else {
                            owner(cs.take(k as int), p)
                        } by {
                            if p == c.units@[u as int].position {
                                assert(0 <= u < u + 1 && c.units@[u as int].position == p);
                            } else {
                                if exists|i: int| 0 <= i < u + 1 && (#[trigger] c.units@[i]).position == p {
                                    let i = choose|i: int| 0 <= i < u + 1 && (#[trigger] c.units@[i]).position == p;
                                    assert(i < u);
                                }
                            }
                        }
                    }
                    u = u + 1;
                }
                proof {
                    assert forall|p: Point| #[trigger] f.owner_of(p) == owner(cs.take(k + 1), p) by {
                        if holds_cell(cs[k as int], p) {
                            let i = choose|i: int| 0 <= i < c.units@.len() && (#[trigger] c.units@[i]).position == p;
                            assert(0 <= i < c.units@.len() && c.units@[i].position == p);
                        }
                    }
                }
            }
            k = k + 1;
        }
        proof {
            assert(cs.take(n as int) =~= cs);
        }
        f
    }
}

/// An owner is a place of the sequence.
pub proof fn lemma_owner_below(cs: Seq<Cube>, p: Point)
    ensures
        owner(cs, p) matches Some(j) ==> j < cs.len(),
    decreases cs.len(),
{
    if cs.len() > 0 && !(cs.last().spec_alive() && holds_cell(cs.last(), p)) {
        lemma_owner_below(cs.drop_last(), p);
    }
}

impl Collection {
    /// The owners of the points of `front`, each once.
    fn owners_of(&self, f: &Faction, front: &Vec<Point>) -> (r: Vec<usize>)
        requires
            forall|p: Point| #[trigger] f.owner_of(p) == owner(self.cubes(), p),
        ensures
            r@.no_duplicates(),
            forall|j: usize|
                #[trigger] r@.contains(j) <==> exists|i: int|
                    0 <= i < front@.len() && owner(self.cubes(), #[trigger] front@[i]) == Some(j),
            forall|t: int| 0 <= t < r@.len() ==> #[trigger] r@[t] < self.cubes().len(),
    {
        let mut r: Vec<usize> = Vec::new();
        let mut i: usize = 0;
        while i < front.len()
            invariant
                i <= front@.len(),
                forall|p: Point| #[trigger] f.owner_of(p) == owner(self.cubes(), p),
                r@.no_duplicates(),
                forall|j: usize|
                    #[trigger] r@.contains(j) <==> exists|x: int|
                        0 <= x < i && owner(self.cubes(), #[trigger] front@[x]) == Some(j),
                forall|t: int| 0 <= t < r@.len() ==> #[trigger] r@[t] < self.cubes().len(),
            decreases front@.len() - i,
        {
            proof {
                lemma_owner_below(self.cubes(), front@[i as int]);
            }
            match f.get(front[i]) {
                Some(j) => {
                    let mut seen = false;
                    let mut t: usize = 0;
                    while t < r.len()
                        invariant
                            t <= r@.len(),
                            seen <==> r@.take(t as int).contains(j),
                        decreases r@.len() - t,
                    {
                        proof {
                            r@.lemma_take_succ_push(t as int);
                            vstd::seq_lib::lemma_seq_contains_after_push(r@.take(t as int), r@[t as int], j);
                        }
                        if r[t] == j {
                            seen = true;
                        }
                        t = t + 1;
                    }
                    proof {
                        assert(r@.take(r@.len() as int) =~= r@);
                    }
                    if !seen {
                        let ghost before = r@;
                        r.push(j);
                        proof {
                            assert forall|a: int, b: int|
                                0 <= a < r@.len() && 0 <= b < r@.len() && a != b implies r@[a] != r@[b] by {
                                if a == before.len() as int {
                                    assert(before[b] == r@[b]);
                                }
                                if b == before.len() as int {
                                    assert(before[a] == r@[a]);
                                }
                            }
                            assert forall|x: usize|
                                #[trigger] r@.contains(x) <==> exists|y: int|
                                    0 <= y < i + 1 && owner(self.cubes(), #[trigger] front@[y]) == Some(x) by {
                                vstd::seq_lib::lemma_seq_contains_after_push(before, j, x);
                                if x == j {
                                    assert(owner(self.cubes(), front@[i as int]) == Some(x));
                                }
                                if exists|y: int| 0 <= y < i + 1 && owner(self.cubes(), #[trigger] front@[y]) == Some(x) {
                                    let y = choose|y: int| 0 <= y < i + 1 && owner(self.cubes(), #[trigger] front@[y]) == Some(x);
                                    if y < i {
                                        assert(before.contains(x));
                                    }
                                }
                            }
                        }
                    } else {
                        proof {
                            assert forall|x: usize|
                                #[trigger] r@.contains(x) <==> exists|y: int|
                                    0 <= y < i + 1 && owner(self.cubes(), #[trigger] front@[y]) == Some(x) by {
                                if exists|y: int| 0 <= y < i + 1 && owner(self.cubes(), #[trigger] front@[y]) == Some(x) {
                                    let y = choose|y: int| 0 <= y < i + 1 && owner(self.cubes(), #[trigger] front@[y]) == Some(x);
                                    if y == i {
                                        assert(r@.contains(j));
                                    }
                                }
                            }
                        }
                    }
                },
                None => {
                    proof {
                        assert forall|x: usize|
                            #[trigger] r@.contains(x) <==> exists|y: int|
                                0 <= y < i + 1 && owner(self.cubes(), #[trigger] front@[y]) == Some(x) by {
                            if exists|y: int| 0 <= y < i + 1 && owner(self.cubes(), #[trigger] front@[y]) == Some(x) {
                                let y = choose|y: int| 0 <= y < i + 1 && owner(self.cubes(), #[trigger] front@[y]) == Some(x);
                                assert(y < i);
                            }
                        }
                    }
                },
            }
            i = i + 1;
        }
        r
    }

    /// A frozen cell takes one of the points of `front`.
    fn walled_front(&self, front: &Vec<Point>) -> (r: bool)
        requires
            self.wf(),
        ensures
            r == exists|i: int| 0 <= i < front@.len() && self.blocks(#[trigger] front@[i]),
    {
        let mut i: usize = 0;
        while i < front.len()
            invariant
                self.wf(),
                i <= front@.len(),
                forall|x: int| 0 <= x < i ==> !self.blocks(#[trigger] front@[x]),
            decreases front@.len() - i,
        {
            if self.blocked_at(front[i]) {
                return true;
            }
            i = i + 1;
        }
        false
    }
}

/// Cube `j` is stopped first by one of the cubes before `k`.
spec fn first_upto(col: Collection, k: int, j: usize) -> bool {
    (j < k && halted(col, j as int)) || exists|x: int| 0 <= x < k && #[trigger] links(col, x).contains(j)
}

/// The pair `e` joins a cube before `k` with one it links with.
spec fn links_upto(col: Collection, k: int, e: (usize, usize)) -> bool {
    e.0 < k && links(col, e.0 as int).contains(e.1)
}

/// `g` holds the follow edges into the cubes before `k`.
spec fn graph_upto(col: Collection, g: Map<usize, Set<usize>>, k: int) -> bool {
    &&& forall|j: usize| #[trigger] g.contains_key(j) <==> exists|x: usize| x < k && #[trigger] follows(col, j, x)
    &&& forall|j: usize, x: usize|
        #[trigger] g.contains_key(j) ==> (#[trigger] g[j].contains(x) <==> x < k && follows(col, j, x))
}

impl Collection {
    /// Goes over the moving cubes in order: each one walled, clashing or linking is
    /// stopped first, with the cubes it links with, which it is joined to; each other one
    /// becomes a follower of the cubes in front of it going its way.
    fn stop_first(&self, f: &Faction) -> (r: (Vec<usize>, DisjointSet, Digraph, Ghost<Seq<(usize, usize)>>))
        requires
            self.wf(),
            outlined(self.cubes()),
            forall|p: Point| #[trigger] f.owner_of(p) == owner(self.cubes(), p),
        ensures
            forall|j: usize| #[trigger] r.0@.contains(j) <==> first_stopped(*self).contains(j),
            forall|t: int| 0 <= t < r.0@.len() ==> #[trigger] r.0@[t] < self.cubes().len(),
            tracks(r.1, self.cubes().len() as int, r.3@),
            forall|e: (usize, usize)| #[trigger] r.3@.contains(e) <==> (e.0 < self.cubes().len() && links(*self, e.0 as int).contains(e.1)),
            r.2.wf(),
            graph_upto(*self, r.2@, self.cubes().len() as int),
    {
        let n = self.number_of_cubes();
        let ghost col = *self;
        let ghost cs = self.cubes();
        let mut determined: Vec<usize> = Vec::new();
        let mut conn = DisjointSet::new(n);
        let mut succ = Digraph::with_capacity(n);
        let ghost mut ps: Seq<(usize, usize)> = Seq::empty();
        proof {
            assert forall|a: int, b: int| 0 <= a < n && 0 <= b < n implies (#[trigger] conn.same(a, b) <==> tied(n as int, ps, a, b)) by {}
            assert forall|x: usize| #[trigger] conn.touched().contains(x) <==> tied_cubes(n as int, ps).contains(x) by {}
        }
        let mut k: usize = 0;
        while k < n
            invariant
                k <= n,
                n == cs.len(),
                cs == self.cubes(),
                col == *self,
                self.wf(),
                outlined(cs),
                forall|p: Point| #[trigger] f.owner_of(p) == owner(cs, p),
                forall|j: usize| #[trigger] determined@.contains(j) <==> first_upto(col, k as int, j),
                forall|t: int| 0 <= t < determined@.len() ==> #[trigger] determined@[t] < n,
                tracks(conn, n as int, ps),
                forall|e: (usize, usize)| #[trigger] ps.contains(e) <==> links_upto(col, k as int, e),
                succ.wf(),
                graph_upto(col, succ@, k as int),
            decreases n - k,
        {
            let c = self.cube_at(k);
            match Moving::new(c) {
                None => {
                    proof {
                        assert(!moving(cs[k as int]));
                        assert forall|j: usize| #[trigger] determined@.contains(j) <==> first_upto(col, k + 1, j) by {
                            if first_upto(col, k + 1, j) && !(j < k + 1 && halted(col, j as int)) {
                                let x = choose|x: int| 0 <= x < k + 1 && #[trigger] links(col, x).contains(j);
                                assert(x < k);
                            }
                        }
                        assert forall|e: (usize, usize)| #[trigger] ps.contains(e) <==> links_upto(col, k + 1, e) by {}
                        assert forall|j: usize| #[trigger] succ@.contains_key(j) <==> exists|x: usize| x < k + 1 && #[trigger] follows(col, j, x) by {
                            if exists|x: usize| x < k + 1 && #[trigger] follows(col, j, x) {
                                let x = choose|x: usize| x < k + 1 && #[trigger] follows(col, j, x);
                                assert(x < k);
                            }
                        }
                    }
                },
                Some(_) => {
                    let ghost qs = ps;
                    let Ghost(next) = self.settle(f, k, &mut determined, &mut conn, &mut succ, Ghost(qs));
                    proof {
                        ps = next;
                    }
                },
            }
            k = k + 1;
        }
        (determined, conn, succ, Ghost(ps))
    }
}

impl Collection {
    /// Settles moving cube `k` as `stop_first` does, given the cubes before it settled.
    fn settle(
        &self,
        f: &Faction,
        k: usize,
        determined: &mut Vec<usize>,
        conn: &mut DisjointSet,
        succ: &mut Digraph,
        Ghost(ps): Ghost<Seq<(usize, usize)>>,
    ) -> (r: Ghost<Seq<(usize, usize)>>)
        requires
            k < self.cubes().len(),
            moving(self.cubes()[k as int]),
            self.wf(),
            outlined(self.cubes()),
            forall|p: Point| #[trigger] f.owner_of(p) == owner(self.cubes(), p),
            forall|j: usize| #[trigger] old(determined)@.contains(j) <==> first_upto(*self, k as int, j),
            forall|t: int| 0 <= t < old(determined)@.len() ==> #[trigger] old(determined)@[t] < self.cubes().len(),
            tracks(*old(conn), self.cubes().len() as int, ps),
            forall|e: (usize, usize)| #[trigger] ps.contains(e) <==> links_upto(*self, k as int, e),
            old(succ).wf(),
            graph_upto(*self, old(succ)@, k as int),
        ensures
            forall|j: usize| #[trigger] final(determined)@.contains(j) <==> first_upto(*self, k + 1, j),
            forall|t: int| 0 <= t < final(determined)@.len() ==> #[trigger] final(determined)@[t] < self.cubes().len(),
            tracks(*final(conn), self.cubes().len() as int, r@),
            forall|e: (usize, usize)| #[trigger] r@.contains(e) <==> links_upto(*self, k + 1, e),
            final(succ).wf(),
            graph_upto(*self, final(succ)@, k + 1),
    {
        let ghost col = *self;
        let ghost cs = self.cubes();
        let n = self.number_of_cubes();
        let ghost mut ps = ps;
        let c = self.cube_at(k);
        let ghost d0 = determined@;
        let ghost ps0 = ps;
        let ghost g0 = succ@;
        let mv = match Moving::new(c) {
            Some(mv) => mv,
            None => {
                assert(false);
                return Ghost(ps);
            },
        };
        proof {
            assert(cs[k as int].outlines.wf());
        }
        let line = mv.frontlines();
        assert(line@ == front(cs[k as int]));
        let mut blocked = self.walled_front(&line);
        assert(blocked == walled(col, k as int));
        let ghost w = blocked;
        // whether the cube links with some cube in front of it
        let mut linking = false;
        let ghost mut nbs: Seq<usize> = Seq::empty();
        let ghost mut cl = false;
        if !blocked {
            let nb = self.owners_of(f, &line);
            assert(forall|j: usize| #[trigger] nb@.contains(j) <==> ahead(cs, k as int).contains(j));
            let mut t: usize = 0;
            while t < nb.len()
                invariant
                    t <= nb@.len(),
                    n == cs.len(),
                    cs == self.cubes(),
                    *c == cs[k as int],
                    forall|x: int| 0 <= x < nb@.len() ==> #[trigger] nb@[x] < n,
                    blocked <==> exists|x: int|
                        0 <= x < t && crosses(cs, k as int, #[trigger] nb@[x]) && !spec_linkable(
                            cs[k as int].kind,
                            cs[nb@[x] as int].kind,
                        ),
                decreases nb@.len() - t,
            {
                let o = self.cube_at(nb[t]);
                if !c.same_movement(o) && !c.linkable(o) {
                    blocked = true;
                }
                t = t + 1;
            }
            proof {
                if clashes(cs, k as int) {
                    let j = choose|j: usize|
                        #[trigger] ahead(cs, k as int).contains(j) && crosses(cs, k as int, j) && !spec_linkable(
                            cs[k as int].kind,
                            cs[j as int].kind,
                        );
                    assert(nb@.contains(j));
                    let x = choose|x: int| 0 <= x < nb@.len() && nb@[x] == j;
                    assert(crosses(cs, k as int, nb@[x]));
                }
                if blocked {
                    let x = choose|x: int|
                        0 <= x < nb@.len() && crosses(cs, k as int, #[trigger] nb@[x]) && !spec_linkable(
                            cs[k as int].kind,
                            cs[nb@[x] as int].kind,
                        );
                    assert(nb@.contains(nb@[x]));
                    assert(ahead(cs, k as int).contains(nb@[x]));
                }
                assert(blocked == clashes(cs, k as int));
                cl = blocked;
                nbs = nb@;
            }
            if !blocked {
                let mut t: usize = 0;
                while t < nb.len()
                    invariant
                        t <= nb@.len(),
                        n == cs.len(),
                        cs == self.cubes(),
                        col == *self,
                        *c == cs[k as int],
                        k < n,
                        forall|x: int| 0 <= x < nb@.len() ==> #[trigger] nb@[x] < n,
                        linking <==> exists|x: int|
                            0 <= x < t && crosses(cs, k as int, #[trigger] nb@[x]) && spec_linkable(
                                cs[k as int].kind,
                                cs[nb@[x] as int].kind,
                            ),
                        forall|j: usize|
                            #[trigger] determined@.contains(j) <==> (d0.contains(j) || exists|x: int|
                                0 <= x < t && #[trigger] nb@[x] == j && crosses(cs, k as int, j) && spec_linkable(
                                    cs[k as int].kind,
                                    cs[j as int].kind,
                                )),
                        forall|x: int| 0 <= x < determined@.len() ==> #[trigger] determined@[x] < n,
                        tracks(*conn, n as int, ps),
                        forall|e: (usize, usize)|
                            #[trigger] ps.contains(e) <==> (ps0.contains(e) || (e.0 == k && exists|x: int|
                                0 <= x < t && #[trigger] nb@[x] == e.1 && crosses(cs, k as int, e.1)
                                    && spec_linkable(cs[k as int].kind, cs[e.1 as int].kind))),
                    decreases nb@.len() - t,
                {
                    let j = nb[t];
                    let o = self.cube_at(j);
                    let ghost dprev = determined@;
                    let ghost pprev = ps;
                    if !c.same_movement(o) && c.linkable(o) {
                        linking = true;
                        determined.push(j);
                        let ghost before = *conn;
                        conn.join(k, j);
                        proof {
                            lemma_join_tracked(before, *conn, n as int, ps, k, j);
                            ps = ps.push((k, j));
                        }
                    }
                    proof {
                        assert forall|y: usize|
                            #[trigger] determined@.contains(y) <==> (d0.contains(y) || exists|x: int|
                                0 <= x < t + 1 && #[trigger] nb@[x] == y && crosses(cs, k as int, y) && spec_linkable(
                                    cs[k as int].kind,
                                    cs[y as int].kind,
                                )) by {
                            if exists|x: int|
                                0 <= x < t + 1 && #[trigger] nb@[x] == y && crosses(cs, k as int, y) && spec_linkable(
                                    cs[k as int].kind,
                                    cs[y as int].kind,
                                ) {
                                let x = choose|x: int|
                                    0 <= x < t + 1 && #[trigger] nb@[x] == y && crosses(cs, k as int, y) && spec_linkable(
                                        cs[k as int].kind,
                                        cs[y as int].kind,
                                    );
                                if x == t {
                                    assert(determined@.last() == y);
                                }
                            }
                            if determined@.len() > dprev.len() {
                                vstd::seq_lib::lemma_seq_contains_after_push(dprev, j, y);
                            }
                        }
                        assert forall|e: (usize, usize)|
                            #[trigger] ps.contains(e) <==> (ps0.contains(e) || (e.0 == k && exists|x: int|
                                0 <= x < t + 1 && #[trigger] nb@[x] == e.1 && crosses(cs, k as int, e.1)
                                    && spec_linkable(cs[k as int].kind, cs[e.1 as int].kind))) by {
                            if e.0 == k && exists|x: int|
                                0 <= x < t + 1 && #[trigger] nb@[x] == e.1 && crosses(cs, k as int, e.1)
                                    && spec_linkable(cs[k as int].kind, cs[e.1 as int].kind) {
                                let x = choose|x: int|
                                    0 <= x < t + 1 && #[trigger] nb@[x] == e.1 && crosses(cs, k as int, e.1)
                                        && spec_linkable(cs[k as int].kind, cs[e.1 as int].kind);
                                if x == t {
                                    assert(ps.last() == e);
                                }
                            }
                            if ps.len() > pprev.len() {
                                vstd::seq_lib::lemma_seq_contains_after_push(pprev, (k, j), e);
                            }
                        }
                        assert forall|x: int| 0 <= x < determined@.len() implies #[trigger] determined@[x] < n by {
                            if x < dprev.len() {
                                assert(determined@[x] == dprev[x]);
                            }
                        }
                    }
                    t = t + 1;
                }
                if !linking {
                    let mut t: usize = 0;
                    while t < nb.len()
                        invariant
                            t <= nb@.len(),
                            n == cs.len(),
                            cs == self.cubes(),
                            *c == cs[k as int],
                            forall|x: int| 0 <= x < nb@.len() ==> #[trigger] nb@[x] < n,
                            succ.wf(),
                            forall|j: usize|
                                #[trigger] succ@.contains_key(j) <==> (g0.contains_key(j) || exists|x: int|
                                    0 <= x < t && #[trigger] nb@[x] == j && !crosses(cs, k as int, j)),
                            forall|j: usize, y: usize|
                                #[trigger] succ@.contains_key(j) ==> (#[trigger] succ@[j].contains(y) <==> ((
                                g0.contains_key(j) && g0[j].contains(y)) || (y == k && exists|x: int|
                                    0 <= x < t && #[trigger] nb@[x] == j && !crosses(cs, k as int, j)))),
                        decreases nb@.len() - t,
                    {
                        let j = nb[t];
                        let o = self.cube_at(j);
                        let ghost gprev = succ@;
                        if c.same_movement(o) {
                            succ.add(j, k);
                        }
                        proof {
                            assert forall|i: usize|
                                #[trigger] succ@.contains_key(i) <==> (g0.contains_key(i) || exists|x: int|
                                    0 <= x < t + 1 && #[trigger] nb@[x] == i && !crosses(cs, k as int, i)) by {
                                if exists|x: int| 0 <= x < t + 1 && #[trigger] nb@[x] == i && !crosses(cs, k as int, i) {
                                    let x = choose|x: int| 0 <= x < t + 1 && #[trigger] nb@[x] == i && !crosses(cs, k as int, i);
                                    if x < t {
                                        assert(gprev.contains_key(i));
                                    }
                                }
                            }
                            assert forall|i: usize, y: usize|
                                #[trigger] succ@.contains_key(i) implies (#[trigger] succ@[i].contains(y) <==> ((
                                g0.contains_key(i) && g0[i].contains(y)) || (y == k && exists|x: int|
                                    0 <= x < t + 1 && #[trigger] nb@[x] == i && !crosses(cs, k as int, i)))) by {
                                if y == k && exists|x: int| 0 <= x < t + 1 && #[trigger] nb@[x] == i && !crosses(cs, k as int, i) {
                                    let x = choose|x: int| 0 <= x < t + 1 && #[trigger] nb@[x] == i && !crosses(cs, k as int, i);
                                    if x < t {
                                        assert(gprev.contains_key(i));
                                        assert(gprev[i].contains(y));
                                    }
                                }
                                if gprev.contains_key(i) && gprev[i].contains(y) && !(i == j && c.movement == o.movement) {
                                    assert(succ@[i] == gprev[i]);
                                }
                            }
                        }
                        t = t + 1;
                    }
                }
            }
        }
        let ghost d1 = determined@;
        if blocked || linking {
            determined.push(k);
        }
        proof {
            assert(blocked == (w || (!w && cl)));
            assert forall|j: usize|
                #[trigger] links(col, k as int).contains(j) <==> (!w && !cl && nbs.contains(j) && crosses(cs, k as int, j)
                    && spec_linkable(cs[k as int].kind, cs[j as int].kind)) by {}
            assert(linking <==> exists|j: usize| #[trigger] links(col, k as int).contains(j)) by {
                if linking {
                    let x = choose|x: int|
                        0 <= x < nbs.len() && crosses(cs, k as int, #[trigger] nbs[x]) && spec_linkable(
                            cs[k as int].kind,
                            cs[nbs[x] as int].kind,
                        );
                    assert(nbs.contains(nbs[x]));
                    assert(links(col, k as int).contains(nbs[x]));
                }
                if exists|j: usize| #[trigger] links(col, k as int).contains(j) {
                    let j = choose|j: usize| #[trigger] links(col, k as int).contains(j);
                    let x = choose|x: int| 0 <= x < nbs.len() && nbs[x] == j;
                    assert(crosses(cs, k as int, nbs[x]));
                }
            }
            assert(halted(col, k as int) == (blocked || linking));
            assert forall|j: usize| #[trigger] d1.contains(j) <==> (d0.contains(j) || links(col, k as int).contains(j)) by {
                if !w && !cl {
                    if links(col, k as int).contains(j) {
                        let x = choose|x: int| 0 <= x < nbs.len() && nbs[x] == j;
                        assert(nbs[x] == j);
                    }
                }
            }
            assert forall|j: usize| #[trigger] determined@.contains(j) <==> first_upto(col, k + 1, j) by {
                if determined@.len() > d1.len() {
                    vstd::seq_lib::lemma_seq_contains_after_push(d1, k, j);
                }
                if first_upto(col, k + 1, j) && !(j < k + 1 && halted(col, j as int)) {
                    let x = choose|x: int| 0 <= x < k + 1 && #[trigger] links(col, x).contains(j);
                    if x < k {
                        assert(first_upto(col, k as int, j));
                    }
                }
                if links(col, k as int).contains(j) {
                    assert(0 <= k < k + 1 && links(col, k as int).contains(j));
                }
                if d0.contains(j) && !(j < k && halted(col, j as int)) {
                    let x = choose|x: int| 0 <= x < k && #[trigger] links(col, x).contains(j);
                    assert(0 <= x < k + 1 && links(col, x).contains(j));
                }
            }
            assert forall|x: int| 0 <= x < determined@.len() implies #[trigger] determined@[x] < n by {
                if x < d1.len() {
                    assert(determined@[x] == d1[x]);
                }
            }
            assert forall|e: (usize, usize)| #[trigger] ps.contains(e) <==> links_upto(col, k + 1, e) by {
                if !w && !cl && e.0 == k && links(col, k as int).contains(e.1) {
                    let x = choose|x: int| 0 <= x < nbs.len() && nbs[x] == e.1;
                    assert(nbs[x] == e.1);
                }
            }
            assert forall|j: usize| #[trigger] follows(col, j, k) <==> (!(blocked || linking) && nbs.contains(j) && !crosses(cs, k as int, j)) by {}
            assert forall|j: usize| #[trigger] succ@.contains_key(j) <==> exists|x: usize| x < k + 1 && #[trigger] follows(col, j, x) by {
                if exists|x: usize| x < k + 1 && #[trigger] follows(col, j, x) {
                    let x = choose|x: usize| x < k + 1 && #[trigger] follows(col, j, x);
                    if x < k {
                        assert(g0.contains_key(j));
                    }
                }
                if g0.contains_key(j) {
                    let x = choose|x: usize| x < k && #[trigger] follows(col, j, x);
                    assert(x < k + 1);
                }
                if !(blocked || linking) && nbs.contains(j) && !crosses(cs, k as int, j) {
                    let x = choose|x: int| 0 <= x < nbs.len() && nbs[x] == j;
                    assert(follows(col, j, k));
                }
            }
            assert forall|j: usize, y: usize|
                #[trigger] succ@.contains_key(j) implies (#[trigger] succ@[j].contains(y) <==> y < k + 1 && follows(col, j, y)) by {
                if !(blocked || linking) && nbs.contains(j) && !crosses(cs, k as int, j) {
                    let x = choose|x: int| 0 <= x < nbs.len() && nbs[x] == j;
                    assert(nbs[x] == j);
                }
            }
        }
        Ghost(ps)
    }
}

/// A stop path goes on through a follower of its last cube.
proof fn lemma_path_push(col: Collection, p: Seq<usize>, y: usize)
    requires
        stop_path(col, p),
        follows(col, p.last(), y),
    ensures
        stop_path(col, p.push(y)),
        p.push(y).last() == y,
{
    let q = p.push(y);
    assert forall|i: int| 0 <= i < q.len() - 1 implies follows(col, #[trigger] q[i], q[i + 1]) by {
        if i < p.len() - 1 {
            assert(q[i] == p[i] && q[i + 1] == p[i + 1]);
        } else {
            assert(q[i] == p.last());
        }
    }
}

/// The groups taken in turn, each linked if it comes to one colour, keep the number of
/// cubes and of cells.
proof fn lemma_pure_linked_count(before: Seq<Cube>, after: Seq<Cube>, gs: Seq<Seq<usize>>)
    requires
        pure_linked(before, after, gs),
        before.len() <= usize::MAX,
        forall|g: int, j: int| 0 <= g < gs.len() && 0 <= j < gs[g].len() ==> #[trigger] gs[g][j] < before.len(),
    ensures
        after.len() == before.len(),
        cell_count(after) == cell_count(before),
    decreases gs.len(),
{
    if gs.len() > 0 {
        let mid = choose|mid: Seq<Cube>|
            pure_linked(before, mid, gs.drop_last()) && #[trigger] step_linked(mid, after, gs.last());
        let rest = gs.drop_last();
        assert forall|g: int, j: int| 0 <= g < rest.len() && 0 <= j < rest[g].len() implies #[trigger] rest[g][j] < before.len() by {
            assert(rest[g] == gs[g]);
        }
        lemma_pure_linked_count(before, mid, rest);
        let g = gs.last();
        assert forall|n: int| 0 <= n < g.len() implies #[trigger] g[n] < mid.len() by {
            assert(gs[gs.len() - 1][n] < before.len());
        }
        match group_result(mid, g) {
            ArenaResult::Pure(kind) => {
                lemma_linked_count(mid, after, g, kind);
            },
            _ => {},
        }
    }
}

/// Stopping keeps the number of cubes and of cells: a stopped cube keeps its cells, and a
/// cube linked into another gives it its cells.
pub proof fn lemma_stopping_keeps_cells(
    col: Collection,
    ps: Seq<(usize, usize)>,
    gs: Seq<Seq<usize>>,
    elems: Seq<usize>,
    mid: Seq<Cube>,
    after: Seq<Cube>,
)
    requires
        col.cubes().len() <= usize::MAX,
        stopping_outcome(col, ps, gs, elems, mid, after),
    ensures
        after.len() == col.cubes().len(),
        cell_count(after) == cell_count(col.cubes()),
{
    let cs = col.cubes();
    let n = cs.len() as int;
    assert forall|g: int, j: int| 0 <= g < gs.len() && 0 <= j < gs[g].len() implies #[trigger] gs[g][j] < cs.len() by {
        assert(elems.contains(gs[g][j]));
        assert(elems.to_set().contains(gs[g][j]));
        assert(tied_cubes(n, ps).contains(gs[g][j]));
    }
    lemma_pure_linked_count(cs, mid, gs);
    lemma_cells_among_lengths(after, mid, after.len() as int, |k: int| true);
}

/// Stopping spreads: a cube following a stopped cube is stopped too, and every cube
/// stopped first is stopped.
pub proof fn lemma_stop_spreads(col: Collection, j: usize, k: usize)
    ensures
        stopped(col).contains(j) && follows(col, j, k) ==> stopped(col).contains(k),
        first_stopped(col).contains(j) ==> stopped(col).contains(j),
{
    if stopped(col).contains(j) && follows(col, j, k) {
        let p = choose|p: Seq<usize>| #[trigger] stop_path(col, p) && p.last() == j;
        lemma_path_push(col, p, k);
    }
    if first_stopped(col).contains(j) {
        assert(stop_path(col, seq![j]));
        assert(seq![j].last() == j);
    }
}

/// A set holding the cubes stopped first, and the followers of each of its cubes, holds
/// the end of every stop path.
proof fn lemma_path_end(col: Collection, s: Set<usize>, p: Seq<usize>)
    requires
        stop_path(col, p),
        forall|j: usize| #[trigger] first_stopped(col).contains(j) ==> s.contains(j),
        forall|x: usize, y: usize| s.contains(x) && #[trigger] follows(col, x, y) ==> s.contains(y),
    ensures
        s.contains(p.last()),
    decreases p.len(),
{
    if p.len() > 1 {
        let q = p.drop_last();
        assert forall|i: int| 0 <= i < q.len() - 1 implies follows(col, #[trigger] q[i], q[i + 1]) by {
            assert(q[i] == p[i] && q[i + 1] == p[i + 1]);
        }
        lemma_path_end(col, s, q);
        assert(follows(col, p[p.len() - 2], p[p.len() - 1]));
    }
}

/// Every cube ahead of another is a place of the board.
proof fn lemma_ahead_below(cs: Seq<Cube>, k: int, j: usize)
    requires
        ahead(cs, k).contains(j),
    ensures
        j < cs.len(),
{
    let i = choose|i: int| 0 <= i < front(cs[k]).len() && owner(cs, #[trigger] front(cs[k])[i]) == Some(j);
    lemma_owner_below(cs, front(cs[k])[i]);
}

/// Every stopped cube is a place of the board.
proof fn lemma_stopped_below(col: Collection, k: usize)
    requires
        stopped(col).contains(k),
    ensures
        k < col.cubes().len(),
{
    let p = choose|p: Seq<usize>| #[trigger] stop_path(col, p) && p.last() == k;
    if p.len() > 1 {
        assert(follows(col, p[p.len() - 2], p[p.len() - 1]));
    } else {
        let j = p[0];
        if !(j < col.cubes().len() && halted(col, j as int)) {
            let x = choose|x: int| 0 <= x < col.cubes().len() && #[trigger] links(col, x).contains(j);
            lemma_ahead_below(col.cubes(), x, j);
        }
    }
}

/// A sequence of different places below `n` is no longer than `n`.
pub(crate) proof fn lemma_unique_below(q: Seq<usize>, n: int)
    requires
        q.no_duplicates(),
        forall|x: int| 0 <= x < q.len() ==> #[trigger] q[x] < n,
        0 <= n,
    ensures
        q.len() <= n,
{
    let qi = q.map_values(|x: usize| x as int);
    assert(qi.no_duplicates()) by {
        assert forall|a: int, b: int| 0 <= a < qi.len() && 0 <= b < qi.len() && a != b implies qi[a] != qi[b] by {
            assert(q[a] != q[b]);
        }
    }
    qi.unique_seq_to_set();
    vstd::set_lib::lemma_int_range(0, n);
    assert(qi.to_set().subset_of(vstd::set_lib::set_int_range(0, n))) by {
        assert forall|v: int| qi.to_set().contains(v) implies vstd::set_lib::set_int_range(0, n).contains(v) by {
            let x = choose|x: int| 0 <= x < qi.len() && qi[x] == v;
            assert(q[x] < n);
        }
    }
    vstd::set_lib::lemma_len_subset(qi.to_set(), vstd::set_lib::set_int_range(0, n));
}

/// `queue` holds the visited cubes, each once and each stopped.
spec fn queued(col: Collection, visit: Seq<bool>, queue: Seq<usize>) -> bool {
    let n = col.cubes().len();
    &&& visit.len() == n
    &&& queue.no_duplicates()
    &&& forall|x: int| 0 <= x < queue.len() ==> #[trigger] queue[x] < n
    &&& forall|x: int| 0 <= x < n ==> (#[trigger] visit[x] <==> queue.contains(x as usize))
    &&& forall|x: int| 0 <= x < queue.len() ==> stopped(col).contains(#[trigger] queue[x])
}

/// The followers of the first `head` cubes of `queue` are visited.
spec fn done_upto(col: Collection, visit: Seq<bool>, queue: Seq<usize>, head: int) -> bool {
    forall|x: int, y: usize| 0 <= x < head && follows(col, #[trigger] queue[x], y) ==> #[trigger] visit[y as int]
}

/// `ps` holds the pairs of `ps1` and the joins of the first `head` cubes of `queue` with
/// their followers of their colour, and `ds` what they tie.
spec fn joined_upto(
    col: Collection,
    ds: DisjointSet,
    ps: Seq<(usize, usize)>,
    ps1: Seq<(usize, usize)>,
    queue: Seq<usize>,
    head: int,
) -> bool {
    let cs = col.cubes();
    &&& tracks(ds, cs.len() as int, ps)
    &&& forall|e: (usize, usize)|
        #[trigger] ps.contains(e) <==> (ps1.contains(e) || (queue.take(head).contains(e.0) && follows(col, e.0, e.1)
            && spec_linkable(cs[e.0 as int].kind, cs[e.1 as int].kind)))
}

/// Visiting a stopped cube not yet visited keeps the queue in order.
proof fn lemma_visit_push(col: Collection, vb: Seq<bool>, qb: Seq<usize>, child: usize)
    requires
        queued(col, vb, qb),
        child < col.cubes().len(),
        col.cubes().len() <= usize::MAX,
        !vb[child as int],
        stopped(col).contains(child),
    ensures
        queued(col, vb.update(child as int, true), qb.push(child)),
{
    let n = col.cubes().len();
    let v = vb.update(child as int, true);
    let q = qb.push(child);
    assert(!qb.contains(child));
    assert forall|a: int, b: int| 0 <= a < q.len() && 0 <= b < q.len() && a != b implies q[a] != q[b] by {
        if a == qb.len() as int {
            assert(qb[b] == q[b]);
        }
        if b == qb.len() as int {
            assert(qb[a] == q[a]);
        }
    }
    assert forall|x: int| 0 <= x < n implies (#[trigger] v[x] <==> q.contains(x as usize)) by {
        let u = x as usize;
        assert(u as int == x);
        vstd::seq_lib::lemma_seq_contains_after_push(qb, child, u);
        if x != child as int {
            assert(v[x] == vb[x]);
            assert(vb[x] <==> qb.contains(u));
            assert(u != child);
        } else {
            assert(v[x]);
            assert(q.contains(u));
        }
    }
    assert forall|x: int| 0 <= x < q.len() implies stopped(col).contains(#[trigger] q[x]) by {
        if x < qb.len() {
            assert(q[x] == qb[x]);
        }
    }
    assert forall|x: int| 0 <= x < q.len() implies #[trigger] q[x] < n by {
        if x < qb.len() {
            assert(q[x] == qb[x]);
        }
    }
}

impl Collection {
    /// The followers of `owner`, each once.
    fn followers_of(&self, succ: &Digraph, owner: usize) -> (r: Vec<usize>)
        requires
            succ.wf(),
            graph_upto(*self, succ@, self.cubes().len() as int),
        ensures
            r@.no_duplicates(),
            forall|y: usize| #[trigger] r@.contains(y) <==> follows(*self, owner, y),
            forall|x: int| 0 <= x < r@.len() ==> #[trigger] r@[x] < self.cubes().len(),
    {
        let r = succ.children(owner);
        proof {
            assert forall|y: usize| #[trigger] r@.contains(y) <==> follows(*self, owner, y) by {
                assert(r@.to_set().contains(y) == r@.contains(y));
                if follows(*self, owner, y) {
                    assert(succ@.contains_key(owner));
                }
            }
            assert forall|x: int| 0 <= x < r@.len() implies #[trigger] r@[x] < self.cubes().len() by {
                assert(r@.contains(r@[x]));
            }
        }
        r
    }

    /// Visits each of `children`, all followers of the stopped cube `owner`.
    fn visit_all(&self, owner: usize, children: &Vec<usize>, visit: &mut Vec<bool>, queue: &mut Vec<usize>)
        requires
            queued(*self, old(visit)@, old(queue)@),
            stopped(*self).contains(owner),
            forall|x: int| 0 <= x < children@.len() ==> follows(*self, owner, #[trigger] children@[x]),
        ensures
            queued(*self, final(visit)@, final(queue)@),
            final(queue)@.len() >= old(queue)@.len(),
            final(queue)@.take(old(queue)@.len() as int) == old(queue)@,
            forall|x: int| 0 <= x < old(visit)@.len() && old(visit)@[x] ==> #[trigger] final(visit)@[x],
            forall|x: int| 0 <= x < children@.len() ==> final(visit)@[#[trigger] children@[x] as int],
    {
        let ghost col = *self;
        let ghost n = self.cubes().len();
        let _ = self.number_of_cubes();
        let ghost q0 = queue@;
        let ghost v0 = visit@;
        let owner_path = Ghost(choose|p: Seq<usize>| #[trigger] stop_path(col, p) && p.last() == owner);
        let mut i: usize = 0;
        while i < children.len()
            invariant
                i <= children@.len(),
                col == *self,
                n == col.cubes().len(),
                n <= usize::MAX,
                stop_path(col, owner_path@) && owner_path@.last() == owner,
                forall|x: int| 0 <= x < children@.len() ==> follows(col, owner, #[trigger] children@[x]),
                queued(col, visit@, queue@),
                queue@.len() >= q0.len(),
                queue@.take(q0.len() as int) == q0,
                v0.len() == n,
                forall|x: int| 0 <= x < v0.len() && v0[x] ==> #[trigger] visit@[x],
                forall|x: int| 0 <= x < i ==> visit@[#[trigger] children@[x] as int],
            decreases children@.len() - i,
        {
            let child = children[i];
            assert(follows(col, owner, child));
            if !visit[child] {
                let ghost qb = queue@;
                let ghost vb = visit@;
                visit.set(child, true);
                queue.push(child);
                proof {
                    assert(visit@ == vb.update(child as int, true));
                    lemma_path_push(col, owner_path@, child);
                    lemma_visit_push(col, vb, qb, child);
                    assert(queue@.take(q0.len() as int) =~= qb.take(q0.len() as int));
                    assert forall|x: int| 0 <= x < v0.len() && v0[x] implies #[trigger] visit@[x] by {
                        if x != child as int {
                            assert(vb.update(child as int, true)[x] == vb[x]);
                        }
                    }
                }
            }
            i = i + 1;
        }
    }

    /// Joins `owner` with each of `children` of its colour.
    fn join_all(
        &self,
        owner: usize,
        children: &Vec<usize>,
        conn: &mut DisjointSet,
        Ghost(ps): Ghost<Seq<(usize, usize)>>,
    ) -> (r: Ghost<Seq<(usize, usize)>>)
        requires
            owner < self.cubes().len(),
            forall|x: int| 0 <= x < children@.len() ==> #[trigger] children@[x] < self.cubes().len(),
            tracks(*old(conn), self.cubes().len() as int, ps),
        ensures
            tracks(*final(conn), self.cubes().len() as int, r@),
            forall|e: (usize, usize)|
                #[trigger] r@.contains(e) <==> (ps.contains(e) || (e.0 == owner && children@.contains(e.1) && spec_linkable(
                    self.cubes()[owner as int].kind,
                    self.cubes()[e.1 as int].kind,
                ))),
    {
        let ghost cs = self.cubes();
        let ghost n = cs.len();
        let ghost p0 = ps;
        let ghost mut ps = ps;
        let mut i: usize = 0;
        while i < children.len()
            invariant
                i <= children@.len(),
                cs == self.cubes(),
                n == cs.len(),
                owner < n,
                forall|x: int| 0 <= x < children@.len() ==> #[trigger] children@[x] < n,
                tracks(*conn, n as int, ps),
                forall|e: (usize, usize)|
                    #[trigger] ps.contains(e) <==> (p0.contains(e) || (e.0 == owner && children@.take(i as int).contains(e.1)
                        && spec_linkable(cs[owner as int].kind, cs[e.1 as int].kind))),
            decreases children@.len() - i,
        {
            let child = children[i];
            let ghost pb = ps;
            proof {
                children@.lemma_take_succ_push(i as int);
            }
            if self.cube_at(owner).linkable(self.cube_at(child)) {
                let ghost before = *conn;
                conn.join(owner, child);
                proof {
                    lemma_join_tracked(before, *conn, n as int, ps, owner, child);
                    ps = ps.push((owner, child));
                }
            }
            proof {
                assert forall|e: (usize, usize)|
                    #[trigger] ps.contains(e) <==> (p0.contains(e) || (e.0 == owner && children@.take(i + 1).contains(e.1)
                        && spec_linkable(cs[owner as int].kind, cs[e.1 as int].kind))) by {
                    vstd::seq_lib::lemma_seq_contains_after_push(children@.take(i as int), child, e.1);
                    if ps.len() > pb.len() {
                        vstd::seq_lib::lemma_seq_contains_after_push(pb, (owner, child), e);
                    }
                }
            }
            i = i + 1;
        }
        proof {
            assert(children@.take(children@.len() as int) =~= children@);
        }
        Ghost(ps)
    }
}

/// Visiting a cube stopped first, with every visited cube done, keeps the spread in order.
proof fn lemma_start(col: Collection, vb: Seq<bool>, qb: Seq<usize>, d: usize)
    requires
        queued(col, vb, qb),
        done_upto(col, vb, qb, qb.len() as int),
        d < col.cubes().len(),
        col.cubes().len() <= usize::MAX,
        !vb[d as int],
        first_stopped(col).contains(d),
    ensures
        queued(col, vb.update(d as int, true), qb.push(d)),
        done_upto(col, vb.update(d as int, true), qb.push(d), qb.len() as int),
{
    assert(stop_path(col, seq![d]));
    assert(seq![d].last() == d);
    assert(stopped(col).contains(d));
    lemma_visit_push(col, vb, qb, d);
    let v = vb.update(d as int, true);
    let q = qb.push(d);
    assert forall|x: int, y: usize| 0 <= x < qb.len() && follows(col, #[trigger] q[x], y) implies #[trigger] v[y as int] by {
        assert(q[x] == qb[x]);
        assert(vb[y as int]);
        lemma_stopped_below(col, y);
        if y != d {
            assert(v[y as int] == vb[y as int]);
        }
    }
}

impl Collection {
    /// Takes the cube at `head` in the queue: visits its followers and joins it with
    /// those of its colour.
    fn spread_one(
        &self,
        succ: &Digraph,
        visit: &mut Vec<bool>,
        queue: &mut Vec<usize>,
        head: usize,
        conn: &mut DisjointSet,
        Ghost(ps): Ghost<Seq<(usize, usize)>>,
        Ghost(ps1): Ghost<Seq<(usize, usize)>>,
    ) -> (r: Ghost<Seq<(usize, usize)>>)
        requires
            succ.wf(),
            graph_upto(*self, succ@, self.cubes().len() as int),
            head < old(queue)@.len(),
            queued(*self, old(visit)@, old(queue)@),
            done_upto(*self, old(visit)@, old(queue)@, head as int),
            joined_upto(*self, *old(conn), ps, ps1, old(queue)@, head as int),
        ensures
            queued(*self, final(visit)@, final(queue)@),
            done_upto(*self, final(visit)@, final(queue)@, head + 1),
            joined_upto(*self, *final(conn), r@, ps1, final(queue)@, head + 1),
            final(queue)@.len() >= old(queue)@.len(),
            final(queue)@.take(old(queue)@.len() as int) == old(queue)@,
            forall|x: int| 0 <= x < old(visit)@.len() && old(visit)@[x] ==> #[trigger] final(visit)@[x],
    {
        let ghost col = *self;
        let ghost cs = self.cubes();
        let ghost q0 = queue@;
        let ghost v0 = visit@;
        let owner = queue[head];
        assert(stopped(col).contains(owner));
        let children = self.followers_of(succ, owner);
        assert forall|x: int| 0 <= x < children@.len() implies follows(col, owner, #[trigger] children@[x]) by {
            assert(children@.contains(children@[x]));
        }
        self.visit_all(owner, &children, visit, queue);
        let Ghost(next) = self.join_all(owner, &children, conn, Ghost(ps));
        proof {
            let q = queue@;
            assert forall|x: int| 0 <= x < head + 1 implies #[trigger] q[x] == q0[x] by {
                assert(q.take(q0.len() as int)[x] == q[x]);
            }
            assert forall|x: int, y: usize| 0 <= x < head + 1 && follows(col, #[trigger] q[x], y) implies #[trigger] visit@[y as int] by {
                assert(q[x] == q0[x]);
                if x < head {
                    assert(v0[y as int]);
                    lemma_stopped_below(col, y);
                } else {
                    assert(children@.contains(y));
                    let i = choose|i: int| 0 <= i < children@.len() && children@[i] == y;
                    assert(visit@[children@[i] as int]);
                }
            }
            assert(q.take(head + 1) =~= q0.take(head as int).push(owner)) by {
                assert forall|x: int| 0 <= x < head + 1 implies q.take(head + 1)[x] == q0.take(head as int).push(owner)[x] by {
                    assert(q[x] == q0[x]);
                }
            }
            assert forall|e: (usize, usize)|
                #[trigger] next.contains(e) <==> (ps1.contains(e) || (q.take(head + 1).contains(e.0) && follows(col, e.0, e.1)
                    && spec_linkable(cs[e.0 as int].kind, cs[e.1 as int].kind))) by {
                vstd::seq_lib::lemma_seq_contains_after_push(q0.take(head as int), owner, e.0);
            }
        }
        Ghost(next)
    }

    /// Visits cube `d`, stopped first, unless already visited, and takes the queue to its
    /// end.
    fn spread_from(
        &self,
        succ: &Digraph,
        d: usize,
        visit: &mut Vec<bool>,
        queue: &mut Vec<usize>,
        head: &mut usize,
        conn: &mut DisjointSet,
        Ghost(ps): Ghost<Seq<(usize, usize)>>,
        Ghost(ps1): Ghost<Seq<(usize, usize)>>,
    ) -> (r: Ghost<Seq<(usize, usize)>>)
        requires
            succ.wf(),
            graph_upto(*self, succ@, self.cubes().len() as int),
            d < self.cubes().len(),
            first_stopped(*self).contains(d),
            *old(head) == old(queue)@.len(),
            queued(*self, old(visit)@, old(queue)@),
            done_upto(*self, old(visit)@, old(queue)@, *old(head) as int),
            joined_upto(*self, *old(conn), ps, ps1, old(queue)@, *old(head) as int),
        ensures
            *final(head) == final(queue)@.len(),
            queued(*self, final(visit)@, final(queue)@),
            done_upto(*self, final(visit)@, final(queue)@, *final(head) as int),
            joined_upto(*self, *final(conn), r@, ps1, final(queue)@, *final(head) as int),
            final(visit)@[d as int],
            forall|x: int| 0 <= x < old(visit)@.len() && old(visit)@[x] ==> #[trigger] final(visit)@[x],
    {
        let ghost col = *self;
        let n = self.number_of_cubes();
        let ghost v0 = visit@;
        let ghost mut ps = ps;
        if !visit[d] {
            let ghost vb = visit@;
            let ghost qb = queue@;
            visit.set(d, true);
            queue.push(d);
            proof {
                lemma_start(col, vb, qb, d);
                assert(visit@ == vb.update(d as int, true));
                assert(queue@.take(*head as int) =~= qb);
                assert(qb.take(*head as int) =~= qb);
                assert(queue@.take(*head as int) == qb.take(*head as int));
                assert forall|x: int| 0 <= x < v0.len() && v0[x] implies #[trigger] visit@[x] by {
                    if x != d as int {
                        assert(vb.update(d as int, true)[x] == vb[x]);
                    }
                }
            }
        }
        while *head < queue.len()
            invariant
                n == col.cubes().len(),
                col == *self,
                succ.wf(),
                graph_upto(col, succ@, n as int),
                d < n,
                *head <= queue@.len(),
                queued(col, visit@, queue@),
                done_upto(col, visit@, queue@, *head as int),
                joined_upto(col, *conn, ps, ps1, queue@, *head as int),
                visit@[d as int],
                v0.len() == n,
                forall|x: int| 0 <= x < v0.len() && v0[x] ==> #[trigger] visit@[x],
            decreases n - *head,
        {
            proof {
                lemma_unique_below(queue@, n as int);
            }
            let ghost vb = visit@;
            let Ghost(next) = self.spread_one(succ, visit, queue, *head, conn, Ghost(ps), Ghost(ps1));
            proof {
                ps = next;
                assert(vb[d as int]);
                assert forall|x: int| 0 <= x < v0.len() && v0[x] implies #[trigger] visit@[x] by {
                    assert(vb[x]);
                }
            }
            *head = *head + 1;
        }
        Ghost(ps)
    }

    /// Stops every follower of a stopped cube, from the cubes stopped first on, joining
    /// each stopped cube with its followers of its colour; which cubes end up stopped.
    fn spread(
        &self,
        determined: &Vec<usize>,
        conn: &mut DisjointSet,
        succ: &Digraph,
        Ghost(ps): Ghost<Seq<(usize, usize)>>,
    ) -> (r: (Vec<bool>, Ghost<Seq<(usize, usize)>>))
        requires
            forall|j: usize| #[trigger] determined@.contains(j) <==> first_stopped(*self).contains(j),
            forall|t: int| 0 <= t < determined@.len() ==> #[trigger] determined@[t] < self.cubes().len(),
            tracks(*old(conn), self.cubes().len() as int, ps),
            forall|e: (usize, usize)| #[trigger] ps.contains(e) <==> (e.0 < self.cubes().len() && links(*self, e.0 as int).contains(e.1)),
            succ.wf(),
            graph_upto(*self, succ@, self.cubes().len() as int),
        ensures
            r.0@.len() == self.cubes().len(),
            forall|k: int| 0 <= k < self.cubes().len() ==> (#[trigger] r.0@[k] <==> stopped(*self).contains(k as usize)),
            tracks(*final(conn), self.cubes().len() as int, r.1@),
            forall|e: (usize, usize)| #[trigger] r.1@.contains(e) <==> joins(*self).contains(e),
    {
        let ghost col = *self;
        let ghost cs = self.cubes();
        let ghost ps1 = ps;
        let ghost mut ps = ps;
        let n = self.number_of_cubes();
        let mut visit: Vec<bool> = Vec::new();
        while visit.len() < n
            invariant
                visit@.len() <= n,
                forall|x: int| 0 <= x < visit@.len() ==> !#[trigger] visit@[x],
            decreases n - visit@.len(),
        {
            visit.push(false);
        }
        let mut queue: Vec<usize> = Vec::new();
        let mut head: usize = 0;
        proof {
            assert(queue@.take(0) =~= Seq::<usize>::empty());
        }
        let mut t: usize = 0;
        while t < determined.len()
            invariant
                n == cs.len(),
                cs == self.cubes(),
                col == *self,
                t <= determined@.len(),
                forall|j: usize| #[trigger] determined@.contains(j) <==> first_stopped(col).contains(j),
                forall|x: int| 0 <= x < determined@.len() ==> #[trigger] determined@[x] < n,
                succ.wf(),
                graph_upto(col, succ@, n as int),
                head == queue@.len(),
                queued(col, visit@, queue@),
                done_upto(col, visit@, queue@, head as int),
                joined_upto(col, *conn, ps, ps1, queue@, head as int),
                forall|x: int| 0 <= x < t ==> visit@[#[trigger] determined@[x] as int],
            decreases determined@.len() - t,
        {
            let d = determined[t];
            assert(determined@.contains(d));
            let ghost vb = visit@;
            let Ghost(next) = self.spread_from(succ, d, &mut visit, &mut queue, &mut head, conn, Ghost(ps), Ghost(ps1));
            proof {
                ps = next;
                assert forall|x: int| 0 <= x < t + 1 implies visit@[#[trigger] determined@[x] as int] by {
                    if x < t {
                        assert(vb[determined@[x] as int]);
                    }
                }
            }
            t = t + 1;
        }
        proof {
            lemma_spread_end(col, determined@, visit@, queue@, *conn, ps, ps1);
        }
        (visit, Ghost(ps))
    }
}

/// When every cube stopped first is visited and the queue is done, the visited cubes
/// are the stopped ones and the pairs made are the joins.
proof fn lemma_spread_end(
    col: Collection,
    determined: Seq<usize>,
    visit: Seq<bool>,
    queue: Seq<usize>,
    ds: DisjointSet,
    ps: Seq<(usize, usize)>,
    ps1: Seq<(usize, usize)>,
)
    requires
        forall|j: usize| #[trigger] determined.contains(j) <==> first_stopped(col).contains(j),
        forall|x: int| 0 <= x < determined.len() ==> #[trigger] determined[x] < col.cubes().len(),
        forall|x: int| 0 <= x < determined.len() ==> visit[#[trigger] determined[x] as int],
        queued(col, visit, queue),
        done_upto(col, visit, queue, queue.len() as int),
        joined_upto(col, ds, ps, ps1, queue, queue.len() as int),
        forall|e: (usize, usize)| #[trigger] ps1.contains(e) <==> (e.0 < col.cubes().len() && links(col, e.0 as int).contains(e.1)),
    ensures
        forall|k: int| 0 <= k < col.cubes().len() ==> (#[trigger] visit[k] <==> stopped(col).contains(k as usize)),
        forall|e: (usize, usize)| #[trigger] ps.contains(e) <==> joins(col).contains(e),
{
    let n = col.cubes().len();
    let s = Set::new(|k: usize| k < n && visit[k as int]);
    assert forall|j: usize| #[trigger] first_stopped(col).contains(j) implies s.contains(j) by {
        assert(determined.contains(j));
        let x = choose|x: int| 0 <= x < determined.len() && determined[x] == j;
        assert(visit[determined[x] as int]);
    }
    assert forall|x: usize, y: usize| s.contains(x) && #[trigger] follows(col, x, y) implies s.contains(y) by {
        assert(queue.contains(x));
        let i = choose|i: int| 0 <= i < queue.len() && queue[i] == x;
        assert(visit[y as int]);
    }
    assert forall|k: int| 0 <= k < n implies (#[trigger] visit[k] <==> stopped(col).contains(k as usize)) by {
        if stopped(col).contains(k as usize) {
            let p = choose|p: Seq<usize>| #[trigger] stop_path(col, p) && p.last() == k as usize;
            lemma_path_end(col, s, p);
        }
        if visit[k] {
            let i = choose|i: int| 0 <= i < queue.len() && queue[i] == k as usize;
            assert(stopped(col).contains(queue[i]));
        }
    }
    assert(queue.take(queue.len() as int) =~= queue);
    assert forall|e: (usize, usize)| #[trigger] ps.contains(e) <==> joins(col).contains(e) by {
        if stopped(col).contains(e.0) {
            lemma_stopped_below(col, e.0);
            assert(visit[e.0 as int]);
        }
        if queue.contains(e.0) {
            let i = choose|i: int| 0 <= i < queue.len() && queue[i] == e.0;
            assert(stopped(col).contains(queue[i]));
        }
    }
}

/// Every cell gathered from cubes whose cells are near is near.
pub(crate) proof fn lemma_gathered_near(cs: Seq<Cube>, from: Seq<usize>)
    requires
        cells_near(cs),
        forall|n: int| 0 <= n < from.len() ==> #[trigger] from[n] < cs.len(),
    ensures
        forall|i: int| 0 <= i < gathered(cs, from).len() ==> near(#[trigger] gathered(cs, from)[i].position),
    decreases from.len(),
{
    if from.len() > 0 {
        let rest = from.drop_last();
        lemma_gathered_near(cs, rest);
        let last = from.last();
        let g0 = gathered(cs, rest);
        let add = if rest.contains(last) { Seq::<Unit>::empty() } else { cs[last as int].units@ };
        assert(gathered(cs, from) == g0 + add);
        assert forall|i: int| 0 <= i < gathered(cs, from).len() implies near(#[trigger] gathered(cs, from)[i].position) by {
            if i < g0.len() {
                assert(gathered(cs, from)[i] == g0[i]);
            } else {
                assert(gathered(cs, from)[i] == add[i - g0.len()]);
                assert(near(cs[last as int].units@[i - g0.len()].position));
            }
        }
    }
}

/// Cells all near each other leave outlines that fit.
pub(crate) proof fn lemma_near_fits(units: Seq<Unit>)
    requires
        forall|i: int| 0 <= i < units.len() ==> near(#[trigger] units[i].position),
    ensures
        offsets_fit(units),
{
    assert forall|k: int, i: int|
        0 <= k < units.len() && 0 <= i < 4 && !(#[trigger] units[k]).neighborhood.spec_has(#[trigger] lbtr(i)) implies {
            let first = anchor_of(units);
            let p = units[k].position;
            let o = lbtr(i).spec_offset();
            &&& fits(first.x - p.x)
            &&& fits(first.y - p.y)
            &&& fits(first.x - p.x - o.0)
            &&& fits(first.y - p.y - o.1)
        } by {
        assert(near(units[0].position));
        assert(near(units[k].position));
        let o = lbtr(i).spec_offset();
        assert(-1 <= o.0 <= 1 && -1 <= o.1 <= 1);
    }
}

impl Collection {
    /// Each group in turn, if it comes to one colour alone, is linked into its first cube.
    fn link_groups(&mut self, gs: &Vec<Vec<usize>>)
        requires
            forall|g: int, j: int| 0 <= g < gs@.len() && 0 <= j < gs@[g]@.len() ==> #[trigger] gs@[g]@[j] < old(self).cubes().len(),
            cells_near(old(self).cubes()),
        ensures
            pure_linked(old(self).cubes(), final(self).cubes(), gs@.map_values(|g: Vec<usize>| g@)),
            final(self).frozen() == old(self).frozen(),
            final(self).cubes().len() == old(self).cubes().len(),
    {
        let ghost cs0 = self.cubes();
        let ghost gsv = gs@.map_values(|g: Vec<usize>| g@);
        let ghost f0 = self.frozen();
        let mut t: usize = 0;
        while t < gs.len()
            invariant
                t <= gs@.len(),
                gsv == gs@.map_values(|g: Vec<usize>| g@),
                forall|g: int, j: int| 0 <= g < gs@.len() && 0 <= j < gs@[g]@.len() ==> #[trigger] gs@[g]@[j] < cs0.len(),
                self.cubes().len() == cs0.len(),
                cells_near(self.cubes()),
                self.frozen() == f0,
                pure_linked(cs0, self.cubes(), gsv.take(t as int)),
            decreases gs@.len() - t,
        {
            let g = &gs[t];
            let ghost mid = self.cubes();
            let n = self.number_of_cubes();
            let mut arena = Arena::new(self);
            let mut i: usize = 0;
            while i < g.len()
                invariant
                    i <= g@.len(),
                    arena.cubes() == mid,
                    n == mid.len(),
                    arena.seen().len() == 3,
                    arena.seen()[0] == exists|x: int| 0 <= x < i && g@[x] < n && mid[#[trigger] g@[x] as int].kind == Kind::Red,
                    arena.seen()[1] == exists|x: int| 0 <= x < i && g@[x] < n && mid[#[trigger] g@[x] as int].kind == Kind::Blue,
                    arena.seen()[2] == exists|x: int| 0 <= x < i && g@[x] < n && mid[#[trigger] g@[x] as int].kind == Kind::Green,
                decreases g@.len() - i,
            {
                let _ = arena.input(g[i]);
                i = i + 1;
            }
            let result = arena.output();
            assert(result == group_result(mid, g@));
            match result {
                ArenaResult::Pure(kind) => {
                    proof {
                        assert forall|x: int| 0 <= x < g@.len() implies #[trigger] g@[x] < mid.len() by {
                            assert(gs@[t as int]@[x] < cs0.len());
                        }
                        lemma_gathered_near(mid, g@);
                        lemma_near_fits(gathered(mid, g@));
                    }
                    self.link_into_first(g.as_slice(), kind);
                    proof {
                        let after = self.cubes();
                        assert forall|k: int, i: int|
                            0 <= k < after.len() && 0 <= i < after[k].units@.len() implies near(#[trigger] after[k].units@[i].position) by {
                            if g@.len() > 0 && k == g@[0] {
                                assert(after[k].units@ == gathered(mid, g@));
                            } else if g@.contains(k as usize) {
                                assert(after[k].units@.len() == 0);
                            } else {
                                assert(after[k] == mid[k]);
                            }
                        }
                    }
                },
                _ => {},
            }
            proof {
                assert(gsv.take(t + 1).drop_last() =~= gsv.take(t as int));
                assert(gsv.take(t + 1).last() == g@);
                assert(step_linked(mid, self.cubes(), g@));
                lemma_pure_linked_step(cs0, mid, self.cubes(), gsv.take(t + 1));
            }
            t = t + 1;
        }
        proof {
            assert(gsv.take(gs@.len() as int) =~= gsv);
        }
    }
}

/// A partition by one relation is one by another that agrees with it below `n`, when
/// every element is below `n`.
pub(crate) proof fn lemma_partition_same(
    gs: Seq<Seq<usize>>,
    elems: Seq<usize>,
    s1: spec_fn(int, int) -> bool,
    s2: spec_fn(int, int) -> bool,
    n: int,
)
    requires
        is_partition(gs, elems, s1),
        forall|x: int| 0 <= x < elems.len() ==> #[trigger] elems[x] < n,
        forall|a: int, b: int| 0 <= a < n && 0 <= b < n ==> #[trigger] s1(a, b) == s2(a, b),
    ensures
        is_partition(gs, elems, s2),
{
    assert forall|g1: int, j1: int, g2: int, j2: int|
        0 <= g1 < gs.len() && 0 <= j1 < gs[g1].len() && 0 <= g2 < gs.len() && 0 <= j2 < gs[g2].len() implies (s2(
        #[trigger] gs[g1][j1] as int,
        #[trigger] gs[g2][j2] as int,
    ) <==> g1 == g2) by {
        assert(elems.contains(gs[g1][j1]));
        assert(elems.contains(gs[g2][j2]));
        assert(s1(gs[g1][j1] as int, gs[g2][j2] as int) <==> g1 == g2);
    }
}

impl Collection {
    /// The cubes marked in `visit` are stopped.
    fn mark_stopped(&mut self, visit: &Vec<bool>)
        requires
            visit@.len() == old(self).cubes().len(),
        ensures
            final(self).frozen() == old(self).frozen(),
            final(self).cubes().len() == old(self).cubes().len(),
            forall|k: int|
                0 <= k < old(self).cubes().len() ==> #[trigger] final(self).cubes()[k] == if visit@[k] {
                    with_constraint(old(self).cubes()[k], Constraint::Stop)
                } else {
                    old(self).cubes()[k]
                },
    {
        let ghost c0 = self.cubes();
        let ghost f0 = self.frozen();
        let n = self.number_of_cubes();
        let mut k: usize = 0;
        while k < n
            invariant
                k <= n,
                n == c0.len(),
                visit@.len() == n,
                self.frozen() == f0,
                self.cubes().len() == n,
                forall|x: int| 0 <= x < k ==> #[trigger] self.cubes()[x] == if visit@[x] {
                    with_constraint(c0[x], Constraint::Stop)
                } else {
                    c0[x]
                },
                forall|x: int| k <= x < n ==> #[trigger] self.cubes()[x] == c0[x],
            decreases n - k,
        {
            if visit[k] {
                self.stop(k);
            }
            k = k + 1;
        }
    }

    /// Stops the moving cubes that cannot go on: those walled by a frozen cell, those
    /// meeting a cube going another way that they cannot link with, and those meeting a
    /// cube going another way that they link with, together with that cube; then every
    /// cube following a stopped cube, going its way into it. Stopped cubes are joined with
    /// the cubes they link with and with their followers of their colour; each group so
    /// tied that comes to one colour alone is linked into its first cube, and the stopped
    /// cubes are marked so. Gives back, for each cube, the cubes that follow it.
    pub fn perform_stopping(&mut self) -> (r: Digraph)
        requires
            old(self).wf(),
            outlined(old(self).cubes()),
            cells_near(old(self).cubes()),
        ensures
            final(self).frozen() == old(self).frozen(),
            r.wf(),
            r@ == followers(*old(self)),
            exists|ps: Seq<(usize, usize)>, gs: Seq<Seq<usize>>, elems: Seq<usize>, mid: Seq<Cube>|
                #[trigger] stopping_outcome(*old(self), ps, gs, elems, mid, final(self).cubes()),
    {
        let ghost col = *self;
        let ghost cs = self.cubes();
        let n = self.number_of_cubes();
        let f = self.owner_table();
        let (determined, mut conn, succ, Ghost(ps)) = self.stop_first(&f);
        let (visit, Ghost(ps2)) = self.spread(&determined, &mut conn, &succ, Ghost(ps));
        let ghost conn0 = conn;
        let groups = conn.groups();
        let ghost gsv = groups@.map_values(|g: Vec<usize>| g@);
        let ghost elems = conn0.touched();
        proof {
            assert forall|x: int| 0 <= x < elems.len() implies #[trigger] elems[x] < n by {
                assert(elems.contains(elems[x]));
                assert(tied_cubes(n as int, ps2).contains(elems[x]));
            }
            lemma_partition_same(gsv, elems, |a: int, b: int| conn0.same(a, b), |a: int, b: int| tied(n as int, ps2, a, b), n as int);
            assert forall|g: int, j: int| 0 <= g < groups@.len() && 0 <= j < groups@[g]@.len() implies #[trigger] groups@[g]@[j] < cs.len() by {
                assert(gsv[g] == groups@[g]@);
                assert(elems.contains(gsv[g][j]));
            }
        }
        proof {
            assert forall|h: int| 0 <= h < gsv.len() implies #[trigger] gsv[h] == elems.filter(
                |e: usize| tied(n as int, ps2, e as int, gsv[h][0] as int),
            ) by {
                assert(gsv[h] == groups@[h]@);
                let g0 = gsv[h][0];
                assert(elems.contains(g0));
                assert(g0 < n);
                lemma_filter_agree(
                    elems,
                    |e: usize| conn0.same(e as int, g0 as int),
                    |e: usize| tied(n as int, ps2, e as int, g0 as int),
                );
            }
        }
        self.link_groups(&groups);
        let ghost mid = self.cubes();
        self.mark_stopped(&visit);
        proof {
            let after = self.cubes();
            assert(after =~= with_stops(mid, stopped(col)));
            assert(ps2.to_set() =~= joins(col));
            assert(elems.to_set() =~= tied_cubes(n as int, ps2));
            assert(stopping_outcome(col, ps2, gsv, elems, mid, after));
            assert(succ@ =~= followers(col)) by {
                assert forall|j: usize| #[trigger] succ@.contains_key(j) implies succ@[j] =~= followers(col)[j] by {}
            }
        }
        succ
    }
}

} // verus!
