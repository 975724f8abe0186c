use vstd::prelude::*;

use std::collections::{HashMap, HashSet};

use super::cube::Movement;
use super::location::Point;
use crate::common::forest::{is_partition, Forest};
use crate::common::race::{overlaps_of, put_all, RaceTable, RaceView};

verus! {

broadcast use vstd::std_specs::hash::group_hash_axioms;

/// The key of a point: `x` in the high half and `y`, sign-extended, over all 64 bits; so
/// points with a negative `y` can share a key.
pub open spec fn key_of(p: Point) -> u64 {
    ((p.x as u64) << 32u64) | (p.y as u64)
}

/// The keys of some points.
pub open spec fn keys_of(s: Seq<Point>) -> Seq<u64> {
    s.map_values(|p: Point| key_of(p))
}

/// A point as a lookup key.
#[derive(PartialEq, Eq, Hash)]
pub struct Key(u64);

impl Key {
    pub closed spec fn spec_value(self) -> u64 {
        self.0
    }

    pub fn from(o: &Point) -> (r: Key)
        ensures
            r.spec_value() == key_of(*o),
    {
        Key(key(*o))
    }
}

fn key(p: Point) -> (r: u64)
    ensures
        r == key_of(p),
{
    ((p.x as u64) << 32u64) | (p.y as u64)
}

/// The keys of some points, as a set.
pub struct Existence(HashSet<u64>);

impl View for Existence {
    type V = Set<u64>;

    closed spec fn view(&self) -> Set<u64> {
        self.0@
    }
}

impl Existence {
    pub fn new(it: &[Point]) -> (r: Existence)
        ensures
            r@ == keys_of(it@).to_set(),
    {
        let mut set: HashSet<u64> = HashSet::new();
        let mut i: usize = 0;
        while i < it.len()
            invariant
                i <= it@.len(),
                set@ == keys_of(it@.take(i as int)).to_set(),
            decreases it@.len() - i,
        {
            set.insert(key(it[i]));
            proof {
                assert(keys_of(it@.take(i + 1)) =~= keys_of(it@.take(i as int)).push(key_of(it@[i as int])));
                keys_of(it@.take(i as int)).lemma_push_to_set_commute(key_of(it@[i as int]));
            }
            i = i + 1;
        }
        assert(it@.take(it@.len() as int) =~= it@);
        Existence(set)
    }

    /// Some point of the set has the key of `k`.
    pub fn has(&self, k: Point) -> (r: bool)
        ensures
            r == self@.contains(key_of(k)),
    {
        self.0.contains(&key(k))
    }
}

/// The map from keys that `it` gives, later pairs overriding earlier ones.
pub open spec fn map_of(it: Seq<(Point, usize)>) -> Map<u64, usize>
    decreases it.len(),
{
    if it.len() == 0 {
        Map::empty()
    } else {
        map_of(it.drop_last()).insert(key_of(it.last().0), it.last().1)
    }
}

/// A value for each key of some points.
#[derive(Default)]
pub struct Collision(HashMap<u64, usize>);

impl View for Collision {
    type V = Map<u64, usize>;

    closed spec fn view(&self) -> Map<u64, usize> {
        self.0@
    }
}

impl Collision {
    pub fn new(it: &[(Point, usize)]) -> (r: Collision)
        ensures
            r@ == map_of(it@),
    {
        let mut map: HashMap<u64, usize> = HashMap::new();
        let mut i: usize = 0;
        while i < it.len()
            invariant
                i <= it@.len(),
                map@ == map_of(it@.take(i as int)),
            decreases it@.len() - i,
        {
            let (p, v) = it[i];
            map.insert(key(p), v);
            proof {
                assert(it@.take(i + 1).drop_last() =~= it@.take(i as int));
            }
            i = i + 1;
        }
        assert(it@.take(it@.len() as int) =~= it@);
        Collision(map)
    }

    pub fn put(&mut self, k: Point, v: usize)
        ensures
            final(self)@ == old(self)@.insert(key_of(k), v),
    {
        self.0.insert(key(k), v);
    }

    pub fn get(&self, k: Point) -> (r: Option<usize>)
        ensures
            r == (if self@.contains_key(key_of(k)) {
                Some(self@[key_of(k)])
            } else {
                None
            }),
    {
        match self.0.get(&key(k)) {
            Some(v) => Some(*v),
            None => None,
        }
    }
}

/// The slot that a movement takes in a race; none for staying still.
pub open spec fn slot_of(m: Movement) -> Option<usize> {
    match m {
        Movement::Idle => None,
        Movement::Left => Some(0),
        Movement::Down => Some(1),
        Movement::Up => Some(2),
        Movement::Right => Some(3),
    }
}

/// The movement of a race slot.
pub open spec fn movement_at(slot: usize) -> Movement {
    if slot == 0 {
        Movement::Left
    } else if slot == 1 {
        Movement::Down
    } else if slot == 2 {
        Movement::Up
    } else {
        Movement::Right
    }
}

/// Each `(index, slot)` as `(movement, index)`.
pub open spec fn by_movement(s: Seq<(usize, usize)>) -> Seq<(Movement, usize)> {
    s.map_values(|x: (usize, usize)| (movement_at(x.1), x.0))
}

/// A cube that stays still has no race slot; each other movement has one of its own,
/// below four, and the slot gives the movement back. The slots go in the order left,
/// down, up, right, the order in which `overlaps` lists who wants a point.
pub proof fn lemma_slots_distinct(a: Movement, b: Movement)
    ensures
        (slot_of(a) is None) <==> a == Movement::Idle,
        slot_of(a) matches Some(s) ==> s < 4 && movement_at(s) == a,
        a != b && slot_of(a) is Some ==> slot_of(a) != slot_of(b),
        slot_of(Movement::Left)->0 < slot_of(Movement::Down)->0,
        slot_of(Movement::Down)->0 < slot_of(Movement::Up)->0,
        slot_of(Movement::Up)->0 < slot_of(Movement::Right)->0,
{
}

fn slot(m: Movement) -> (r: Option<usize>)
    ensures
        r == slot_of(m),
        r matches Some(s) ==> s < 4,
{
    match m {
        Movement::Idle => None,
        Movement::Left => Some(0),
        Movement::Down => Some(1),
        Movement::Up => Some(2),
        Movement::Right => Some(3),
    }
}

fn movement(slot: usize) -> (r: Movement)
    ensures
        r == movement_at(slot),
{
    if slot == 0 {
        Movement::Left
    } else if slot == 1 {
        Movement::Down
    } else if slot == 2 {
        Movement::Up
    } else {
        Movement::Right
    }
}

/// A table of races after one call of `put` with these points, movement and cube.
pub open spec fn put_step(e: Seq<(u64, RaceView)>, p: (Seq<Point>, Movement, usize)) -> Seq<(u64, RaceView)> {
    match slot_of(p.1) {
        Some(s) => put_all(e, keys_of(p.0), s as int, p.2),
        None => e,
    }
}

/// The cube of the last of the calls `puts` that wanted key `k` from side `s` (the slot
/// of its movement), if any did.
pub open spec fn claim(puts: Seq<(Seq<Point>, Movement, usize)>, k: u64, s: int) -> Option<usize>
    decreases puts.len(),
{
    if puts.len() == 0 {
        None
    } else {
        let p = puts.last();
        if (slot_of(p.1) matches Some(t) && t as int == s) && keys_of(p.0).contains(k) {
            Some(p.2)
        } else {
            claim(puts.drop_last(), k, s)
        }
    }
}

/// The four sides of key `k` as `f` names them.
pub open spec fn sides(f: spec_fn(u64, int) -> Option<usize>, k: u64) -> RaceView {
    seq![f(k, 0), f(k, 1), f(k, 2), f(k, 3)]
}

/// The four sides of key `k` after the calls `puts`.
pub open spec fn claims(puts: Seq<(Seq<Point>, Movement, usize)>, k: u64) -> RaceView {
    sides(|k2: u64, s: int| claim(puts, k2, s), k)
}

/// Each key of `e` stands once, with the sides `f` names for it.
pub open spec fn entries_of(e: Seq<(u64, RaceView)>, f: spec_fn(u64, int) -> Option<usize>) -> bool {
    &&& forall|i: int, j: int| 0 <= i < e.len() && 0 <= j < e.len() && i != j ==> #[trigger] e[i].0 != #[trigger] e[j].0
    &&& forall|j: int| 0 <= j < e.len() ==> #[trigger] e[j].1 == sides(f, e[j].0)
}

/// `f` names a cube for key `k` on some side.
pub open spec fn named(f: spec_fn(u64, int) -> Option<usize>, k: u64) -> bool {
    f(k, 0) is Some || f(k, 1) is Some || f(k, 2) is Some || f(k, 3) is Some
}

/// `e` holds exactly the keys that `f` names from some side, once each, with their sides.
pub open spec fn table_of(e: Seq<(u64, RaceView)>, f: spec_fn(u64, int) -> Option<usize>) -> bool {
    &&& entries_of(e, f)
    &&& forall|k: u64|
        (exists|j: int| 0 <= j < e.len() && e[j].0 == k) <==> #[trigger] named(f, k)
}

proof fn lemma_put_one_table(
    e: Seq<(u64, RaceView)>,
    f: spec_fn(u64, int) -> Option<usize>,
    k: u64,
    s: int,
    id: usize,
    g: spec_fn(u64, int) -> Option<usize>,
)
    requires
        table_of(e, f),
        0 <= s < 4,
        forall|k2: u64, s2: int| #[trigger] g(k2, s2) == if k2 == k && s2 == s { Some(id) } else { f(k2, s2) },
    ensures
        table_of(crate::common::race::put_one(e, k, s, id), g),
{
    let e2 = crate::common::race::put_one(e, k, s, id);
    match crate::common::race::position_of(e, k) {
        Some(j) => {
            assert(e[j].0 == k);
            assert forall|i: int| 0 <= i < e2.len() implies #[trigger] e2[i].1 == sides(g, e2[i].0) by {
                if i == j {
                    assert(e2[i].1 =~= sides(g, k));
                } else {
                    assert(e2[i] == e[i]);
                    assert(e[i].0 != e[j].0);
                    assert(e2[i].1 =~= sides(g, e2[i].0));
                }
            }
            assert forall|k2: u64|
                (exists|i: int| 0 <= i < e2.len() && #[trigger] e2[i].0 == k2) <==> named(g, k2) by {
                assert(named(f, k2) == (exists|i: int| 0 <= i < e.len() && e[i].0 == k2));
                if k2 != k {
                    assert(named(g, k2) == named(f, k2));
                } else {
                    assert(g(k, s) is Some);
                }
                if exists|i: int| 0 <= i < e2.len() && #[trigger] e2[i].0 == k2 {
                    let i = choose|i: int| 0 <= i < e2.len() && #[trigger] e2[i].0 == k2;
                    assert(e[i].0 == k2);
                }
                if exists|i: int| 0 <= i < e.len() && #[trigger] e[i].0 == k2 {
                    let i = choose|i: int| 0 <= i < e.len() && #[trigger] e[i].0 == k2;
                    assert(e2[i].0 == k2);
                }
                if k2 == k {
                    assert(e2[j].0 == k2);
                }
            }
        },
        None => {
            assert(forall|i: int| 0 <= i < e.len() ==> #[trigger] e[i].0 != k);
            assert(!named(f, k));
            assert forall|i: int| 0 <= i < e2.len() implies #[trigger] e2[i].1 == sides(g, e2[i].0) by {
                if i == e.len() {
                    assert(e2[i].1 =~= sides(g, k));
                } else {
                    assert(e2[i] == e[i]);
                    assert(e2[i].1 =~= sides(g, e2[i].0));
                }
            }
            assert forall|k2: u64|
                (exists|i: int| 0 <= i < e2.len() && #[trigger] e2[i].0 == k2) <==> named(g, k2) by {
                assert(named(f, k2) == (exists|i: int| 0 <= i < e.len() && e[i].0 == k2));
                if k2 != k {
                    assert(named(g, k2) == named(f, k2));
                } else {
                    assert(g(k, s) is Some);
                }
                if exists|i: int| 0 <= i < e2.len() && #[trigger] e2[i].0 == k2 {
                    let i = choose|i: int| 0 <= i < e2.len() && #[trigger] e2[i].0 == k2;
                    if i < e.len() {
                        assert(e[i].0 == k2);
                    }
                }
                if exists|i: int| 0 <= i < e.len() && #[trigger] e[i].0 == k2 {
                    let i = choose|i: int| 0 <= i < e.len() && #[trigger] e[i].0 == k2;
                    assert(e2[i].0 == k2);
                }
                if k2 == k {
                    assert(e2[e.len() as int].0 == k2);
                }
            }
        },
    }
}

proof fn lemma_put_all_table(e: Seq<(u64, RaceView)>, f: spec_fn(u64, int) -> Option<usize>, ks: Seq<u64>, s: int, id: usize)
    requires
        table_of(e, f),
        0 <= s < 4,
    ensures
        table_of(put_all(e, ks, s, id), |k2: u64, s2: int| if s2 == s && ks.contains(k2) { Some(id) } else { f(k2, s2) }),
    decreases ks.len(),
{
    let target = |k2: u64, s2: int| if s2 == s && ks.contains(k2) { Some(id) } else { f(k2, s2) };
    if ks.len() == 0 {
        assert(target =~= f);
        assert(put_all(e, ks, s, id) == e);
        assert(table_of(put_all(e, ks, s, id), target));
    } else {
        let r = ks.drop_last();
        let f1 = |k2: u64, s2: int| if s2 == s && r.contains(k2) { Some(id) } else { f(k2, s2) };
        lemma_put_all_table(e, f, r, s, id);
        assert(table_of(put_all(e, r, s, id), f1));
        assert forall|k2: u64, s2: int| #[trigger] target(k2, s2) == if k2 == ks.last() && s2 == s { Some(id) } else { f1(k2, s2) } by {
            if ks.contains(k2) && k2 != ks.last() {
                let i = choose|i: int| 0 <= i < ks.len() && ks[i] == k2;
                assert(r[i] == k2);
            }
            if r.contains(k2) {
                let i = choose|i: int| 0 <= i < r.len() && r[i] == k2;
                assert(ks[i] == k2);
            }
            if k2 == ks.last() {
                assert(ks.contains(ks[ks.len() - 1]));
            }
        }
        lemma_put_one_table(put_all(e, r, s, id), f1, ks.last(), s, id, target);
        assert(put_all(e, ks, s, id) == crate::common::race::put_one(put_all(e, r, s, id), ks.last(), s, id));
    }
}

/// The keys of `e` whose races are wanted from more than one side, in order.
pub open spec fn conflicting_keys(e: Seq<(u64, RaceView)>) -> Seq<u64>
    decreases e.len(),
{
    if e.len() == 0 {
        Seq::empty()
    } else {
        let r = conflicting_keys(e.drop_last());
        if crate::common::race::race_conflict(e.last().1) {
            r.push(e.last().0)
        } else {
            r
        }
    }
}

proof fn lemma_overlaps_keys(e: Seq<(u64, RaceView)>, f: spec_fn(u64, int) -> Option<usize>)
    requires
        entries_of(e, f),
    ensures
        overlaps_of(e).len() == conflicting_keys(e).len(),
        forall|g: int|
            0 <= g < overlaps_of(e).len() ==> #[trigger] overlaps_of(e)[g] == crate::common::race::race_whom(
                sides(f, conflicting_keys(e)[g]),
            ),
        conflicting_keys(e).no_duplicates(),
        forall|k: u64|
            #[trigger] conflicting_keys(e).contains(k) <==> exists|j: int|
                0 <= j < e.len() && #[trigger] e[j].0 == k && crate::common::race::race_conflict(e[j].1),
    decreases e.len(),
{
    reveal_with_fuel(Seq::filter, 1);
    let pred = |x: (u64, RaceView)| crate::common::race::race_conflict(x.1);
    let whom = |x: (u64, RaceView)| crate::common::race::race_whom(x.1);
    if e.len() == 0 {
        assert(e.filter(pred) =~= Seq::<(u64, RaceView)>::empty());
        assert(overlaps_of(e) =~= Seq::<Seq<(usize, usize)>>::empty());
    } else {
        let r = e.drop_last();
        assert forall|i: int, j: int| 0 <= i < r.len() && 0 <= j < r.len() && i != j implies #[trigger] r[i].0 != #[trigger] r[j].0 by {
            assert(e[i] == r[i] && e[j] == r[j]);
        }
        assert forall|j: int| 0 <= j < r.len() implies #[trigger] r[j].1 == sides(f, r[j].0) by {
            assert(e[j] == r[j]);
        }
        lemma_overlaps_keys(r, f);
        let x = e.last();
        assert(x == e[e.len() - 1]);
        assert(e.filter(pred) == if pred(x) { r.filter(pred).push(x) } else { r.filter(pred) });
        let kr = conflicting_keys(r);
        let ke = conflicting_keys(e);
        if pred(x) {
            assert(overlaps_of(e) =~= overlaps_of(r).push(whom(x)));
            assert(x.1 == sides(f, x.0));
            assert(forall|j: int| 0 <= j < r.len() ==> #[trigger] r[j].0 != x.0) by {
                assert forall|j: int| 0 <= j < r.len() implies #[trigger] r[j].0 != x.0 by {
                    assert(e[j] == r[j]);
                }
            }
            assert(!kr.contains(x.0));
            assert forall|a: int, b: int| 0 <= a < ke.len() && 0 <= b < ke.len() && a != b implies ke[a] != ke[b] by {
                if a < kr.len() && b < kr.len() {
                } else if a < kr.len() {
                    assert(kr.contains(ke[a]));
                } else {
                    assert(kr.contains(ke[b]));
                }
            }
        } else {
            assert(overlaps_of(e) =~= overlaps_of(r));
        }
        assert forall|k: u64|
            #[trigger] ke.contains(k) <==> exists|j: int|
                0 <= j < e.len() && #[trigger] e[j].0 == k && crate::common::race::race_conflict(e[j].1) by {
            if ke.contains(k) {
                let a = choose|a: int| 0 <= a < ke.len() && ke[a] == k;
                if a < kr.len() {
                    assert(kr.contains(k));
                    let j = choose|j: int| 0 <= j < r.len() && #[trigger] r[j].0 == k && crate::common::race::race_conflict(r[j].1);
                    assert(e[j] == r[j]);
                } else {
                    assert(e[e.len() - 1].0 == k);
                }
            }
            if exists|j: int| 0 <= j < e.len() && #[trigger] e[j].0 == k && crate::common::race::race_conflict(e[j].1) {
                let j = choose|j: int| 0 <= j < e.len() && #[trigger] e[j].0 == k && crate::common::race::race_conflict(e[j].1);
                if j < r.len() {
                    assert(r[j] == e[j]);
                    assert(kr.contains(k));
                    let a = choose|a: int| 0 <= a < kr.len() && kr[a] == k;
                    assert(ke[a] == k);
                } else {
                    assert(ke[ke.len() - 1] == k);
                }
            }
        }
    }
}

/// Conflicts gather by point: if `cs` are the views of a table from `Conflict::new` and
/// after each of the calls `puts` of `put` in turn (each as points, movement and cube),
/// then `overlaps` on the last (which gives `overlaps_of` of its view, as movements)
/// gives one group for each key wanted
/// from two or more sides, and no other; a group holds, for each side in the order left,
/// down, up, right, the cube of the last call that wanted that key from that side. A call
/// with a cube that stays still changes nothing.
pub proof fn lemma_conflict_overlaps(cs: Seq<Seq<(u64, RaceView)>>, puts: Seq<(Seq<Point>, Movement, usize)>)
    requires
        cs.len() == puts.len() + 1,
        cs[0] == Seq::<(u64, RaceView)>::empty(),
        forall|i: int| 0 <= i < puts.len() ==> #[trigger] cs[i + 1] == put_step(cs[i], puts[i]),
    ensures
        ({
            let e = cs[puts.len() as int];
            let ks = conflicting_keys(e);
            &&& ks.no_duplicates()
            &&& ks.len() == overlaps_of(e).len()
            &&& forall|g: int| 0 <= g < ks.len() ==> #[trigger] overlaps_of(e)[g] == crate::common::race::race_whom(claims(puts, ks[g]))
            &&& forall|k: u64| #[trigger] ks.contains(k) <==> crate::common::race::race_conflict(claims(puts, k))
        }),
{
    let n = puts.len() as int;
    lemma_conflict_table(cs, puts, n);
    assert(puts.take(n) =~= puts);
    let f = |k2: u64, s: int| claim(puts, k2, s);
    let e = cs[n];
    assert(table_of(e, f));
    lemma_overlaps_keys(e, f);
    let ks = conflicting_keys(e);
    assert forall|g: int| 0 <= g < ks.len() implies #[trigger] overlaps_of(e)[g] == crate::common::race::race_whom(claims(puts, ks[g])) by {
        assert(sides(f, ks[g]) == claims(puts, ks[g]));
    }
    assert forall|k: u64| #[trigger] ks.contains(k) <==> crate::common::race::race_conflict(claims(puts, k)) by {
        if crate::common::race::race_conflict(claims(puts, k)) {
            assert(named(f, k));
            let j = choose|j: int| 0 <= j < e.len() && #[trigger] e[j].0 == k;
            assert(e[j].1 == sides(f, k));
        }
        if ks.contains(k) {
            let j = choose|j: int| 0 <= j < e.len() && #[trigger] e[j].0 == k && crate::common::race::race_conflict(e[j].1);
            assert(e[j].1 == sides(f, k));
        }
    }
}

proof fn lemma_conflict_table(cs: Seq<Seq<(u64, RaceView)>>, puts: Seq<(Seq<Point>, Movement, usize)>, i: int)
    requires
        cs.len() == puts.len() + 1,
        0 <= i <= puts.len(),
        cs[0] == Seq::<(u64, RaceView)>::empty(),
        forall|i: int| 0 <= i < puts.len() ==> #[trigger] cs[i + 1] == put_step(cs[i], puts[i]),
    ensures
        table_of(cs[i], |k2: u64, s: int| claim(puts.take(i), k2, s)),
    decreases i,
{
    let ps = puts.take(i);
    let f = |k2: u64, s: int| claim(ps, k2, s);
    if i == 0 {
        assert(ps =~= Seq::<(Seq<Point>, Movement, usize)>::empty());
        assert forall|k: u64|
            (exists|j: int| 0 <= j < cs[0].len() && #[trigger] cs[0][j].0 == k) <==> named(f, k) by {}
    } else {
        lemma_conflict_table(cs, puts, i - 1);
        let q = puts.take(i - 1);
        let f0 = |k2: u64, s: int| claim(q, k2, s);
        let p = puts[i - 1];
        assert(ps.drop_last() =~= q);
        assert(ps.last() == p);
        let j = i - 1;
        assert(cs[j + 1] == put_step(cs[j], puts[j]));
        match slot_of(p.1) {
            Some(t) => {
                lemma_put_all_table(cs[i - 1], f0, keys_of(p.0), t as int, p.2);
                let g = |k2: u64, s2: int| if s2 == t as int && keys_of(p.0).contains(k2) { Some(p.2) } else { f0(k2, s2) };
                assert forall|k2: u64, s2: int| #[trigger] g(k2, s2) == f(k2, s2) by {}
                assert(g =~= f);
            },
            None => {
                assert forall|k2: u64, s2: int| #[trigger] f0(k2, s2) == f(k2, s2) by {}
                assert(f0 =~= f);
            },
        }
    }
}

/// For each point, which cube wants it from which side.
pub struct Conflict(RaceTable);

impl View for Conflict {
    type V = Seq<(u64, RaceView)>;

    closed spec fn view(&self) -> Seq<(u64, RaceView)> {
        self.0@
    }
}

impl Conflict {
    pub closed spec fn wf(self) -> bool {
        self.0.wf()
    }

    pub fn new() -> (r: Conflict)
        ensures
            r.wf(),
            r@ == Seq::<(u64, RaceView)>::empty(),
    {
        Conflict(RaceTable::new())
    }

    /// Records that cube `index`, moving by `movement`, wants each of `keys`; a cube that
    /// stays still wants nothing.
    pub fn put(&mut self, keys: &[Point], movement: Movement, index: usize)
        requires
            old(self).wf(),
        ensures
            final(self).wf(),
            final(self)@ == match slot_of(movement) {
                Some(s) => put_all(old(self)@, keys_of(keys@), s as int, index),
                None => old(self)@,
            },
            final(self)@ == put_step(old(self)@, (keys@, movement, index)),
    {
        match slot(movement) {
            None => {},
            Some(s) => {
                let mut i: usize = 0;
                while i < keys.len()
                    invariant
                        self.wf(),
                        i <= keys@.len(),
                        s < 4,
                        self@ == put_all(old(self)@, keys_of(keys@.take(i as int)), s as int, index),
                    decreases keys@.len() - i,
                {
                    self.0.put(key(keys[i]), s, index);
                    proof {
                        assert(keys_of(keys@.take(i + 1)) =~= keys_of(keys@.take(i as int)).push(
                            key_of(keys@[i as int]),
                        ));
                        assert(keys_of(keys@.take(i + 1)).drop_last() =~= keys_of(
                            keys@.take(i as int),
                        ));
                    }
                    i = i + 1;
                }
                assert(keys@.take(keys@.len() as int) =~= keys@);
            },
        }
    }

    /// For each point wanted from more than one side, who wants it from where, in the
    /// order left, down, up, right.
    pub fn overlaps(&self) -> (r: Vec<Vec<(Movement, usize)>>)
        requires
            self.wf(),
        ensures
            r@.len() == overlaps_of(self@).len(),
            forall|g: int| 0 <= g < r@.len() ==> #[trigger] r@[g]@ == by_movement(overlaps_of(self@)[g]),
    {
        let raw = self.0.overlaps();
        let mut r: Vec<Vec<(Movement, usize)>> = Vec::new();
        let mut g: usize = 0;
        while g < raw.len()
            invariant
                g <= raw@.len(),
                raw@.map_values(|v: Vec<(usize, usize)>| v@) == overlaps_of(self@),
                r@.len() == g,
                forall|h: int| 0 <= h < g ==> #[trigger] r@[h]@ == by_movement(raw@[h]@),
            decreases raw@.len() - g,
        {
            let mut one: Vec<(Movement, usize)> = Vec::new();
            let mut j: usize = 0;
            while j < raw[g].len()
                invariant
                    g < raw@.len(),
                    j <= raw@[g as int]@.len(),
                    one@ == by_movement(raw@[g as int]@.take(j as int)),
                decreases raw@[g as int]@.len() - j,
            {
                let (id, s) = raw[g][j];
                one.push((movement(s), id));
                assert(by_movement(raw@[g as int]@.take(j + 1)) =~= by_movement(
                    raw@[g as int]@.take(j as int),
                ).push((movement_at(s), id)));
                j = j + 1;
            }
            assert(raw@[g as int]@.take(raw@[g as int]@.len() as int) =~= raw@[g as int]@);
            r.push(one);
            g = g + 1;
        }
        proof {
            assert forall|h: int| 0 <= h < r@.len() implies #[trigger] r@[h]@ == by_movement(
                overlaps_of(self@)[h],
            ) by {
                assert(raw@.map_values(|v: Vec<(usize, usize)>| v@)[h] == raw@[h]@);
            }
        }
        r
    }
}


/// Renaming the elements of a partition one-to-one gives a partition of the renamed
/// elements under the renamed relation.
proof fn lemma_partition_renamed(
    gs: Seq<Seq<usize>>,
    elems: Seq<usize>,
    same: spec_fn(int, int) -> bool,
    names: Seq<usize>,
    out: Seq<Seq<usize>>,
    same2: spec_fn(int, int) -> bool,
)
    requires
        is_partition(gs, elems, same),
        names.no_duplicates(),
        names.len() <= usize::MAX,
        forall|j: usize| #[trigger] elems.contains(j) <==> j < names.len(),
        out.len() == gs.len(),
        forall|g: int| 0 <= g < gs.len() ==> #[trigger] out[g] == gs[g].map_values(|j: usize| names[j as int]),
        forall|j1: usize, j2: usize|
            j1 < names.len() && j2 < names.len() ==> (same2(
                #[trigger] names[j1 as int] as int,
                #[trigger] names[j2 as int] as int,
            ) <==> same(j1 as int, j2 as int)),
    ensures
        is_partition(out, names, same2),
{
    assert forall|g: int, j: int| 0 <= g < out.len() && 0 <= j < out[g].len() implies {
        &&& gs[g][j] < names.len()
        &&& #[trigger] out[g][j] == names[gs[g][j] as int]
    } by {
        assert(elems.contains(gs[g][j]));
    }
    assert forall|g: int| 0 <= g < out.len() implies #[trigger] out[g].len() > 0 by {
        assert(gs[g].len() > 0);
    }
    assert forall|g1: int, j1: int, g2: int, j2: int|
        0 <= g1 < out.len() && 0 <= j1 < out[g1].len() && 0 <= g2 < out.len() && 0 <= j2
            < out[g2].len() && #[trigger] out[g1][j1] == #[trigger] out[g2][j2] implies g1 == g2 && j1
        == j2 by {
        assert(out[g1][j1] == names[gs[g1][j1] as int]);
        assert(out[g2][j2] == names[gs[g2][j2] as int]);
        assert(gs[g1][j1] == gs[g2][j2]);
    }
    assert forall|g: int, j: int| 0 <= g < out.len() && 0 <= j < out[g].len() implies names.contains(
        #[trigger] out[g][j],
    ) by {
        assert(out[g][j] == names[gs[g][j] as int]);
    }
    assert forall|e: usize| names.contains(e) implies exists|g: int, j: int|
        0 <= g < out.len() && 0 <= j < out[g].len() && #[trigger] out[g][j] == e by {
        let k = choose|k: int| 0 <= k < names.len() && names[k] == e;
        assert(elems.contains(k as usize));
        assert(exists|g: int, j: int|
            0 <= g < gs.len() && 0 <= j < gs[g].len() && #[trigger] gs[g][j] == k as usize);
        assert forall|g: int, j: int|
            0 <= g < gs.len() && 0 <= j < gs[g].len() && #[trigger] gs[g][j] == k as usize implies 0 <= g
            < out.len() && 0 <= j < out[g].len() && out[g][j] == e by {
            assert(out[g] == gs[g].map_values(|j: usize| names[j as int]));
            assert(out[g][j] == names[gs[g][j] as int]);
        }
    }
    assert forall|g1: int, j1: int, g2: int, j2: int|
        0 <= g1 < out.len() && 0 <= j1 < out[g1].len() && 0 <= g2 < out.len() && 0 <= j2
            < out[g2].len() implies (same2(#[trigger] out[g1][j1] as int, #[trigger] out[g2][j2] as int)
        <==> g1 == g2) by {
        let a = gs[g1][j1];
        let b = gs[g2][j2];
        assert(out[g1][j1] == names[a as int]);
        assert(out[g2][j2] == names[b as int]);
        assert(same(gs[g1][j1] as int, gs[g2][j2] as int) <==> g1 == g2);
    }
}

/// Classes of nodes named by any `usize`, merged by `join`.
pub struct DisjointSet {
    index: HashMap<usize, usize>,
    names: Vec<usize>,
    forest: Forest,
}

impl DisjointSet {
    pub closed spec fn wf(self) -> bool {
        &&& self.forest.wf()
        &&& self.forest.size() == self.names@.len()
        &&& self.names@.len() <= usize::MAX
        &&& self.names@.no_duplicates()
        &&& forall|n: usize| #[trigger] self.index@.contains_key(n) <==> self.names@.contains(n)
        &&& forall|j: int| 0 <= j < self.names@.len() ==> #[trigger] self.index@[self.names@[j]] == j
        &&& forall|j: usize| #[trigger] self.forest.touched().contains(j) <==> j < self.names@.len()
    }

    /// The nodes that some `join` named, in the order first named.
    pub closed spec fn names(self) -> Seq<usize> {
        self.names@
    }

    /// Nodes `a` and `b` were named and are in one class.
    pub closed spec fn same(self, a: usize, b: usize) -> bool {
        &&& self.index@.contains_key(a)
        &&& self.index@.contains_key(b)
        &&& self.forest.same(self.index@[a] as int, self.index@[b] as int)
    }

    /// `a` and `b` are one node, or in one class.
    pub open spec fn linked(self, a: usize, b: usize) -> bool {
        a == b || self.same(a, b)
    }

    /// No node named yet.
    pub fn new() -> (r: DisjointSet)
        ensures
            r.wf(),
            r.names() == Seq::<usize>::empty(),
    {
        let r = DisjointSet { index: HashMap::new(), names: Vec::new(), forest: Forest::new(0) };
        proof {
            assert forall|j: usize| #[trigger] r.forest.touched().contains(j) <==> j < r.names@.len() by {
                if r.forest.touched().contains(j) {
                    let k = choose|k: int| 0 <= k < r.forest.touched().len() && r.forest.touched()[k] == j;
                }
            }
        }
        r
    }

    /// The node of name `n`, added untouched if `n` is new.
    fn node(&mut self, n: usize) -> (r: usize)
        requires
            old(self).forest.wf(),
            old(self).forest.size() == old(self).names@.len(),
            old(self).names@.no_duplicates(),
            forall|m: usize| #[trigger] old(self).index@.contains_key(m) <==> old(self).names@.contains(m),
            forall|j: int| 0 <= j < old(self).names@.len() ==> #[trigger] old(self).index@[old(self).names@[j]] == j,
            forall|j: usize| #[trigger] old(self).forest.touched().contains(j) ==> j < old(self).names@.len(),
            old(self).names@.len() < usize::MAX,
        ensures
            final(self).forest.wf(),
            final(self).forest.size() == final(self).names@.len(),
            final(self).names@.len() <= usize::MAX,
            final(self).names@.no_duplicates(),
            forall|m: usize| #[trigger] final(self).index@.contains_key(m) <==> final(self).names@.contains(m),
            forall|j: int| 0 <= j < final(self).names@.len() ==> #[trigger] final(self).index@[final(self).names@[j]] == j,
            forall|j: usize| #[trigger] final(self).forest.touched().contains(j) ==> j < final(self).names@.len(),
            final(self).forest.touched() == old(self).forest.touched(),
            r < final(self).names@.len(),
            final(self).names@[r as int] == n,
            final(self).index@.contains_key(n),
            final(self).index@[n] == r,
            old(self).names@.contains(n) ==> final(self).names@ == old(self).names@,
            !old(self).names@.contains(n) ==> final(self).names@ == old(self).names@.push(n),
            forall|i: int| 0 <= i < old(self).names@.len() ==> #[trigger] final(self).forest.rep(i) == old(self).forest.rep(i),
            forall|m: usize| old(self).index@.contains_key(m) ==> #[trigger] final(self).index@[m] == old(self).index@[m],
    {
        match self.index.get(&n) {
            Some(j) => {
                let j = *j;
                proof {
                    let k = choose|k: int| 0 <= k < self.names@.len() && self.names@[k] == n;
                    assert(self.index@[self.names@[k]] == k);
                }
                j
            },
            None => {
                let ghost before = self.names@;
                let j = self.forest.push();
                self.names.push(n);
                self.index.insert(n, j);
                proof {
                    assert forall|m: usize| #[trigger] self.index@.contains_key(m) <==> self.names@.contains(m) by {
                        if before.contains(m) {
                            let k = choose|k: int| 0 <= k < before.len() && before[k] == m;
                            assert(self.names@[k] == m);
                        }
                        if self.names@.contains(m) && m != n {
                            let k = choose|k: int| 0 <= k < self.names@.len() && self.names@[k] == m;
                            assert(before[k] == m);
                        }
                        if m == n {
                            assert(self.names@[before.len() as int] == n);
                        }
                    }
                    assert forall|j2: int| 0 <= j2 < self.names@.len() implies #[trigger] self.index@[self.names@[j2]] == j2 by {
                        if j2 < before.len() {
                            assert(self.names@[j2] == before[j2]);
                            assert(before[j2] != n);
                        }
                    }
                    assert(self.names@.no_duplicates()) by {
                        assert forall|a: int, b: int| 0 <= a < self.names@.len() && 0 <= b < self.names@.len() && a != b implies self.names@[a] != self.names@[b] by {
                            if a == before.len() as int {
                                assert(before.contains(self.names@[b]) || b == a);
                            }
                            if b == before.len() as int {
                                assert(before.contains(self.names@[a]) || b == a);
                            }
                        }
                    }
                }
                j
            },
        }
    }

    /// Puts `this` and `that` in one class, naming them if they are new.
    pub fn join(&mut self, this: usize, that: usize)
        requires
            old(self).wf(),
            old(self).names().len() + 2 <= usize::MAX,
        ensures
            final(self).wf(),
            forall|n: usize| #[trigger] final(self).names().contains(n) <==> (old(self).names().contains(n)
                || n == this || n == that),
            forall|a: usize, b: usize|
                final(self).names().contains(a) && final(self).names().contains(b) ==> (
                #[trigger] final(self).same(a, b) <==> (old(self).linked(a, b) || (old(self).linked(a, this)
                    && old(self).linked(b, that)) || (old(self).linked(a, that) && old(self).linked(b, this)))),
            final(self).same(this, that),
    {
        let ghost orig = *self;
        let a = self.node(this);
        let ghost s1 = *self;
        let b = self.node(that);
        let ghost mid = *self;
        proof {
            assert(mid.names@[a as int] == this);
            assert forall|n: usize| #[trigger] mid.names@.contains(n) <==> (orig.names@.contains(n) || n == this || n == that) by {
                if mid.names@.contains(n) {
                    let k = choose|k: int| 0 <= k < mid.names@.len() && mid.names@[k] == n;
                    if k < orig.names@.len() {
                        assert(orig.names@[k] == n);
                    } else if k < s1.names@.len() {
                        assert(s1.names@[k] == n);
                    }
                }
                if orig.names@.contains(n) {
                    let k = choose|k: int| 0 <= k < orig.names@.len() && orig.names@[k] == n;
                    assert(mid.names@[k] == n);
                }
                if n == this {
                    assert(mid.names@[a as int] == n);
                }
                if n == that {
                    assert(mid.names@[b as int] == n);
                }
            }
            assert forall|u: usize| orig.index@.contains_key(u) implies #[trigger] mid.index@[u] == orig.index@[u] by {
                let k = choose|k: int| 0 <= k < orig.names@.len() && orig.names@[k] == u;
                assert(s1.names@[k] == u);
                assert(s1.index@.contains_key(u));
                assert(s1.index@[u] == orig.index@[u]);
            }
        }
        self.forest.join(a, b);
        proof {
            assert forall|j: usize| #[trigger] self.forest.touched().contains(j) <==> j < self.names@.len() by {
                if j < self.names@.len() && !(j == a || j == b) {
                    if j < orig.names@.len() {
                        assert(orig.forest.touched().contains(j));
                    } else {
                        assert(j == a || j == b);
                    }
                }
            }
            assert forall|n: usize| #[trigger] self.names().contains(n) <==> (orig.names().contains(n) || n == this || n == that) by {
                assert(mid.names@.contains(n) <==> (orig.names@.contains(n) || n == this || n == that));
            }
            assert forall|x: usize, y: usize|
                self.names().contains(x) && self.names().contains(y) implies (#[trigger] self.same(x, y) <==> (orig.linked(x, y) || (
                orig.linked(x, this) && orig.linked(y, that)) || (orig.linked(x, that) && orig.linked(y, this)))) by {
                let ix = self.index@[x] as int;
                let iy = self.index@[y] as int;
                let kx = choose|k: int| 0 <= k < self.names@.len() && self.names@[k] == x;
                let ky = choose|k: int| 0 <= k < self.names@.len() && self.names@[k] == y;
                assert(ix == kx && iy == ky);
                // representatives after the join
                assert(self.forest.rep(ix) == if mid.forest.rep(ix) == mid.forest.rep(a as int) { mid.forest.rep(b as int) } else { mid.forest.rep(ix) });
                assert(self.forest.rep(iy) == if mid.forest.rep(iy) == mid.forest.rep(a as int) { mid.forest.rep(b as int) } else { mid.forest.rep(iy) });
                // old links in terms of the middle forest
                assert forall|u: usize, v: usize| self.names().contains(u) && self.names().contains(v) implies (orig.linked(u, v) <==> mid.forest.rep(mid.index@[u] as int) == mid.forest.rep(mid.index@[v] as int)) by {
                    let ku = choose|k: int| 0 <= k < mid.names@.len() && mid.names@[k] == u;
                    let kv = choose|k: int| 0 <= k < mid.names@.len() && mid.names@[k] == v;
                    assert(mid.index@[u] == ku && mid.index@[v] == kv);
                    if orig.names@.contains(u) && orig.names@.contains(v) {
                        let ou = choose|k: int| 0 <= k < orig.names@.len() && orig.names@[k] == u;
                        let ov = choose|k: int| 0 <= k < orig.names@.len() && orig.names@[k] == v;
                        assert(orig.index@[u] == ou && orig.index@[v] == ov);
                        assert(orig.index@.contains_key(u));
                        assert(orig.index@.contains_key(v));
                        assert(mid.index@[u] == orig.index@[u]);
                        assert(mid.index@[v] == orig.index@[v]);
                    } else if u != v {
                        // a node named by this join is alone in its class
                        if !orig.names@.contains(u) {
                            assert(ku >= orig.names@.len());
                            mid.forest.lemma_fresh_alone(ku, kv);
                        } else {
                            assert(kv >= orig.names@.len());
                            mid.forest.lemma_fresh_alone(kv, ku);
                        }
                    }
                }
                assert(mid.index@[x] == ix && mid.index@[y] == iy);
                assert(mid.index@[this] == a && mid.index@[that] == b);
            }
        }
    }

    /// The named nodes, gathered by class.
    pub fn groups(&self) -> (r: Vec<Vec<usize>>)
        requires
            self.wf(),
        ensures
            is_partition(
                r@.map_values(|g: Vec<usize>| g@),
                self.names(),
                |a: int, b: int| self.same(a as usize, b as usize),
            ),
    {
        let raw = self.forest.groups();
        let mut out: Vec<Vec<usize>> = Vec::new();
        let mut g: usize = 0;
        while g < raw.len()
            invariant
                self.wf(),
                g <= raw@.len(),
                is_partition(
                    raw@.map_values(|g: Vec<usize>| g@),
                    self.forest.touched(),
                    |a: int, b: int| self.forest.same(a, b),
                ),
                out@.len() == g,
                forall|h: int| 0 <= h < g ==> #[trigger] out@[h]@ == raw@[h]@.map_values(
                    |j: usize| self.names@[j as int],
                ),
            decreases raw@.len() - g,
        {
            let mut one: Vec<usize> = Vec::new();
            let mut k: usize = 0;
            while k < raw[g].len()
                invariant
                    self.wf(),
                    g < raw@.len(),
                    k <= raw@[g as int]@.len(),
                    is_partition(
                        raw@.map_values(|g: Vec<usize>| g@),
                        self.forest.touched(),
                        |a: int, b: int| self.forest.same(a, b),
                    ),
                    one@ == raw@[g as int]@.take(k as int).map_values(|j: usize| self.names@[j as int]),
                decreases raw@[g as int]@.len() - k,
            {
                let j = raw[g][k];
                proof {
                    assert(raw@.map_values(|g: Vec<usize>| g@)[g as int] == raw@[g as int]@);
                    assert(self.forest.touched().contains(raw@.map_values(|g: Vec<usize>| g@)[g as int][k as int]));
                }
                one.push(self.names[j]);
                proof {
                    assert(raw@[g as int]@.take(k + 1) =~= raw@[g as int]@.take(k as int).push(j));
                    assert(raw@[g as int]@.take(k + 1).map_values(|j: usize| self.names@[j as int])
                        =~= raw@[g as int]@.take(k as int).map_values(|j: usize| self.names@[j as int]).push(self.names@[j as int]));
                }
                k = k + 1;
            }
            assert(raw@[g as int]@.take(raw@[g as int]@.len() as int) =~= raw@[g as int]@);
            out.push(one);
            g = g + 1;
        }
        proof {
            let gs = raw@.map_values(|g: Vec<usize>| g@);
            let os = out@.map_values(|g: Vec<usize>| g@);
            assert forall|h: int| 0 <= h < gs.len() implies #[trigger] os[h] == gs[h].map_values(|j: usize| self.names@[j as int]) by {
                assert(os[h] == out@[h]@);
            }
            assert forall|j1: usize, j2: usize|
                j1 < self.names@.len() && j2 < self.names@.len() implies ((|a: int, b: int| self.same(a as usize, b as usize))(
                    #[trigger] self.names@[j1 as int] as int,
                    #[trigger] self.names@[j2 as int] as int,
                ) <==> (|a: int, b: int| self.forest.same(a, b))(j1 as int, j2 as int)) by {
                assert(self.index@[self.names@[j1 as int]] == j1);
                assert(self.index@[self.names@[j2 as int]] == j2);
                assert(self.index@.contains_key(self.names@[j1 as int]));
                assert(self.index@.contains_key(self.names@[j2 as int]));
            }
            lemma_partition_renamed(
                gs,
                self.forest.touched(),
                |a: int, b: int| self.forest.same(a, b),
                self.names@,
                os,
                |a: int, b: int| self.same(a as usize, b as usize),
            );
        }
        out
    }
}

} // verus!
