use std::sync::Arc;

use cc_core::common::neighborhood::{Adjacence, Neighborhood};
use cc_core::common::point::Point;
use cc_core::model::background::Background;
use cc_core::model::cache::Borders;
use cc_core::model::collection::{mappings, BasicCube, Collection, Head, Mapping, Outlines, Source, Unit};
use cc_core::model::motion::Motion;
use cc_core::model::movement::{Action, Restriction};
use cc_core::model::lookup::DisjointSet;
use cc_core::model::movement::Movement;
use cc_core::model::types::Kind;
use cc_core::refactor::kind::Kind as Colour;
use cc_core::refactor::movement::Constraint;
use cc_core::rule::frozen::Frozen;
use cc_core::rule::item::Item;
use cc_core::rule::snapshot::{changes, Snapshot};

#[test]
fn background_blocks_its_cells_and_numbers_them() {
    let bg = Background::new(&[vec![Point::new(0, 0), Point::new(0, 1)], vec![Point::new(4, 4)]]);
    assert!(bg.blocked(Point::new(0, 1)));
    assert!(bg.blocked(Point::new(4, 4)));
    assert!(!bg.blocked(Point::new(1, 1)));
    let mut it = bg.iter(3);
    let first = it.next().unwrap();
    assert_eq!(first.id, 3);
    assert_eq!(first.kind, Kind::White);
    assert!(first.neighborhood.has(Adjacence::BOTTOM));
    let second = it.next().unwrap();
    assert!(second.neighborhood.has(Adjacence::TOP));
    let third = it.next().unwrap();
    assert_eq!(third.id, 5);
    assert!(it.next().is_none());
}

#[test]
fn borders_group_units_by_bordered_side() {
    let b = Borders::new(&[
        (0, Neighborhood::from(&[Adjacence::LEFT, Adjacence::TOP])),
        (1, Neighborhood::from(&[Adjacence::RIGHT])),
        (2, Neighborhood::from(&[Adjacence::LEFT])),
    ]);
    assert_eq!(b.get(Some(Movement::Left)), &[0, 2]);
    assert_eq!(b.get(Some(Movement::Down)), &[] as &[usize]);
    assert_eq!(b.get(Some(Movement::Up)), &[0]);
    assert_eq!(b.get(Some(Movement::Right)), &[1]);
    assert_eq!(b.get(None), &[0, 2, 0, 1]);
}

#[test]
fn model_outlines_keep_opposite_offsets() {
    let units = [
        Unit { head: 0, position: Point::new(2, 2), neighborhood: Neighborhood::from(&[Adjacence::RIGHT]) },
        Unit { head: 0, position: Point::new(3, 2), neighborhood: Neighborhood::from(&[Adjacence::LEFT]) },
    ];
    let outlines = Outlines::new(&units, &[0, 1]);
    let anchor = Outlines::anchor(Some(0), &units);
    assert_eq!(anchor, Point::new(2, 2));
    // each offset is first + side - position, so the cells come out mirrored
    assert_eq!(outlines.one(anchor, Movement::Left), vec![Point::new(3, 2)]);
    assert_eq!(outlines.one(anchor, Movement::Right), vec![Point::new(2, 2)]);
    assert_eq!(outlines.one(anchor, Movement::Up).len(), 2);
    assert_eq!(outlines.all(anchor).len(), 6);
    assert_eq!(Outlines::anchor(Some(9), &units), Point::new(0, 0));
    assert_eq!(Outlines::anchor(None, &units), Point::new(0, 0));
}

fn item(id: usize, kind: Colour, x: i32) -> Item {
    Item {
        id,
        kind,
        position: Point::new(x, 0),
        movement: None,
        constraint: Constraint::Free,
        neighborhood: Neighborhood::new(),
    }
}

#[test]
fn frozen_and_snapshot() {
    let frozen = Frozen::new(4, 2, &[vec![Point::new(0, 1), Point::new(1, 1)]]);
    assert_eq!(frozen.len(), 2);
    assert!(frozen.blocked(Point::new(1, 1)));
    assert!(frozen.blocked(Point::new(4, 0)));
    assert!(!frozen.blocked(Point::new(2, 1)));
    let cells = frozen.iter();
    assert!(cells[0].1.has(Adjacence::RIGHT));

    let frozen = Arc::new(frozen);
    let a = Snapshot::new(vec![item(0, Colour::Red, 2), item(1, Colour::Blue, 3)], frozen.clone());
    let b = Snapshot::new(vec![item(0, Colour::Red, 2), item(1, Colour::Green, 3)], frozen.clone());
    assert!(a.contains(Point::new(3, 0)));
    assert!(a.contains(Point::new(0, 1)));
    assert!(!a.contains(Point::new(1, 0)));

    assert!(a.differ(&a).is_empty());
    let d = a.differ(&b);
    assert_eq!(d.len(), 1);
    assert_eq!(d[0].id, 1);
    assert_eq!(d[0].kind, Some(Colour::Green));
    assert_eq!(d[0].position, None);

    let c = Snapshot::new(vec![item(0, Colour::Red, 2)], frozen.clone());
    assert!(a.differ(&c).is_empty());
    let other = Arc::new(Frozen::new(4, 2, &[]));
    let e = Snapshot::new(vec![item(0, Colour::Red, 2), item(1, Colour::Green, 3)], other);
    assert!(a.differ(&e).is_empty());

    let mut it = a.iter();
    assert_eq!(it.size_hint(), (4, Some(4)));
    assert_eq!(it.next().unwrap().id, 0);
    assert_eq!(it.size_hint(), (3, Some(3)));
    assert_eq!(it.next().unwrap().id, 1);
    let f = it.next().unwrap();
    assert_eq!(f.id, 2);
    assert_eq!(f.kind, Colour::White);
    assert_eq!(f.position, Point::new(0, 1));
    assert_eq!(it.next().unwrap().id, 3);
    assert_eq!(it.size_hint(), (0, Some(0)));
    assert!(it.next().is_none());
    assert_eq!(it.size_hint(), (0, Some(0)));
}

#[test]
fn changes_need_comparable_lists() {
    let l = vec![item(0, Colour::Red, 0)];
    let r = vec![item(5, Colour::Red, 1)];
    let d = changes(&l, &r, true);
    assert_eq!(d.len(), 1);
    assert_eq!(d[0].id, 5);
    assert_eq!(d[0].position, Some(Point::new(1, 0)));
    assert!(changes(&l, &r, false).is_empty());
    assert!(changes(&l, &[], true).is_empty());
}

#[test]
fn mappings_copy_every_head_without_groups() {
    let kinds = vec![Kind::Green, Kind::Red, Kind::White];
    let groups = DisjointSet::new(3).groups();
    let ms = mappings(&kinds, &groups);
    assert_eq!(ms.len(), 3);
    for (i, m) in ms.iter().enumerate() {
        assert_eq!(*m, Mapping { moving: false, source: Source::Copy { head: i } });
    }
}

#[test]
fn mappings_link_groups_and_pack() {
    let kinds = vec![Kind::Green, Kind::Red, Kind::White, Kind::Blue, Kind::Green];
    let mut set = DisjointSet::new(5);
    set.join(0, 1);
    set.join(3, 4);
    let ms = mappings(&kinds, &set.groups());
    assert_eq!(
        ms,
        vec![
            Mapping { moving: true, source: Source::Link { head: 3, tail: vec![4] } },
            Mapping { moving: false, source: Source::Link { head: 1, tail: vec![0] } },
            Mapping { moving: false, source: Source::Copy { head: 2 } },
        ]
    );
}

#[test]
fn mappings_leave_a_group_without_leader() {
    // white absorbs nothing, so a white-only group has no leader
    let kinds = vec![Kind::White, Kind::White];
    let mut set = DisjointSet::new(2);
    set.join(0, 1);
    let ms = mappings(&kinds, &set.groups());
    assert_eq!(
        ms,
        vec![
            Mapping { moving: false, source: Source::Copy { head: 0 } },
            Mapping { moving: false, source: Source::Copy { head: 1 } },
        ]
    );
}

fn unit_at(head: usize, x: i32, y: i32) -> Unit {
    Unit { head, position: Point::new(x, y), neighborhood: Neighborhood::new() }
}

fn head_of(units: &[Unit], kind: Kind, ids: Vec<usize>, motion: Motion) -> Head {
    let outlines = Outlines::new(units, &ids);
    Head { kind, units: ids, motion, action: None, outlines }
}

fn small_board() -> Collection {
    let units = vec![unit_at(0, 0, 0), unit_at(1, 1, 0), unit_at(2, 5, 5)];
    let heads = vec![
        head_of(&units, Kind::Green, vec![0], Motion::new()),
        head_of(&units, Kind::Red, vec![1], Motion::from_sequence(false, &[(Some(Movement::Right), 2)])),
        head_of(&units, Kind::Blue, vec![2], Motion::new()),
    ];
    Collection::new(units, heads)
}

#[test]
fn transform_without_groups_keeps_every_cube() {
    let c = small_board();
    let r = c.transform(DisjointSet::new(3), None);
    assert_eq!(r.number_of_cubes(), 3);
    assert_eq!(r.head(1).kind, Kind::Red);
    assert_eq!(r.unit(1).position, Point::new(1, 0));
    assert_eq!(r.owner_at(Point::new(5, 5)), Some(2));
}

#[test]
fn transform_links_a_group_into_its_leader_and_packs() {
    let c = small_board();
    let mut set = DisjointSet::new(3);
    set.join(0, 1);
    let r = c.transform(set, None);
    // red absorbs green, so cube 1 leads; cube 2 takes the place left by cube 0
    assert_eq!(r.number_of_cubes(), 2);
    assert_eq!(r.head(0).kind, Kind::Blue);
    assert_eq!(r.head(0).units, vec![2]);
    assert_eq!(r.head(1).kind, Kind::Red);
    assert_eq!(r.head(1).units, vec![1, 0]);
    // the linked cells belong to the leader and see each other
    assert_eq!(r.unit(0).head, 1);
    assert_eq!(r.unit(1).head, 1);
    assert!(r.unit(1).neighborhood.has(Adjacence::LEFT));
    assert!(r.unit(0).neighborhood.has(Adjacence::RIGHT));
    assert!(!r.unit(0).neighborhood.has(Adjacence::LEFT));
    assert_eq!(r.owner_at(Point::new(0, 0)), Some(1));
    // no cell is lost
    assert_eq!(r.number_of_units(), 3);
}

#[test]
fn transform_takes_the_turn_of_each_cube() {
    let c = small_board();
    let actions = vec![None, Some(Action::new(Movement::Right, Restriction::Free)), Some(Action::new(Movement::Up, Restriction::Stop))];
    let r = c.transform(DisjointSet::new(3), Some(&actions));
    assert_eq!(r.number_of_cubes(), 3);
    assert_eq!(r.head(1).action, Some(Action::new(Movement::Right, Restriction::Free)));
    assert_eq!(r.head(2).action, Some(Action::new(Movement::Up, Restriction::Stop)));
    // a free action moves the cells a step; a stopped one does not
    assert_eq!(r.unit(1).position, Point::new(2, 0));
    assert_eq!(r.unit(2).position, Point::new(5, 5));
    assert_eq!(r.owner_at(Point::new(2, 0)), Some(1));
}

#[test]
fn collected_cubes_know_their_kind_and_neighbours() {
    let c = small_board();
    let seen = c.getter(Some(Movement::Up));
    assert_eq!(seen.input, Some(Movement::Up));
    assert_eq!(seen.number_of_cubes(), 3);
    assert_eq!(seen.number_of_units(), 3);
    let cubes = seen.cubes();
    assert_eq!(cubes.len(), 3);
    assert_eq!(cubes[2].index(), 2);
    assert_eq!(cubes[1].kind(), Kind::Red);
    assert!(cubes[0].unstable());
    assert!(cubes[1].absorbable(&cubes[0]));
    assert!(cubes[1].absorbable_actively(&cubes[0]));
    assert!(!cubes[0].absorbable(&cubes[1]));
    let mut around = seen.cube(0).outlines();
    around.sort_by_key(|p| (p.x, p.y));
    assert_eq!(around, vec![Point::new(-1, 0), Point::new(0, -1), Point::new(0, 1), Point::new(1, 0)]);
    let next = seen.cube(0).neighbors();
    assert_eq!(next.len(), 1);
    assert_eq!(next[0].index(), 1);
    assert!(seen.cube(2).neighbors().is_empty());
}

#[test]
fn collected_cubes_try_their_movement_for_the_turn() {
    let c = small_board();
    let quiet = c.getter(None);
    assert_eq!(quiet.cube(0).movable(), None);
    assert_eq!(quiet.cube(1).movable(), Some(Movement::Right));
    assert_eq!(quiet.cube(2).movable(), None);
    assert!(quiet.cube(0).into_movable().is_none());
    let m = quiet.cube(1).into_movable().unwrap();
    assert_eq!(m.movement(), Movement::Right);
    assert_eq!(m.index(), 1);
    assert_eq!(m.outlines_in_front().len(), 1);
    assert!(m.neighbors_in_front().len() <= 1);

    let told = c.getter(Some(Movement::Up));
    // only a blue cube takes the input
    assert_eq!(told.cube(2).movable(), Some(Movement::Up));
    assert_eq!(told.cube(1).movable(), Some(Movement::Right));
}

#[test]
fn motion_current_peeks_without_moving_on() {
    let mut a = Motion::from_sequence(false, &[(None, 1), (Some(Movement::Up), 1)]);
    assert_eq!(a.current(), None);
    assert_eq!(a.current(), None);
    assert_eq!(a.next(), Some(None));
    assert_eq!(a.current(), Some(Movement::Up));
    assert_eq!(a.next(), Some(Some(Movement::Up)));
    assert_eq!(a.current(), None);
    assert_eq!(a.next(), None);
    assert_eq!(Motion::new().current(), None);
}
