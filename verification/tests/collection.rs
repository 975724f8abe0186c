use cc_core::common::neighborhood::{Adjacence, Neighborhood};
use cc_core::common::point::Point;
use cc_core::refactor::cube::{Area, Arena, ArenaResult, Collection, Cube, Moving, Outlines, Unit};
use cc_core::refactor::kind::Kind;
use cc_core::refactor::motion::Motion;
use cc_core::refactor::movement::{Constraint, Movement};

fn cube(index: usize, kind: Kind, cells: &[(i32, i32)], movement: Option<Movement>, constraint: Constraint) -> Cube {
    let units: Vec<Unit> = cells
        .iter()
        .map(|&(x, y)| Unit { index, position: Point::new(x, y), neighborhood: Neighborhood::new() })
        .collect();
    let outlines = Outlines::new(&units);
    Cube {
        index,
        kind,
        units,
        motion: Motion::from_sequence(false, &[(movement, 1)]),
        outlines,
        balanced: false,
        movement,
        constraint,
    }
}

fn board(cubes: Vec<Cube>) -> Collection {
    Collection::new(Area::new(8, 8, &[]), cubes)
}

#[test]
fn cube_predicates() {
    let r = cube(0, Kind::Red, &[(0, 0)], None, Constraint::Free);
    let g = cube(1, Kind::Green, &[(1, 0)], None, Constraint::Free);
    let w = cube(2, Kind::White, &[], None, Constraint::Free);
    assert!(r.alive());
    assert!(!w.alive());
    assert!(r.unstable());
    assert!(!w.unstable());
    assert!(r.absorbable(&g));
    assert!(!g.absorbable(&r));
    assert!(r.mergeable(&g) && g.mergeable(&r));
    assert!(!r.linkable(&g));
    assert!(r.same_movement(&g));
}

#[test]
fn input_moves_green_cubes_only() {
    let mut c = board(vec![
        cube(0, Kind::Green, &[(0, 0)], None, Constraint::Free),
        cube(1, Kind::Red, &[(1, 0)], None, Constraint::Free),
    ]);
    c.input(Some(Movement::Up));
    let mut a = Arena::new(&c);
    assert!(a.input(0));
    assert_eq!(a.output(), ArenaResult::Pure(Kind::Red));
    assert!(a.input(1));
    assert_eq!(a.output(), ArenaResult::Have(Kind::Red));
    assert!(a.input(7));
    assert_eq!(c.number_of_cubes(), 2);
}

#[test]
fn arena_results() {
    let c = board(vec![
        cube(0, Kind::Red, &[(0, 0)], None, Constraint::Free),
        cube(1, Kind::Blue, &[(1, 0)], None, Constraint::Free),
        cube(2, Kind::Green, &[(2, 0)], None, Constraint::Free),
        cube(3, Kind::White, &[(3, 0)], None, Constraint::Free),
    ]);
    let mut a = Arena::new(&c);
    assert_eq!(a.output(), ArenaResult::Nothing);
    assert!(a.input(3));
    assert_eq!(a.output(), ArenaResult::Nothing);
    assert!(a.input(1));
    assert_eq!(a.output(), ArenaResult::Pure(Kind::Blue));
    assert!(a.input(0));
    assert_eq!(a.output(), ArenaResult::Have(Kind::Blue));
    assert!(!a.input(2));
    assert_eq!(a.output(), ArenaResult::Draw);
    assert_eq!(Arena::kind_to_index(Kind::Green), Some(2));
    assert_eq!(Arena::kind_to_index(Kind::White), None);
}

#[test]
fn bury_drops_empty_cubes_and_renumbers() {
    let mut c = board(vec![
        cube(0, Kind::Red, &[(0, 0)], None, Constraint::Free),
        cube(1, Kind::Red, &[], None, Constraint::Free),
        cube(2, Kind::Blue, &[(2, 0)], None, Constraint::Free),
        cube(3, Kind::Green, &[(3, 0)], None, Constraint::Free),
    ]);
    c.bury();
    assert_eq!(c.number_of_cubes(), 3);
    let mut a = Arena::new(&c);
    a.input(1);
    assert_eq!(a.output(), ArenaResult::Pure(Kind::Blue));
}

#[test]
fn link_into_first_merges_cells_and_settles_movement() {
    let mut c = board(vec![
        cube(0, Kind::Red, &[(0, 0)], Some(Movement::Left), Constraint::Lock),
        cube(1, Kind::Green, &[(1, 0)], Some(Movement::Right), Constraint::Stop),
        cube(2, Kind::Red, &[(0, 1)], Some(Movement::Left), Constraint::Pong),
    ]);
    c.link_into_first(&[2, 0, 1], Kind::Red);
    c.mark_balanced(&[1]);
    c.bury();
    // cube 2 took every cell; cubes 0 and 1 were left empty and are gone
    assert_eq!(c.number_of_cubes(), 1);
    let mut a = Arena::new(&c);
    a.input(0);
    assert_eq!(a.output(), ArenaResult::Pure(Kind::Green));
}

#[test]
fn moving_needs_cells_and_a_movement() {
    let a = cube(0, Kind::Red, &[(1, 1)], Some(Movement::Left), Constraint::Free);
    let b = cube(1, Kind::Red, &[(1, 1)], None, Constraint::Free);
    let e = cube(2, Kind::Red, &[], Some(Movement::Left), Constraint::Free);
    assert!(Moving::new(&b).is_none());
    assert!(Moving::new(&e).is_none());
    let m = Moving::new(&a).unwrap();
    assert_eq!(m.frontlines(), vec![Point::new(0, 1)]);
    let _ = Adjacence::LEFT;
}

fn frozen_board(frozen: &[(i32, i32)], cubes: Vec<Cube>) -> Collection {
    let cells: Vec<Point> = frozen.iter().map(|&(x, y)| Point::new(x, y)).collect();
    Collection::new(Area::new(8, 8, &[cells]), cubes)
}

#[test]
fn stopping_leaves_a_free_cube_alone() {
    let mut c = board(vec![cube(0, Kind::Green, &[(1, 1)], Some(Movement::Right), Constraint::Free)]);
    let followers = c.perform_stopping();
    assert_eq!(c.cube_at(0).constraint, Constraint::Free);
    assert!(followers.children(0).is_empty());
}

#[test]
fn stopping_spreads_from_a_wall_to_followers() {
    // cube 0 runs into the frozen cell at (2, 0); cube 1 follows it, going its way
    let mut c = frozen_board(
        &[(2, 0)],
        vec![
            cube(0, Kind::Green, &[(1, 0)], Some(Movement::Right), Constraint::Free),
            cube(1, Kind::Green, &[(0, 0)], Some(Movement::Right), Constraint::Free),
        ],
    );
    let followers = c.perform_stopping();
    assert_eq!(followers.children(0), vec![1]);
    assert!(followers.children(1).is_empty());
    // both stopped; tied as followers of one colour, green alone, so linked into one
    assert_eq!(c.cube_at(0).constraint, Constraint::Stop);
    assert_eq!(c.cube_at(1).constraint, Constraint::Stop);
    let sizes = (c.cube_at(0).units.len(), c.cube_at(1).units.len());
    assert!(sizes == (2, 0) || sizes == (0, 2));
}

#[test]
fn stopping_halts_cubes_that_clash() {
    let mut c = board(vec![
        cube(0, Kind::Red, &[(0, 0)], Some(Movement::Right), Constraint::Free),
        cube(1, Kind::Blue, &[(1, 0)], Some(Movement::Left), Constraint::Free),
    ]);
    let followers = c.perform_stopping();
    assert_eq!(c.cube_at(0).constraint, Constraint::Stop);
    assert_eq!(c.cube_at(1).constraint, Constraint::Stop);
    assert_eq!(c.cube_at(0).units.len(), 1);
    assert_eq!(c.cube_at(1).units.len(), 1);
    assert_eq!(c.cube_at(0).kind, Kind::Red);
    assert!(followers.children(0).is_empty() && followers.children(1).is_empty());
}

#[test]
fn stopping_links_a_cube_with_one_of_its_colour_in_its_way() {
    let mut c = board(vec![
        cube(0, Kind::Red, &[(0, 0)], Some(Movement::Right), Constraint::Free),
        cube(1, Kind::Red, &[(1, 0)], None, Constraint::Free),
        cube(2, Kind::Blue, &[(5, 5)], Some(Movement::Up), Constraint::Free),
    ]);
    let _ = c.perform_stopping();
    assert_eq!(c.cube_at(0).constraint, Constraint::Stop);
    assert_eq!(c.cube_at(1).constraint, Constraint::Stop);
    assert_eq!(c.cube_at(2).constraint, Constraint::Free);
    let sizes = (c.cube_at(0).units.len(), c.cube_at(1).units.len());
    assert!(sizes == (2, 0) || sizes == (0, 2));
    // a group of red alone comes to `Pure(Green)`, the colour it is linked as
    let first = if sizes.0 == 2 { 0 } else { 1 };
    assert_eq!(c.cube_at(first).kind, Kind::Green);
    assert_eq!(c.cube_at(2).units.len(), 1);
}

#[test]
fn absorbing_links_a_green_cube_into_the_red_one_beside_it() {
    let mut c = board(vec![
        cube(0, Kind::Red, &[(0, 0)], None, Constraint::Free),
        cube(1, Kind::Green, &[(1, 0)], None, Constraint::Free),
    ]);
    c.absorb();
    // red absorbs green: the group comes to `Have(Red)` and is linked, as red, into
    // whichever of its cubes comes first
    let sizes = (c.cube_at(0).units.len(), c.cube_at(1).units.len());
    assert!(sizes == (2, 0) || sizes == (0, 2));
    let first = if sizes.0 == 2 { 0 } else { 1 };
    assert_eq!(c.cube_at(first).kind, Kind::Red);
    // no cell is lost or made
    assert_eq!(c.number_of_cubes(), 2);
    assert_eq!(sizes.0 + sizes.1, 2);
}

#[test]
fn absorbing_balances_three_colours_that_meet() {
    let mut c = board(vec![
        cube(0, Kind::Red, &[(0, 0)], None, Constraint::Free),
        cube(1, Kind::Blue, &[(1, 0)], None, Constraint::Free),
        cube(2, Kind::Green, &[(2, 0)], None, Constraint::Free),
    ]);
    c.absorb();
    for k in 0..3 {
        assert!(c.cube_at(k).balanced);
        assert!(!c.cube_at(k).unstable());
        assert_eq!(c.cube_at(k).units.len(), 1);
    }
}

#[test]
fn absorbing_leaves_cubes_apart_and_cubes_of_one_colour_alone() {
    let mut c = board(vec![
        cube(0, Kind::Red, &[(0, 0)], None, Constraint::Free),
        cube(1, Kind::Green, &[(5, 5)], None, Constraint::Free),
        cube(2, Kind::Blue, &[(3, 3)], None, Constraint::Free),
        cube(3, Kind::Blue, &[(3, 4)], None, Constraint::Free),
    ]);
    c.absorb();
    for k in 0..4 {
        assert_eq!(c.cube_at(k).units.len(), 1);
        assert!(!c.cube_at(k).balanced);
    }
    assert_eq!(c.cube_at(2).kind, Kind::Blue);
    assert_eq!(c.cube_at(3).kind, Kind::Blue);
}

#[test]
fn absorbing_leaves_balanced_and_white_cubes_as_they_were() {
    let mut green = cube(1, Kind::Green, &[(1, 0)], None, Constraint::Free);
    green.balanced = true;
    let mut c = board(vec![
        cube(0, Kind::Red, &[(0, 0)], None, Constraint::Free),
        green,
        cube(2, Kind::White, &[(0, 1)], None, Constraint::Free),
    ]);
    c.absorb();
    assert_eq!(c.number_of_cubes(), 3);
    assert_eq!(c.cube_at(1).units.len(), 1);
    assert!(c.cube_at(1).balanced);
    assert_eq!(c.cube_at(1).kind, Kind::Green);
    assert_eq!(c.cube_at(2).units.len(), 1);
    assert_eq!(c.cube_at(2).kind, Kind::White);
    assert_eq!(c.cube_at(0).units.len(), 1);
}
