use cc_core::game::calculate::{corner, corners, points_of, Corner};
use cc_core::game::direction::Direction;
use cc_core::game::group::{self, Group};
use cc_core::game::location::Point;
use cc_core::game::lookup::{Collision, Conflict, DisjointSet, Existence, Key};
use cc_core::game::cube::Movement;
use cc_core::game::near::Near;
use cc_core::game::unit::{Rect, Unibody, United};
use cc_core::game::vicinity::{Adjacence, Vicinity};
use cc_core::game::behavior::{create_behavior, create_behavior_from_behaviors, create_behavior_from_seed, Behavior, Movement as BMove};
use cc_core::game::seed::{Command, Movement as Order};

#[test]
fn point_near_steps_downwards_for_bottom() {
    let p = Point::new(3, 3);
    assert_eq!(p.near(Adjacence::BOTTOM), Point::new(3, 4));
    assert_eq!(p.near(Adjacence::LEFT_TOP), Point::new(2, 2));
    assert_eq!(p.near(Adjacence::RIGHT), Point::new(4, 3));
    assert_eq!(p.near(Adjacence::NONE), p);
    assert_eq!(Point::from(&(7, -2)), Point::new(7, -2));
}

#[test]
fn group_point_step_goes_up_for_top() {
    let p = group::Point::new(0, 0);
    assert_eq!(p.step(Direction::TOP), group::Point::new(0, 1));
    assert_eq!(p.step(Direction::RIGHT_BOTTOM), group::Point::new(1, -1));
    assert_eq!(p.step(Direction::LEFT_TOP), group::Point::new(-1, 1));
}

#[test]
fn vicinity_and_near_states() {
    let mut v = Vicinity::new();
    v.set(Adjacence::TOP);
    v.set(Adjacence::LEFT_BOTTOM);
    assert_eq!(v.states(), [false, false, true, false, false, false, false, true]);
    assert_eq!(v.0, 0b0010_0001);

    let mut n = Near::new();
    n.set(Direction::LEFT);
    assert_eq!(n.around(), [true, false, false, false, false, false, false, false]);
    assert_eq!(n.0, 0b1000_0000);
}

#[test]
fn group_marks_neighbours_upwards() {
    let g = Group::from(&[(0, 0), (0, 1), (1, 0)]);
    assert_eq!(g.units.len(), 3);
    let first = g.units[0].n;
    assert!(first.around()[2]); // top: (0, 1)
    assert!(first.around()[4]); // right: (1, 0)
    assert!(!first.around()[3]); // right top: (1, 1) is not in the group
    assert!(!first.around()[0]);
}

#[test]
fn existence_and_collision_lookups() {
    let e = Existence::new(&[Point::new(1, 2), Point::new(3, 4)]);
    assert!(e.has(Point::new(1, 2)));
    assert!(!e.has(Point::new(2, 1)));

    let mut c = Collision::new(&[(Point::new(0, 0), 1), (Point::new(0, 0), 2), (Point::new(5, 5), 7)]);
    assert_eq!(c.get(Point::new(0, 0)), Some(2));
    assert_eq!(c.get(Point::new(5, 5)), Some(7));
    assert_eq!(c.get(Point::new(1, 1)), None);
    c.put(Point::new(1, 1), 9);
    assert_eq!(c.get(Point::new(1, 1)), Some(9));
    let _ = Key::from(&Point::new(1, 1));
}

#[test]
fn conflict_reports_points_wanted_twice() {
    let mut c = Conflict::new();
    c.put(&[Point::new(1, 0), Point::new(2, 0)], Movement::Right, 4);
    c.put(&[Point::new(2, 0)], Movement::Left, 5);
    c.put(&[Point::new(1, 0)], Movement::Idle, 6);
    let o = c.overlaps();
    assert_eq!(o, vec![vec![(Movement::Left, 5), (Movement::Right, 4)]]);
}

#[test]
fn keyed_disjoint_set_groups_named_nodes() {
    let mut d = DisjointSet::new();
    d.join(100, 7);
    d.join(7, 3);
    d.join(42, 42);
    let mut groups: Vec<Vec<usize>> = d
        .groups()
        .into_iter()
        .map(|mut g| {
            g.sort();
            g
        })
        .collect();
    groups.sort();
    assert_eq!(groups, vec![vec![3, 7, 100], vec![42]]);
}

#[test]
fn united_moves_cells_to_the_origin() {
    let u = United::from(&[Point::new(5, 7), Point::new(6, 7), Point::new(5, 8)]);
    assert_eq!(u.rect, Rect { left: 5, right: 6, top: 7, bottom: 8 });
    assert_eq!(u.units[0].o, Point::new(0, 0));
    assert_eq!(u.units[1].o, Point::new(1, 0));
    assert_eq!(u.units[2].o, Point::new(0, 1));
    let s = u.units[0].v.states();
    assert!(s[4]); // right
    assert!(s[6]); // bottom
    assert!(!s[5]); // right bottom
    assert!(!s[0]);
}

#[test]
fn unibody_patterns() {
    let b = Unibody::from(&[(2, 2), (3, 2)]);
    assert_eq!(b.rect, Rect { left: 2, right: 3, top: 2, bottom: 2 });
    assert_eq!(b.units, vec![Point::new(0, 0), Point::new(1, 0)]);
    let p = b.calculate_patterns();
    assert_eq!(p.len(), 2);
    assert!(p[0].1.states()[4]);
    assert!(p[1].1.states()[0]);
    assert!(!p[1].1.states()[4]);
    let empty = United::new();
    assert_eq!(empty.rect, Rect::default());
}

fn command(is_loop: bool, movements: &[(i32, Order)]) -> Command {
    Command { is_loop, movements: movements.to_vec() }
}

#[test]
fn idle_behavior_moves_only_when_told() {
    let mut b = create_behavior();
    assert_eq!(b.get(), BMove::Idle);
    assert!(b.done());
    b.set(BMove::Left);
    assert_eq!(b.get(), BMove::Left);
    assert!(!b.done());
    b.next();
    assert_eq!(b.get(), BMove::Idle);
    assert!(b.done());
}

#[test]
fn behavior_from_seed_plays_its_list() {
    let mut b = create_behavior_from_seed(&command(false, &[(2, Order::Left), (1, Order::Up)]));
    assert_eq!(b.get(), BMove::Left);
    b.next();
    assert_eq!(b.get(), BMove::Left);
    b.next();
    assert_eq!(b.get(), BMove::Up);
    assert!(!b.done());
    b.next();
    assert_eq!(b.get(), BMove::Idle);
    assert!(b.done());
    b.next();
    assert!(b.done());
}

#[test]
fn looping_behavior_starts_over() {
    let mut b = create_behavior_from_seed(&command(true, &[(1, Order::Right), (1, Order::Down)]));
    assert_eq!(b.get(), BMove::Right);
    b.next();
    assert_eq!(b.get(), BMove::Down);
    b.next();
    assert_eq!(b.get(), BMove::Right);
    assert!(!b.done());
}

#[test]
fn a_set_movement_lasts_one_turn() {
    let mut b = create_behavior_from_seed(&command(false, &[(2, Order::Left)]));
    b.set(BMove::Up);
    assert_eq!(b.get(), BMove::Up);
    b.next();
    assert_eq!(b.get(), BMove::Left);
    b.next();
    assert!(b.done());
}

#[test]
fn team_moves_as_its_members_agree() {
    let one = create_behavior_from_seed(&command(false, &[(2, Order::Left)]));
    let two = create_behavior_from_seed(&command(false, &[(1, Order::Left), (1, Order::Up)]));
    let mut team = create_behavior_from_behaviors(vec![one, two]);
    assert_eq!(team.get(), BMove::Left);
    team.next();
    // one still goes left, two goes up
    assert_eq!(team.get(), BMove::Idle);
    assert!(!team.done());
    team.next();
    assert!(team.done());
    assert_eq!(team.get(), BMove::Idle);
    team.set(BMove::Right);
    assert_eq!(team.get(), BMove::Idle);
}

#[test]
fn team_drops_members_that_ended() {
    let one = create_behavior_from_seed(&command(false, &[(3, Order::Down)]));
    let two = create_behavior_from_seed(&command(false, &[(1, Order::Down)]));
    let mut team = create_behavior_from_behaviors(vec![one, two]);
    team.next();
    assert_eq!(team.get(), BMove::Down);
    team.set(BMove::Left);
    assert_eq!(team.get(), BMove::Left);
    team.next();
    assert_eq!(team.get(), BMove::Down);
    assert!(!team.done());
}

#[test]
fn done_behavior_never_moves() {
    let mut b = Behavior::Done;
    assert!(b.done());
    b.set(BMove::Left);
    assert_eq!(b.get(), BMove::Idle);
    b.next();
    assert!(b.done());
    let empty = create_behavior_from_behaviors(Vec::new());
    assert!(empty.done());
    assert_eq!(empty.get(), BMove::Idle);
}

#[test]
fn conflict_keeps_the_last_cube_from_each_side_in_side_order() {
    let mut c = Conflict::new();
    c.put(&[Point::new(3, 3)], Movement::Right, 1);
    c.put(&[Point::new(3, 3)], Movement::Left, 2);
    c.put(&[Point::new(3, 3)], Movement::Left, 7);
    c.put(&[Point::new(3, 3), Point::new(4, 4)], Movement::Down, 8);
    c.put(&[Point::new(4, 4)], Movement::Idle, 9);
    c.put(&[Point::new(5, 5)], Movement::Up, 10);
    let o = c.overlaps();
    assert_eq!(o, vec![vec![(Movement::Left, 7), (Movement::Down, 8), (Movement::Right, 1)]]);
}

#[test]
fn group_point_steps_that_fit_at_the_edge() {
    let p = group::Point::new(i32::MAX, i32::MIN);
    assert_eq!(p.step(Direction::LEFT), group::Point::new(i32::MAX - 1, i32::MIN));
    assert_eq!(p.step(Direction::TOP), group::Point::new(i32::MAX, i32::MIN + 1));
    assert_eq!(p.step(Direction::LEFT_TOP), group::Point::new(i32::MAX - 1, i32::MIN + 1));
    let q = group::Point::new(5, -2);
    assert_eq!(q.step(Direction::LEFT).step(Direction::RIGHT), q);
    assert_eq!(q.step(Direction::TOP).step(Direction::BOTTOM), q);
}

#[test]
fn corners_follow_the_neighbours_around() {
    assert_eq!(corner(true, true, true), Corner::Outer);
    assert_eq!(corner(true, false, true), Corner::Notch);
    assert_eq!(corner(true, true, false), Corner::First);
    assert_eq!(corner(false, true, true), Corner::Last);
    assert_eq!(corner(false, true, false), Corner::Inner);
    assert_eq!(points_of(Corner::Notch), vec![0, 1, 2]);
    let mut v = Vicinity::new();
    v.set(Adjacence::LEFT);
    v.set(Adjacence::LEFT_TOP);
    v.set(Adjacence::TOP);
    assert_eq!(corners(&v), [Corner::Outer, Corner::First, Corner::Inner, Corner::Last]);
}
