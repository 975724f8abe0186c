use std::collections::HashSet;

use cc_core::common::neighborhood::Adjacence;
use cc_core::common::point::Point;
use cc_core::model::lookup::{Conflict, DisjointSet};
use cc_core::model::movement::Movement;
use cc_core::refactor::lookup::{BitmapCollision, Collision, CollisionExtension, HashSetCollision};
use cc_core::rule::lookup as rule;
use cc_core::rule::lookup::Collision as RuleCollision;

#[test]
fn empty_conflict() {
    let lookup = Conflict::with_capacity(0);
    assert_eq!(lookup.overlaps().len(), 0);
}

#[test]
fn basic_conflict() {
    let cases = [(
        vec![
            (1usize, Movement::Right, vec![(1, 0), (1, 1)]),
            (2usize, Movement::Up, vec![(1, 0)]),
            (3usize, Movement::Left, vec![(1, 0)]),
            (4usize, Movement::Left, vec![(1, 1)]),
        ],
        vec![
            vec![(1usize, Movement::Right), (4usize, Movement::Left)],
            vec![(1usize, Movement::Right), (2usize, Movement::Up), (3usize, Movement::Left)],
        ],
    )];

    for (i, (input, output)) in cases.into_iter().enumerate() {
        let mut lookup = Conflict::with_capacity(input.len());
        for (id, movement, points) in input {
            let points: Vec<Point> = points.into_iter().map(Point::from).collect();
            lookup.put(id, movement, &points);
        }

        let expect: HashSet<Vec<(usize, Movement)>> = HashSet::from_iter(output.iter().cloned());
        let actual = lookup
            .overlaps()
            .into_iter()
            .map(|mut v| {
                v.sort_by_key(|x| x.0);
                v
            })
            .collect::<HashSet<_>>();

        assert_eq!(expect, actual, "case {}", i);
    }
}

#[test]
fn empty_disjoint_set() {
    let lookup = DisjointSet::new(0);
    let groups = lookup.groups();
    assert!(groups.iter().next().is_none());
}

#[test]
fn basic_disjoint_set() {
    let cases = [
        (
            10,
            vec![(1, 3), (7, 9), (5, 7), (9usize, 3usize)],
            vec![vec![1, 3, 5, 7, 9usize]],
        ),
        (
            10,
            vec![(6, 1), (3, 1), (9, 1), (0, 2)],
            vec![vec![0, 2], vec![1, 3, 6, 9]],
        ),
    ];

    for (i, case) in cases.into_iter().enumerate() {
        let mut lookup = DisjointSet::new(case.0);
        for link in case.1 {
            lookup.join(link.0, link.1);
        }

        let groups = lookup.groups();
        let mut iter = groups.iter();
        let mut out = Vec::new();
        while let Some(mut x) = iter.next() {
            x.sort();
            out.push(x);
        }
        out.sort_by_key(|x| x.iter().copied().min());

        assert_eq!(case.2, out, "case {}", i);
    }
}

fn case<C: Collision>(mut it: C, tag: &'static str) {
    let put = [(1, 1), (1, 2), (4, 2)].map(Point::from);
    let not = [(-1, -1), (0, 0), (1, 0), (0, 1), (1, 4)].map(Point::from);

    for o in put {
        it.put(o);
    }
    for o in put {
        assert!(it.hit(o), "{} {:?}", tag, o);
    }
    for o in not {
        assert!(!it.hit(o), "{} {:?}", tag, o);
    }
}

fn rule_case<C: RuleCollision>(mut it: C, tag: &'static str) {
    let put = [(1, 1), (1, 2), (4, 2)].map(Point::from);
    let not = [(-1, -1), (0, 0), (1, 0), (0, 1), (1, 11)].map(Point::from);

    for o in put {
        it.put(o);
    }
    for o in put {
        assert!(it.occupied(o), "{} {:?}", tag, o);
    }
    for o in not {
        assert!(!it.occupied(o), "{} {:?}", tag, o);
    }
}

#[test]
fn lookup_collisions() {
    case(BitmapCollision::new(5, 3), "5x3 bitmap");
    case(BitmapCollision::new(10, 10), "10x10 bitmap");
    case(HashSetCollision::new(&[]), "hashset");

    rule_case(rule::BitmapCollision::new(5, 3), "5x3 bitmap");
    rule_case(rule::BitmapCollision::new(10, 10), "10x10 bitmap");
    rule_case(rule::HashSetCollision::new(&[]), "hashset");
}

#[test]
fn disjoint_set() {
    let cases = [
        (0, vec![], vec![]),
        (
            10,
            vec![(1, 3), (7, 9), (5, 7), (9usize, 3usize)],
            vec![vec![1, 3, 5, 7, 9usize]],
        ),
        (
            10,
            vec![(6, 1), (3, 1), (9, 1), (0, 2)],
            vec![vec![0, 2], vec![1, 3, 6, 9]],
        ),
    ];

    for (i, case) in cases.into_iter().enumerate() {
        let mut lookup = rule::DisjointSet::new(case.0);
        for link in case.1 {
            lookup.join(link.0, link.1);
        }

        let mut out = lookup
            .groups()
            .into_iter()
            .map(|mut x| {
                x.sort();
                x
            })
            .collect::<Vec<_>>();
        out.sort_by_key(|x| x.iter().copied().min());

        assert_eq!(case.2, out, "case {}", i);
    }
}

#[test]
fn bitmap_keeps_points_outside_out() {
    let mut it = BitmapCollision::new(3, 2);
    it.put(Point::new(3, 0));
    it.put(Point::new(-1, 1));
    it.put(Point::new(2, 1));
    assert!(!it.hit(Point::new(3, 0)));
    assert!(!it.hit(Point::new(-1, 1)));
    assert!(it.hit(Point::new(2, 1)));
    assert!(!it.hit(Point::new(1, 1)));
}

#[test]
fn bitmap_of_zero_width_holds_nothing() {
    let mut it = BitmapCollision::new(0, 4);
    it.put(Point::new(0, 0));
    assert!(!it.hit(Point::new(0, 0)));
}

#[test]
fn collision_neighborhood_marks_occupied_neighbours() {
    let it = HashSetCollision::new(&[Point::new(1, 1), Point::new(0, 1), Point::new(2, 0)]);
    let n = it.neighborhood(Point::new(1, 1));
    assert!(n.has(Adjacence::LEFT));
    assert!(n.has(Adjacence::RIGHT_TOP));
    assert!(!n.has(Adjacence::TOP));
    assert!(!n.has(Adjacence::RIGHT));
    assert!(!n.has(Adjacence::NONE));
}

#[test]
fn rule_hashset_available_answers_occupied() {
    let it = rule::HashSetCollision::new(&[Point::new(2, 3)]);
    assert!(it.available(Point::new(2, 3)));
    assert!(!it.available(Point::new(0, 0)));
}

#[test]
fn rule_bitmap_available_is_free_and_inside() {
    let mut it = rule::BitmapCollision::new(4, 4);
    it.put(Point::new(1, 1));
    assert!(!it.available(Point::new(1, 1)));
    assert!(it.available(Point::new(2, 1)));
    assert!(!it.available(Point::new(4, 1)));
    assert!(!it.available(Point::new(-1, 0)));
}

#[test]
fn rule_disjoint_set_empties_after_groups() {
    let mut lookup = rule::DisjointSet::new(4);
    lookup.join(0, 1);
    let first = lookup.groups();
    assert_eq!(first.len(), 1);
    lookup.join(2, 3);
    assert!(lookup.groups().is_empty());
}

#[test]
fn rule_disjoint_set_ignores_out_of_range() {
    let mut lookup = rule::DisjointSet::new(3);
    lookup.join(1, 7);
    lookup.join(2, 2);
    assert!(lookup.groups().is_empty());
}

#[test]
fn digraph_keeps_each_edge_once() {
    let mut g = rule::Digraph::with_capacity(4);
    g.add(1, 2);
    g.add(1, 3);
    g.add(1, 2);
    let mut c = g.children(1);
    c.sort();
    assert_eq!(c, vec![2, 3]);
    assert!(g.children(2).is_empty());
}

#[test]
fn model_disjoint_set_lists_classes_by_root_in_the_order_named() {
    // join(this, that) keeps the root of `that`, and names `that` before `this`
    let mut lookup = DisjointSet::new(6);
    lookup.join(0, 5);
    lookup.join(2, 1);
    let groups = lookup.groups();
    let mut iter = groups.iter();
    let mut out = Vec::new();
    while let Some(x) = iter.next() {
        out.push(x);
    }
    assert_eq!(out, vec![vec![1, 2], vec![5, 0]]);
}

#[test]
fn rule_disjoint_set_keeps_the_order_named_in_each_class() {
    let mut lookup = rule::DisjointSet::new(6);
    lookup.join(4, 3);
    lookup.join(0, 4);
    let groups = lookup.groups();
    assert_eq!(groups, vec![vec![3, 4, 0]]);
}
