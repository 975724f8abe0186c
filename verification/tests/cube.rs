use cc_core::common::neighborhood::{Adjacence, Neighborhood};
use cc_core::common::point::Point;
use cc_core::refactor::cube::{Area, Outlines, Unit};
use cc_core::refactor::movement::Movement;

#[test]
fn outlines() {
    let outlines = Outlines::new(&[]);
    let actual = outlines.all(Point::new(0, 0));
    assert_eq!(actual, Vec::new());
    for movement in Movement::ALL {
        let actual = outlines.one(Point::new(0, 0), movement);
        assert_eq!(actual, Vec::new());
    }

    let units = vec![
        Unit {
            index: 0,
            position: Point::new(0, 0),
            neighborhood: Neighborhood::from(&[Adjacence::BOTTOM]),
        },
        Unit {
            index: 0,
            position: Point::new(0, 1),
            neighborhood: Neighborhood::from(&[Adjacence::TOP]),
        },
    ];
    let outlines = Outlines::new(&units);

    let expected = vec![Point::new(0, 1), Point::new(0, 2)];
    let actual = outlines.one(Point::new(1, 1), Movement::Left);
    assert_eq!(actual, expected);

    let expected = vec![Point::new(2, 1), Point::new(2, 2)];
    let actual = outlines.one(Point::new(1, 1), Movement::Right);
    assert_eq!(actual, expected);

    let expected = vec![Point::new(1, 0)];
    let actual = outlines.one(Point::new(1, 1), Movement::Up);
    assert_eq!(actual, expected);

    let expected = vec![Point::new(1, 3)];
    let actual = outlines.one(Point::new(1, 1), Movement::Down);
    assert_eq!(actual, expected);
}

#[test]
fn outlines_of_one_cell_surround_it() {
    let units = [Unit { index: 0, position: Point::new(3, 4), neighborhood: Neighborhood::new() }];
    let outlines = Outlines::new(&units);
    let anchor = Outlines::anchor(&units);
    assert_eq!(anchor, Point::new(3, 4));
    assert_eq!(outlines.one(anchor, Movement::Left), vec![Point::new(2, 4)]);
    assert_eq!(outlines.one(anchor, Movement::Down), vec![Point::new(3, 5)]);
    assert_eq!(outlines.one(anchor, Movement::Up), vec![Point::new(3, 3)]);
    assert_eq!(outlines.one(anchor, Movement::Right), vec![Point::new(4, 4)]);
    assert_eq!(
        outlines.all(anchor),
        vec![Point::new(2, 4), Point::new(3, 5), Point::new(3, 3), Point::new(4, 4)]
    );
}

#[test]
fn area_blocks_frozen_cells_inside_only() {
    let groups = vec![vec![Point::new(1, 1), Point::new(2, 1)], vec![Point::new(0, 0)]];
    let area = Area::new(3, 3, &groups);
    assert!(area.blocked(Point::new(1, 1)));
    assert!(area.blocked(Point::new(2, 1)));
    assert!(area.blocked(Point::new(0, 0)));
    assert!(!area.blocked(Point::new(1, 0)));
    assert!(!area.blocked(Point::new(5, 5)));

    let mut iter = area.iter(10);
    let first = iter.next().unwrap();
    assert_eq!(first.id, 10);
    assert_eq!(first.position, Point::new(1, 1));
    assert!(first.neighborhood.has(Adjacence::RIGHT));
    assert!(!first.neighborhood.has(Adjacence::LEFT));
    let second = iter.next().unwrap();
    assert_eq!(second.id, 11);
    assert!(second.neighborhood.has(Adjacence::LEFT));
    let third = iter.next().unwrap();
    assert_eq!(third.id, 12);
    assert_eq!(third.neighborhood, Neighborhood::new());
    assert!(iter.next().is_none());
}
