use cc_core::model::motion::{Agreement, Motion};
use cc_core::model::movement::Movement;

#[test]
fn motion_single_motion() {
    let mut stop = Motion::new();
    assert_eq!(stop.next(), None);

    let list = [(None, 2), (Some(Movement::Up), 2)];
    let mut list = Motion::from_sequence(false, &list);
    assert_eq!(list.next(), Some(None));
    assert_eq!(list.next(), Some(None));
    assert_eq!(list.next(), Some(Some(Movement::Up)));
    assert_eq!(list.next(), Some(Some(Movement::Up)));
    assert_eq!(list.next(), None);

    let list = [(Some(Movement::Left), 1), (Some(Movement::Up), 1)];
    let mut list = Motion::from_sequence(true, &list);
    assert_eq!(list.next(), Some(Some(Movement::Left)));
    assert_eq!(list.next(), Some(Some(Movement::Up)));
    assert_eq!(list.next(), Some(Some(Movement::Left)));
    assert_eq!(list.next(), Some(Some(Movement::Up)));
    assert_eq!(list.next(), Some(Some(Movement::Left)));
}

#[test]
fn motion_multiple_motion() {
    let team = vec![
        Motion::new(),
        Motion::from_sequence(false, &[(None, 1)]),
        Motion::from_sequence(false, &[(None, 2)]),
        Motion::from_sequence(false, &[(None, 3)]),
        Motion::from_sequence(false, &[(None, 2), (Some(Movement::Up), 2)]),
        Motion::new(),
        Motion::from_sequence(true, &[(Some(Movement::Left), 1), (Some(Movement::Up), 1)]),
    ];
    let mut team = Motion::from_iter(team);
    assert_eq!(team.next(), Some(None));
    assert_eq!(team.next(), Some(None));
    assert_eq!(team.next(), Some(None));
    assert_eq!(team.next(), Some(Some(Movement::Up)));
    assert_eq!(team.next(), Some(Some(Movement::Left)));
    assert_eq!(team.next(), Some(Some(Movement::Up)));
    assert!(team.is_move());
}

#[test]
fn motion_take_leaves_a_stopped_motion() {
    let mut m = Motion::from_sequence(false, &[(Some(Movement::Down), 1)]);
    let mut taken = m.take();
    assert_eq!(m.next(), None);
    assert_eq!(taken.next(), Some(Some(Movement::Down)));
    assert_eq!(taken.next(), None);
}

#[test]
fn agreement_keeps_one_choice_and_fails_on_two() {
    let mut a = Agreement::new();
    assert_eq!(a.result(), None);
    assert!(!a.fail());
    a.submit(Some(Movement::Left));
    assert_eq!(a.result(), Some(Some(Movement::Left)));
    a.submit(Some(Movement::Left));
    assert_eq!(a.result(), Some(Some(Movement::Left)));
    a.submit(None);
    assert!(a.fail());
    assert_eq!(a.result(), None);
}

#[test]
fn motion_plays_each_choice_for_its_turns_then_ends() {
    let mut m = Motion::from_sequence(false, &[(Some(Movement::Right), 3), (None, 1), (Some(Movement::Down), 2)]);
    let expected = [
        Some(Some(Movement::Right)),
        Some(Some(Movement::Right)),
        Some(Some(Movement::Right)),
        Some(None),
        Some(Some(Movement::Down)),
        Some(Some(Movement::Down)),
        None,
        None,
    ];
    for e in expected {
        assert_eq!(m.next(), e);
    }
}
