use cc_core::common::point::Point;

#[test]
fn point_arithmetic() {
    let a = Point::new(3, -4);
    let b = Point::from((1, 2));
    assert_eq!(a.add(b), Point::new(4, -2));
    assert_eq!(a.sub(b), Point::new(2, -6));
    assert_eq!(a.mul(-3), Point::new(-9, 12));

    let mut c = a;
    c.add_assign(b);
    assert_eq!(c, Point::new(4, -2));
    c.sub_assign(b);
    assert_eq!(c, a);
    c.mul_assign(2);
    assert_eq!(c, Point::new(6, -8));
}

#[test]
fn point_division_rounds_toward_zero() {
    let a = Point::new(-7, 8);
    assert_eq!(a.div(2), Point::new(-3, 4));
    assert_eq!(a.div(-2), Point::new(3, -4));
    assert_eq!(a.div(i32::MIN), Point::new(0, 0));
    assert_eq!(Point::new(i32::MIN, 1).div(i32::MIN), Point::new(1, 0));
    assert_eq!(Point::new(i32::MIN, 5).div(2), Point::new(-1073741824, 2));

    let mut b = Point::new(9, -9);
    b.div_assign(-4);
    assert_eq!(b, Point::new(-2, 2));
}
