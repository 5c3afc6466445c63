use programming_btc::finite_fields::campos_finitos::FieldElement;
use programming_btc::point::point::{CreationError, OperationError, Point};

fn curve_point(x: i32, y: i32) -> Point {
    let prime = 223;
    let a = FieldElement::new(0, prime).unwrap();
    let b = FieldElement::new(7, prime).unwrap();
    let x = Some(FieldElement::new(x, prime).unwrap());
    let y = Some(FieldElement::new(y, prime).unwrap());
    Point::new(x, y, a, b).unwrap()
}

fn curve_identity() -> Point {
    let prime = 223;
    let a = FieldElement::new(0, prime).unwrap();
    let b = FieldElement::new(7, prime).unwrap();
    Point::new(None, None, a, b).unwrap()
}

#[test]
fn test_on_curve() {
    let prime = 223;
    let a = FieldElement::new(0, prime).unwrap();
    let b = FieldElement::new(7, prime).unwrap();
    let x = Some(FieldElement::new(192, prime).unwrap());
    let y = Some(FieldElement::new(105, prime).unwrap());
    assert!(Point::new(x, y, a, b).is_ok());
}

#[test]
fn test_add0() {
    let prime = 223;
    let a = FieldElement::new(0, prime).unwrap();
    let b = FieldElement::new(7, prime).unwrap();
    let x1 = Some(FieldElement::new(192, prime).unwrap());
    let y1 = Some(FieldElement::new(105, prime).unwrap());
    let x2 = Some(FieldElement::new(17, prime).unwrap());
    let y2 = Some(FieldElement::new(56, prime).unwrap());
    let x3 = Some(FieldElement::new(170, prime).unwrap());
    let y3 = Some(FieldElement::new(142, prime).unwrap());

    let p1 = Point::new(x1, y1, a, b).unwrap();
    let p2 = Point::new(x2, y2, a, b).unwrap();
    let p3 = Point::new(x3, y3, a, b).unwrap();
    assert_eq!(p1 + p2, Ok(p3));
}

#[test]
fn test_add1() {
    let prime = 223;
    let a = FieldElement::new(0, prime).unwrap();
    let b = FieldElement::new(7, prime).unwrap();
    let x1 = Some(FieldElement::new(47, prime).unwrap());
    let y1 = Some(FieldElement::new(71, prime).unwrap());
    let x2 = Some(FieldElement::new(117, prime).unwrap());
    let y2 = Some(FieldElement::new(141, prime).unwrap());
    let x3 = Some(FieldElement::new(60, prime).unwrap());
    let y3 = Some(FieldElement::new(139, prime).unwrap());

    let p1 = Point::new(x1, y1, a, b).unwrap();
    let p2 = Point::new(x2, y2, a, b).unwrap();
    let p3 = Point::new(x3, y3, a, b).unwrap();
    assert_eq!(p1 + p2, Ok(p3));
}

#[test]
fn test_add2() {
    let prime = 223;
    let a = FieldElement::new(0, prime).unwrap();
    let b = FieldElement::new(7, prime).unwrap();
    let x1 = Some(FieldElement::new(143, prime).unwrap());
    let y1 = Some(FieldElement::new(98, prime).unwrap());
    let x2 = Some(FieldElement::new(76, prime).unwrap());
    let y2 = Some(FieldElement::new(66, prime).unwrap());
    let x3 = Some(FieldElement::new(47, prime).unwrap());
    let y3 = Some(FieldElement::new(71, prime).unwrap());

    let p1 = Point::new(x1, y1, a, b).unwrap();
    let p2 = Point::new(x2, y2, a, b).unwrap();
    let p3 = Point::new(x3, y3, a, b).unwrap();
    assert_eq!(p1 + p2, Ok(p3));
}

#[test]
fn test_mul0() {
    let prime = 223;
    let a = FieldElement::new(0, prime).unwrap();
    let b = FieldElement::new(7, prime).unwrap();
    let x1 = Some(FieldElement::new(192, prime).unwrap());
    let y1 = Some(FieldElement::new(105, prime).unwrap());
    let x2 = Some(FieldElement::new(49, prime).unwrap());
    let y2 = Some(FieldElement::new(71, prime).unwrap());
    let p1 = Point::new(x1, y1, a, b).unwrap();
    let p2 = Point::new(x2, y2, a, b).unwrap();
    assert_eq!(2 * p1, Ok(p2));
}

#[test]
fn test_mul1() {
    let prime = 223;
    let a = FieldElement::new(0, prime).unwrap();
    let b = FieldElement::new(7, prime).unwrap();
    let x1 = Some(FieldElement::new(47, prime).unwrap());
    let y1 = Some(FieldElement::new(71, prime).unwrap());
    let x2 = Some(FieldElement::new(116, prime).unwrap());
    let y2 = Some(FieldElement::new(55, prime).unwrap());
    let p1 = Point::new(x1, y1, a, b).unwrap();
    let p2 = Point::new(x2, y2, a, b).unwrap();
    assert_eq!(8 * p1, Ok(p2));
}

#[test]
fn identity_is_neutral() {
    let p = curve_point(192, 105);
    let o = curve_identity();
    assert_eq!(p + o, Ok(p));
    assert_eq!(o + p, Ok(p));
    assert_eq!(o + o, Ok(o));
}

#[test]
fn addition_commutes() {
    let p = curve_point(47, 71);
    let q = curve_point(117, 141);
    assert_eq!(p + q, q + p);
    assert_eq!(q + p, Ok(curve_point(60, 139)));
}

#[test]
fn doubling_is_adding_to_itself() {
    let p = curve_point(192, 105);
    assert_eq!(2 * p, p + p);
    assert_eq!(p + p, Ok(curve_point(49, 71)));
}

#[test]
fn mismatched_curves_do_not_add() {
    let prime = 223;
    let p = curve_point(192, 105);
    let a = FieldElement::new(0, prime).unwrap();
    let b = FieldElement::new(8, prime).unwrap();
    let other = Point::new(None, None, a, b).unwrap();
    assert_eq!(p + other, Err(OperationError::CurveMismatch));
    assert_eq!(other + p, Err(OperationError::CurveMismatch));
    let a5 = FieldElement::new(0, 5).unwrap();
    let b5 = FieldElement::new(2, 5).unwrap();
    let b7 = FieldElement::new(2, 7).unwrap();
    let o5 = Point::new(None, None, a5, b5).unwrap();
    let o57 = Point::new(None, None, a5, b7).unwrap();
    assert_eq!(o5 + o57, Err(OperationError::CurveMismatch));
}

#[test]
fn off_curve_is_rejected() {
    let prime = 223;
    let a = FieldElement::new(0, prime).unwrap();
    let b = FieldElement::new(7, prime).unwrap();
    let x = Some(FieldElement::new(200, prime).unwrap());
    let y = Some(FieldElement::new(119, prime).unwrap());
    assert_eq!(Point::new(x, y, a, b), Err(CreationError::NotInCurve));
    let x = Some(FieldElement::new(42, prime).unwrap());
    let y = Some(FieldElement::new(99, prime).unwrap());
    assert_eq!(Point::new(x, y, a, b), Err(CreationError::NotInCurve));
    let x = Some(FieldElement::new(192, prime).unwrap());
    assert_eq!(Point::new(x, None, a, b), Err(CreationError::NotInCurve));
    let y = Some(FieldElement::new(105, 227).unwrap());
    assert_eq!(Point::new(x, y, a, b), Err(CreationError::NotInCurve));
}

#[test]
fn missing_x_gives_the_identity() {
    let prime = 223;
    let a = FieldElement::new(0, prime).unwrap();
    let b = FieldElement::new(7, prime).unwrap();
    let y = Some(FieldElement::new(105, prime).unwrap());
    assert_eq!(Point::new(None, y, a, b), Ok(curve_identity()));
    assert_eq!(curve_identity().coordinate(), None);
}

#[test]
fn opposite_points_cancel() {
    let p = curve_point(192, 105);
    let q = curve_point(192, 118);
    assert_eq!(p + q, Ok(curve_identity()));
    assert_eq!(p.negate(), q);
    assert_eq!(curve_identity().negate(), curve_identity());
}

#[test]
fn vertical_tangent_doubles_to_the_identity() {
    // y^2 = x^3 + 1 over 7 holds (3, 0).
    let a = FieldElement::new(0, 7).unwrap();
    let b = FieldElement::new(1, 7).unwrap();
    let x = Some(FieldElement::new(3, 7).unwrap());
    let y = Some(FieldElement::new(0, 7).unwrap());
    let p = Point::new(x, y, a, b).unwrap();
    let o = Point::new(None, None, a, b).unwrap();
    assert_eq!(p + p, Ok(o));
    assert_eq!(2 * p, Ok(o));
    assert_eq!(3 * p, Ok(p));
}

#[test]
fn even_modulus_reports_the_zero_divisor() {
    // Modulo 2 the point (0, 1) lies on y^2 = x^3 + 1 and 2 * y is zero.
    let a = FieldElement::new(0, 2).unwrap();
    let b = FieldElement::new(1, 2).unwrap();
    let x = Some(FieldElement::new(0, 2).unwrap());
    let y = Some(FieldElement::new(1, 2).unwrap());
    let p = Point::new(x, y, a, b).unwrap();
    assert_eq!(p + p, Err(OperationError::DivisionByZero));
    assert_eq!(2 * p, Err(OperationError::DivisionByZero));
    assert_eq!(1 * p, Err(OperationError::DivisionByZero));
}

#[test]
fn scalar_multiples() {
    let p = curve_point(47, 71);
    let o = curve_identity();
    assert_eq!(0 * p, Ok(o));
    assert_eq!(1 * p, Ok(p));
    assert_eq!(2 * p, Ok(curve_point(36, 111)));
    assert_eq!(4 * p, Ok(curve_point(194, 51)));
    assert_eq!(8 * p, Ok(curve_point(116, 55)));
    assert_eq!(21 * p, Ok(o));
    assert_eq!(5 * o, Ok(o));
    assert_eq!(-1 * p, Ok(p.negate()));
    assert_eq!(-8 * p, Ok(curve_point(116, 55).negate()));
    assert_eq!(-8 * p, Ok(curve_point(116, 168)));
    assert_eq!(i32::MIN * o, Ok(o));
}

#[test]
fn getters_give_back_the_parts() {
    let p = curve_point(47, 71);
    assert_eq!(p.a(), FieldElement::new(0, 223).unwrap());
    assert_eq!(p.b(), FieldElement::new(7, 223).unwrap());
    let (x, y) = p.coordinate().unwrap();
    assert_eq!((x.num(), x.prime()), (47, 223));
    assert_eq!((y.num(), y.prime()), (71, 223));
}

fn point_over(prime: i32, a: i32, b: i32, x: i32, y: i32) -> Point {
    let a = FieldElement::new(a, prime).unwrap();
    let b = FieldElement::new(b, prime).unwrap();
    let x = Some(FieldElement::new(x, prime).unwrap());
    let y = Some(FieldElement::new(y, prime).unwrap());
    Point::new(x, y, a, b).unwrap()
}

#[test]
fn sums_stay_on_the_curve() {
    let p = curve_point(47, 71);
    let mut multiple = p;
    for _ in 0..25 {
        multiple = (multiple + p).unwrap();
        if let Some((x, y)) = multiple.coordinate() {
            assert_eq!(Point::new(Some(x), Some(y), p.a(), p.b()), Ok(multiple));
        }
    }
    assert_eq!(multiple, curve_point(126, 96));
}

#[test]
fn composite_modulus_breaks_the_group() {
    // Modulo 4 the inverse by Fermat is no inverse, and the chord depends
    // on the order of its points.
    let p = point_over(4, 0, 0, 0, 0);
    let q = point_over(4, 0, 0, 1, 1);
    assert_eq!(p + q, Ok(point_over(4, 0, 0, 0, 0)));
    assert_eq!(q + p, Ok(point_over(4, 0, 0, 0, 2)));
    // Modulo 6 the double of (0, 1) exists, but its own double does not.
    let r = point_over(6, 2, 1, 0, 1);
    let (x, y) = (r + r).unwrap().coordinate().unwrap();
    assert_eq!((x.num(), y.num()), (4, 3));
    assert_eq!(2 * r, Err(OperationError::DivisionByZero));
}
