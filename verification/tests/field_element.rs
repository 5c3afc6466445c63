use programming_btc::finite_fields::campos_finitos::{
    modular_exp, CreationError, FieldElement, OperationError,
};

fn fe(num: i32, prime: i32) -> FieldElement {
    FieldElement::new(num, prime).unwrap()
}

#[test]
fn test_ne() {
    let a = fe(2, 31);
    let b = fe(2, 31);
    let c = fe(15, 31);
    assert_eq!(a, b);
    assert_ne!(a, c);
}

#[test]
fn test_add() {
    let a = fe(2, 31);
    let b = fe(15, 31);
    assert_eq!(a + b, Ok(fe(17, 31)));
    let c = fe(17, 31);
    let d = fe(21, 31);
    assert_eq!(c + d, Ok(fe(7, 31)));
}

#[test]
fn test_sub() {
    let a = fe(29, 31);
    let b = fe(4, 31);
    assert_eq!(a - b, Ok(fe(25, 31)));
    let c = fe(15, 31);
    let d = fe(30, 31);
    assert_eq!(c - d, Ok(fe(16, 31)));
}

#[test]
fn test_mul() {
    let a = fe(24, 31);
    let b = fe(19, 31);
    assert_eq!(a * b, Ok(fe(22, 31)));
}

#[test]
fn test_pow() {
    let a = fe(17, 31);
    assert_eq!(a.pow(3), fe(15, 31));
}

#[test]
fn test_div() {
    let a = fe(3, 31);
    let b = fe(24, 31);
    assert_eq!(a / b, Ok(fe(4, 31)));
}

#[test]
fn modular_exp_values() {
    assert_eq!(modular_exp(17, 3, 31), 15);
    assert_eq!(modular_exp(2, 10, 1000), 24);
    assert_eq!(modular_exp(3, 200, 13), 9);
    assert_eq!(modular_exp(-2, 3, 7), 6);
    assert_eq!(modular_exp(2, 10, -7), 2);
    assert_eq!(modular_exp(46340, 2147483645, 2147483647), 1503192211);
    assert_eq!(modular_exp(i32::MIN, 1, i32::MAX), 2147483646);
    assert_eq!(modular_exp(3, 5, i32::MIN), 243);
    assert_eq!(modular_exp(5, i32::MAX, 1), 0);
}

#[test]
fn modular_exp_edge_cases() {
    assert_eq!(modular_exp(5, 3, 0), 0);
    assert_eq!(modular_exp(5, 0, 0), 0);
    assert_eq!(modular_exp(5, 0, 7), 1);
    assert_eq!(modular_exp(5, -4, 7), 1);
    assert_eq!(modular_exp(0, 0, 7), 1);
    assert_eq!(modular_exp(5, 0, 1), 1);
    assert_eq!(modular_exp(0, 4, 7), 0);
}

#[test]
fn creation_errors() {
    assert_eq!(FieldElement::new(-1, 5), Err(CreationError::NegativeNum));
    assert_eq!(FieldElement::new(-1, -5), Err(CreationError::NegativeNum));
    assert_eq!(FieldElement::new(5, 5), Err(CreationError::BiggerThanPrime));
    assert_eq!(FieldElement::new(6, 5), Err(CreationError::BiggerThanPrime));
    assert_eq!(FieldElement::new(0, 0), Err(CreationError::BiggerThanPrime));
    assert_eq!(FieldElement::new(3, -5), Err(CreationError::BiggerThanPrime));
    let e = FieldElement::new(4, 5).unwrap();
    assert_eq!((e.num(), e.prime()), (4, 5));
    let e = FieldElement::new(0, 1).unwrap();
    assert_eq!((e.num(), e.prime()), (0, 1));
}

#[test]
fn operation_errors() {
    let a = fe(1, 5);
    let b = fe(1, 7);
    let zero5 = fe(0, 5);
    let zero7 = fe(0, 7);
    assert_eq!(a + b, Err(OperationError::DifferentPrime));
    assert_eq!(a - b, Err(OperationError::DifferentPrime));
    assert_eq!(a * b, Err(OperationError::DifferentPrime));
    assert_eq!(a / b, Err(OperationError::DifferentPrime));
    assert_eq!(a / zero5, Err(OperationError::DivisionByZero));
    assert_eq!(a / zero7, Err(OperationError::DivisionByZero));
    assert_eq!(zero5 / zero5, Err(OperationError::DivisionByZero));
    assert_eq!(zero5 / a, Ok(zero5));
}

#[test]
fn addition_and_multiplication_commute() {
    let a = fe(24, 31);
    let b = fe(19, 31);
    assert_eq!(a + b, b + a);
    assert_eq!(a + b, Ok(fe(12, 31)));
    assert_eq!(a * b, b * a);
    assert_eq!(b * a, Ok(fe(22, 31)));
    assert_eq!(a + fe(1, 37), fe(1, 37) + a);
}

#[test]
fn addition_and_multiplication_associate() {
    let a = fe(24, 31);
    let b = fe(19, 31);
    let c = fe(30, 31);
    assert_eq!((a + b).unwrap() + c, a + (b + c).unwrap());
    assert_eq!((a + b).unwrap() + c, Ok(fe(11, 31)));
    assert_eq!((a * b).unwrap() * c, a * (b * c).unwrap());
    assert_eq!((a * b).unwrap() * c, Ok(fe(9, 31)));
    assert_eq!(a * (b + c).unwrap(), (a * b).unwrap() + (a * c).unwrap());
    assert_eq!(a * (b + c).unwrap(), Ok(fe(29, 31)));
}

#[test]
fn zero_is_the_additive_identity() {
    let a = fe(24, 31);
    let zero = fe(0, 31);
    assert_eq!(a + zero, Ok(a));
    assert_eq!(zero + a, Ok(a));
    assert_eq!(a - a, Ok(zero));
    assert_eq!(zero - a, Ok(fe(7, 31)));
}

#[test]
fn nonzero_elements_have_inverses() {
    let one = fe(1, 31);
    for n in 1..31 {
        let a = fe(n, 31);
        assert_eq!(a / a, Ok(one));
        assert_eq!(a * (one / a).unwrap(), Ok(one));
        for m in 0..31 {
            let b = fe(m, 31);
            assert_eq!((b / a).unwrap() * a, Ok(b));
        }
    }
    assert_eq!(one / fe(7, 31), Ok(fe(9, 31)));
    assert_eq!(fe(1, 2) / fe(1, 2), Ok(fe(1, 2)));
}

#[test]
fn power_by_the_group_order_is_one() {
    for n in 1..31 {
        assert_eq!(fe(n, 31).pow(30), fe(1, 31));
    }
    assert_eq!(fe(5, 223).pow(222), fe(1, 223));
    assert_eq!(fe(0, 31).pow(30), fe(1, 31));
}

#[test]
fn power_reduces_the_exponent() {
    let a = fe(17, 31);
    assert_eq!(a.pow(-3), fe(29, 31));
    assert_eq!(a.pow(27), fe(29, 31));
    assert_eq!((a.pow(-3) * a.pow(3)).unwrap(), fe(1, 31));
    assert_eq!(a.pow(33), a.pow(3));
    assert_eq!(a.pow(0), fe(1, 31));
    assert_eq!(a.pow(1), a);
    assert_eq!(fe(7, 13).pow(-1), fe(2, 13));
    assert_eq!(fe(5, 31).pow(i32::MIN), fe(5, 31));
    assert_eq!(fe(0, 31).pow(3), fe(0, 31));
    assert_eq!(fe(0, 31).pow(0), fe(1, 31));
}

#[test]
fn power_in_the_smallest_fields() {
    assert_eq!(fe(0, 1).pow(5), fe(0, 1));
    assert_eq!(fe(0, 1).pow(0), fe(0, 1));
    assert_eq!(fe(0, 1).pow(-5), fe(0, 1));
    assert_eq!(fe(1, 2).pow(-7), fe(1, 2));
    assert_eq!(fe(0, 2).pow(9), fe(1, 2));
}

#[test]
fn results_stay_below_the_modulus() {
    let p = 2147483647;
    let a = fe(p - 1, p);
    let b = fe(p - 2, p);
    assert_eq!(a + b, Ok(fe(p - 3, p)));
    assert_eq!(b - a, Ok(fe(p - 1, p)));
    assert_eq!(a * a, Ok(fe(1, p)));
    assert_eq!(a * b, Ok(fe(2, p)));
    assert_eq!(fe(12345, p) / fe(67890, p), Ok(fe(80186641, p)));
    assert_eq!(fe(3, p).pow(1000000), fe(1216096509, p));
    assert_eq!(a.pow(i32::MAX), a);
}
