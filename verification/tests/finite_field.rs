use programming_btc::math::{CreationError, FiniteField, OperationError};

fn ff(num: i32, prime: i32) -> FiniteField {
    FiniteField::new(num, prime).unwrap()
}

fn parts(e: Result<FiniteField, OperationError>) -> Result<(i32, i32), OperationError> {
    e.map(|e| (e.num(), e.prime()))
}

#[test]
fn finite_field_creation() {
    let a = ff(33, 97);
    assert_eq!((a.num(), a.prime()), (33, 97));
    assert_eq!(FiniteField::new(-1, 97).err(), Some(CreationError::NegativeNum));
    assert_eq!(FiniteField::new(97, 97).err(), Some(CreationError::BiggerThanPrime));
    assert_eq!(FiniteField::new(100, 97).err(), Some(CreationError::BiggerThanPrime));
}

#[test]
fn finite_field_equals() {
    let a = ff(33, 97);
    let b = ff(34, 97);
    assert!(a.equals(&ff(33, 97)));
    assert!(!a.equals(&b));
    assert!(!a.equals(&ff(33, 101)));
}

#[test]
fn finite_field_arithmetic() {
    let a = ff(33, 97);
    let b = ff(34, 97);
    assert_eq!(parts(a.add(&b)), Ok((67, 97)));
    assert_eq!(parts(a.sub(&b)), Ok((96, 97)));
    assert_eq!(parts(b.sub(&a)), Ok((1, 97)));
    assert_eq!(parts(a.mul(&b)), Ok((55, 97)));
    assert_eq!(parts(a.div(&b)), Ok((78, 97)));
    assert_eq!(parts(ff(3, 31).div(&ff(24, 31))), Ok((4, 31)));
    assert_eq!(parts(a.div(&a)), Ok((1, 97)));
}

#[test]
fn finite_field_power() {
    let a = ff(17, 31);
    assert!(a.pow(3).equals(&ff(15, 31)));
    assert!(a.pow(-3).equals(&ff(29, 31)));
    assert!(a.pow(30).equals(&ff(1, 31)));
    assert!(ff(33, 97).pow(-44).equals(&ff(96, 97)));
    assert!(ff(0, 1).pow(4).equals(&ff(0, 1)));
}

#[test]
fn finite_field_errors() {
    let a = ff(3, 31);
    let b = ff(3, 37);
    assert_eq!(parts(a.add(&b)), Err(OperationError::DifferentPrime));
    assert_eq!(parts(a.sub(&b)), Err(OperationError::DifferentPrime));
    assert_eq!(parts(a.mul(&b)), Err(OperationError::DifferentPrime));
    assert_eq!(parts(a.div(&b)), Err(OperationError::DifferentPrime));
    assert_eq!(parts(a.div(&ff(0, 31))), Err(OperationError::DivisionByZero));
    assert_eq!(parts(a.div(&ff(0, 37))), Err(OperationError::DivisionByZero));
}
