//! Field elements behind a method interface: every operation is a method
//! that borrows its operands and returns a new element.

use crate::finite_fields::campos_finitos::FieldElement;
pub use crate::finite_fields::campos_finitos::{CreationError, OperationError};
use crate::finite_fields::model::Residue;
use vstd::prelude::*;

verus! {

/// An element of the field of integers modulo a prime.
#[derive(Copy, Clone, Debug)]
pub struct FiniteField {
    element: FieldElement,
}

impl View for FiniteField {
    type V = Residue;

    closed spec fn view(&self) -> Residue {
        self.element@
    }
}

/// The model of what an operation returned.
pub open spec fn model_of(r: Result<FiniteField, OperationError>) -> Result<
    Residue,
    OperationError,
> {
    match r {
        Ok(e) => Ok(e@),
        Err(e) => Err(e),
    }
}

impl FiniteField {
    /// The element `num` of the field modulo `prime`.
    pub fn new(num: i32, prime: i32) -> (r: Result<FiniteField, CreationError>)
        ensures
            match r {
                Ok(e) => 0 <= num < prime && e@ == (Residue {
                    value: num as int,
                    modulus: prime as int,
                }),
                Err(CreationError::NegativeNum) => num < 0,
                Err(CreationError::BiggerThanPrime) => 0 <= num && num >= prime,
            },
    {
        match FieldElement::new(num, prime) {
            Ok(element) => Ok(FiniteField { element }),
            Err(e) => Err(e),
        }
    }

    /// The value, in `[0, prime)`.
    pub fn num(&self) -> (n: i32)
        ensures
            n == self@.value,
            0 <= n < self@.modulus,
    {
        self.element.num()
    }

    /// The modulus.
    pub fn prime(&self) -> (p: i32)
        ensures
            p == self@.modulus,
            p >= 1,
    {
        self.element.prime()
    }

    /// Whether `self` and `other` are the same element of the same field.
    pub fn equals(self, other: &Self) -> (r: bool)
        ensures
            r == (self@ == other@),
    {
        self.element.num() == other.element.num() && self.element.prime() == other.element.prime()
    }

    /// Field addition.
    pub fn add(&self, other: &Self) -> (r: Result<Self, OperationError>)
        ensures
            model_of(r) == self@.plus(other@),
    {
        match self.element + other.element {
            Ok(element) => Ok(FiniteField { element }),
            Err(e) => Err(e),
        }
    }

    /// Field subtraction.
    pub fn sub(&self, other: &Self) -> (r: Result<Self, OperationError>)
        ensures
            model_of(r) == self@.minus(other@),
    {
        match self.element - other.element {
            Ok(element) => Ok(FiniteField { element }),
            Err(e) => Err(e),
        }
    }

    /// Field multiplication.
    pub fn mul(&self, other: &Self) -> (r: Result<Self, OperationError>)
        ensures
            model_of(r) == self@.times(other@),
    {
        match self.element * other.element {
            Ok(element) => Ok(FiniteField { element }),
            Err(e) => Err(e),
        }
    }

    /// `self` raised to `exp`, which may be negative: the exponent is first
    /// reduced modulo `prime - 1`.
    pub fn pow(&self, exp: i32) -> (r: Self)
        ensures
            r@ == self@.power(exp as int),
    {
        FiniteField { element: self.element.pow(exp) }
    }

    /// Field division.
    pub fn div(&self, other: &Self) -> (r: Result<Self, OperationError>)
        ensures
            model_of(r) == self@.over(other@),
    {
        match self.element / other.element {
            Ok(element) => Ok(FiniteField { element }),
            Err(e) => Err(e),
        }
    }
}

} // verus!
