//! The mathematical model of a field element and of the field operations.

use crate::finite_fields::campos_finitos::OperationError;
use vstd::arithmetic::power::pow;
use vstd::prelude::*;

verus! {

/// The sum of `a` and `b` modulo `m`.
pub open spec fn add_mod(a: int, b: int, m: int) -> int {
    (a + b) % m
}

/// The difference of `a` and `b` modulo `m`. The remainder is the Euclidean
/// one, so a negative difference is folded back into `[0, m)`.
pub open spec fn sub_mod(a: int, b: int, m: int) -> int {
    (a - b) % m
}

/// The product of `a` and `b` modulo `m`.
pub open spec fn mul_mod(a: int, b: int, m: int) -> int {
    (a * b) % m
}

/// `a` times `b^(m - 2)` modulo `m`. For a prime `m` and `b` not a multiple
/// of `m`, `b^(m - 2)` is the inverse of `b`, and this is the quotient.
pub open spec fn div_mod(a: int, b: int, m: int) -> int {
    (a * pow(b, (m - 2) as nat)) % m
}

/// A residue `value` modulo `modulus`.
pub struct Residue {
    pub value: int,
    pub modulus: int,
}

/// The exponent that `power` really raises to: `exp` reduced modulo
/// `modulus - 1`, the order of the multiplicative group of a prime field.
/// Negative exponents are folded into `[0, modulus - 1)`. Modulo 1 there is
/// nothing to reduce by, and the exponent is taken as 0.
pub open spec fn reduced_exponent(exp: int, modulus: int) -> nat {
    if modulus > 1 {
        (exp % (modulus - 1)) as nat
    } else {
        0
    }
}

impl Residue {
    /// The value lies in `[0, modulus)`.
    pub open spec fn wf(self) -> bool {
        0 <= self.value < self.modulus
    }

    /// The additive identity of the field that `self` belongs to.
    pub open spec fn zero(self) -> Residue {
        Residue { value: 0, modulus: self.modulus }
    }

    /// The multiplicative identity of the field that `self` belongs to.
    pub open spec fn one(self) -> Residue {
        Residue { value: 1int % self.modulus, modulus: self.modulus }
    }

    /// Field addition.
    pub open spec fn plus(self, rhs: Residue) -> Result<Residue, OperationError> {
        if self.modulus != rhs.modulus {
            Err(OperationError::DifferentPrime)
        } else {
            Ok(Residue { value: add_mod(self.value, rhs.value, self.modulus), modulus: self.modulus })
        }
    }

    /// Field subtraction.
    pub open spec fn minus(self, rhs: Residue) -> Result<Residue, OperationError> {
        if self.modulus != rhs.modulus {
            Err(OperationError::DifferentPrime)
        } else {
            Ok(Residue { value: sub_mod(self.value, rhs.value, self.modulus), modulus: self.modulus })
        }
    }

    /// Field multiplication.
    pub open spec fn times(self, rhs: Residue) -> Result<Residue, OperationError> {
        if self.modulus != rhs.modulus {
            Err(OperationError::DifferentPrime)
        } else {
            Ok(Residue { value: mul_mod(self.value, rhs.value, self.modulus), modulus: self.modulus })
        }
    }

    /// `self` raised to `reduced_exponent(exp, modulus)`.
    pub open spec fn power(self, exp: int) -> Residue {
        Residue {
            value: pow(self.value, reduced_exponent(exp, self.modulus)) % self.modulus,
            modulus: self.modulus,
        }
    }

    /// Field division: a zero divisor is reported first, then a mismatch of
    /// moduli.
    pub open spec fn over(self, rhs: Residue) -> Result<Residue, OperationError> {
        if rhs.value == 0 {
            Err(OperationError::DivisionByZero)
        } else if self.modulus != rhs.modulus {
            Err(OperationError::DifferentPrime)
        } else {
            Ok(Residue { value: div_mod(self.value, rhs.value, self.modulus), modulus: self.modulus })
        }
    }
}

} // verus!
