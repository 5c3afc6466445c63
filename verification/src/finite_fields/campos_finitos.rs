//! Elements of a prime field, with the four field operations as the
//! operators `+`, `-`, `*` and `/`, and exponentiation.

use crate::finite_fields::model::Residue;
use std::ops::{Add, Div, Mul, Sub};
use vstd::arithmetic::div_mod::{
    lemma_fundamental_div_mod, lemma_mod_add_multiples_vanish, lemma_mod_bound,
    lemma_mod_multiples_vanish, lemma_mul_mod_noop_general, lemma_small_mod,
};
use vstd::arithmetic::power::{lemma_pow0, lemma_pow_mod_noop, lemma_pow_multiplies, pow};
use vstd::math::abs;
use vstd::prelude::*;
use vstd::std_specs::ops::{AddSpecImpl, DivSpecImpl, MulSpecImpl, SubSpecImpl};

verus! {

/// Why a field element could not be made.
#[derive(PartialEq, Eq, Debug)]
pub enum CreationError {
    /// The value is negative.
    NegativeNum,
    /// The value is not below the modulus.
    BiggerThanPrime,
}

/// Why a field operation failed.
#[derive(PartialEq, Eq, Debug)]
pub enum OperationError {
    /// The two operands belong to fields of different moduli.
    DifferentPrime,
    /// The divisor is the zero element.
    DivisionByZero,
}

/// What `modular_exp` computes. A zero modulus gives 0 and an exponent that
/// is not positive gives 1, whatever the other arguments are; otherwise the
/// result is `base^exponent` reduced into `[0, |modulus|)`.
pub open spec fn modular_exp_spec(base: int, exponent: int, modulus: int) -> int {
    if modulus == 0 {
        0
    } else if exponent <= 0 {
        1
    } else {
        pow(base, exponent as nat) % (abs(modulus) as int)
    }
}

/// The Euclidean remainder of `x` by a positive `m`.
pub(crate) fn rem_floor(x: i64, m: i64) -> (r: i64)
    requires
        m > 0,
        x > i64::MIN,
    ensures
        r == (x as int) % (m as int),
{
    if x >= 0 {
        x % m
    } else {
        let t = (-x) % m;
        proof {
            let q = (-x as int) / (m as int);
            lemma_fundamental_div_mod(-x as int, m as int);
            assert(x as int == m * (-q) + (-t)) by (nonlinear_arith)
                requires
                    -x as int == m * q + t,
            ;
            lemma_mod_multiples_vanish(-q, -t as int, m as int);
            lemma_mod_add_multiples_vanish(-t as int, m as int);
            if t != 0 {
                lemma_small_mod((m - t) as nat, m as nat);
            }
            lemma_small_mod(0, m as nat);
        }
        if t == 0 {
            0
        } else {
            m - t
        }
    }
}

/// One round of square-and-multiply keeps `acc * b^e` fixed modulo `m`.
proof fn lemma_square_and_multiply_round(acc: int, b: int, e: nat, m: int)
    requires
        m > 0,
        e > 0,
    ensures
        e % 2 == 1 ==> (((acc * b) % m) * pow((b * b) % m, e / 2)) % m == (acc * pow(b, e)) % m,
        e % 2 == 0 ==> (acc * pow((b * b) % m, e / 2)) % m == (acc * pow(b, e)) % m,
{
    let k = e / 2;
    let sq = pow(b * b, k);
    let sq_red = pow((b * b) % m, k);
    lemma_pow_mod_noop(b * b, k, m);
    assert(sq == pow(b, 2 * k)) by {
        reveal_with_fuel(pow, 3);
        assert(pow(b, 2) == b * b) by (nonlinear_arith)
            requires
                pow(b, 2) == b * (b * 1),
        ;
        lemma_pow_multiplies(b, 2, k);
    }
    if e % 2 == 1 {
        assert(pow(b, e) == b * pow(b, 2 * k)) by {
            reveal(pow);
        }
        lemma_mul_mod_noop_general(acc * b, sq_red, m);
        lemma_mul_mod_noop_general(acc * b, sq, m);
        assert((acc * b) * sq == acc * (b * sq)) by (nonlinear_arith);
    } else {
        lemma_mul_mod_noop_general(acc, sq_red, m);
        lemma_mul_mod_noop_general(acc, sq, m);
    }
}

/// Modular exponentiation by square-and-multiply.
pub fn modular_exp(base: i32, exponent: i32, modulus: i32) -> (r: i32)
    ensures
        r == modular_exp_spec(base as int, exponent as int, modulus as int),
{
    if modulus == 0 {
        return 0;
    }
    if exponent <= 0 {
        return 1;
    }
    let m: i64 = if modulus < 0 {
        -(modulus as i64)
    } else {
        modulus as i64
    };
    let mut b: i64 = rem_floor(base as i64, m);
    let mut e: i32 = exponent;
    let mut acc: i64 = 1 % m;
    proof {
        lemma_mod_bound(base as int, m as int);
        lemma_pow_mod_noop(base as int, exponent as nat, m as int);
        lemma_mul_mod_noop_general(1, pow(b as int, e as nat), m as int);
        assert(1 * pow(b as int, e as nat) == pow(b as int, e as nat));
    }
    while e > 0
        invariant
            0 <= e,
            0 < m <= 0x8000_0000,
            0 <= b < m,
            0 <= acc < m,
            (acc * pow(b as int, e as nat)) % (m as int)
                == pow(base as int, exponent as nat) % (m as int),
        decreases e,
    {
        proof {
            lemma_square_and_multiply_round(acc as int, b as int, e as nat, m as int);
            lemma_mod_bound(acc * b, m as int);
            lemma_mod_bound(b * b, m as int);
        }
        assert(acc * b < 0x4000_0000_0000_0000 && b * b < 0x4000_0000_0000_0000)
            by (nonlinear_arith)
            requires
                0 <= acc < m,
                0 <= b < m,
                m <= 0x8000_0000,
        ;
        if e % 2 == 1 {
            acc = (acc * b) % m;
        }
        b = (b * b) % m;
        e = e / 2;
    }
    proof {
        lemma_pow0(b as int);
        assert(acc * 1 == acc);
        lemma_small_mod(acc as nat, m as nat);
    }
    acc as i32
}

/// An element of the field of integers modulo `prime`: a value in
/// `[0, prime)`.
#[derive(Eq, PartialEq, Copy, Clone, Debug, Structural)]
pub struct FieldElement {
    num: i32,
    prime: i32,
}

impl View for FieldElement {
    type V = Residue;

    closed spec fn view(&self) -> Residue {
        Residue { value: self.num as int, modulus: self.prime as int }
    }
}

/// The element of each model, where an operation succeeded.
pub open spec fn element_of(r: Result<Residue, OperationError>) -> Result<
    FieldElement,
    OperationError,
> {
    match r {
        Ok(m) => Ok(FieldElement::of_model(m)),
        Err(e) => Err(e),
    }
}

/// The model of what an operation returned.
pub open spec fn model_of(r: Result<FieldElement, OperationError>) -> Result<
    Residue,
    OperationError,
> {
    match r {
        Ok(e) => Ok(e@),
        Err(e) => Err(e),
    }
}

impl FieldElement {
    /// Every element holds a value in `[0, prime)`, both of them in the
    /// range of `i32`.
    #[verifier::type_invariant]
    pub open spec fn wf(self) -> bool {
        &&& self@.wf()
        &&& self@.modulus <= i32::MAX
    }

    /// The element whose model is `m`, for a value and a modulus in the
    /// range of `i32`.
    pub closed spec fn of_model(m: Residue) -> FieldElement {
        FieldElement { num: m.value as i32, prime: m.modulus as i32 }
    }

    /// `of_model` gives every element back from its own model.
    pub proof fn lemma_of_view(e: FieldElement)
        ensures
            Self::of_model(e@) == e,
    {
    }

    /// Two elements are equal exactly when their models are.
    pub proof fn lemma_equal_models(a: FieldElement, b: FieldElement)
        ensures
            a == b <==> a@ == b@,
    {
    }

    /// The element `num` of the field modulo `prime`.
    pub fn new(num: i32, prime: i32) -> (r: Result<FieldElement, CreationError>)
        ensures
            match r {
                Ok(e) => 0 <= num < prime && e.wf() && e@ == (Residue {
                    value: num as int,
                    modulus: prime as int,
                }),
                Err(CreationError::NegativeNum) => num < 0,
                Err(CreationError::BiggerThanPrime) => 0 <= num && num >= prime,
            },
    {
        if num < 0 {
            Err(CreationError::NegativeNum)
        } else if num >= prime {
            Err(CreationError::BiggerThanPrime)
        } else {
            Ok(FieldElement { num, prime })
        }
    }

    /// The value, in `[0, prime)`.
    pub fn num(self) -> (n: i32)
        ensures
            n == self@.value,
            0 <= n < self@.modulus,
    {
        proof {
            use_type_invariant(&self);
        }
        self.num
    }

    /// The modulus.
    pub fn prime(self) -> (p: i32)
        ensures
            p == self@.modulus,
            p >= 1,
    {
        proof {
            use_type_invariant(&self);
        }
        self.prime
    }

    /// `self` raised to `exp`, which may be negative: the exponent is first
    /// reduced modulo `prime - 1`.
    pub fn pow(&self, exp: i32) -> (r: FieldElement)
        ensures
            r@ == self@.power(exp as int),
            r.wf(),
    {
        proof {
            use_type_invariant(self);
        }
        if self.prime == 1 {
            proof {
                lemma_pow0(0);
                lemma_small_mod(0, 1);
            }
            return *self;
        }
        let n: i32 = rem_floor(exp as i64, (self.prime - 1) as i64) as i32;
        proof {
            lemma_mod_bound(exp as int, self.prime - 1);
            lemma_mod_bound(pow(self.num as int, n as nat), self.prime as int);
            lemma_pow0(self.num as int);
            lemma_small_mod(1, self.prime as nat);
        }
        let num = modular_exp(self.num, n, self.prime);
        FieldElement { num, prime: self.prime }
    }
}

impl AddSpecImpl for FieldElement {
    open spec fn obeys_add_spec() -> bool {
        true
    }

    open spec fn add_req(self, rhs: FieldElement) -> bool {
        true
    }

    open spec fn add_spec(self, rhs: FieldElement) -> Result<FieldElement, OperationError> {
        element_of(self@.plus(rhs@))
    }
}

impl Add for FieldElement {
    type Output = Result<FieldElement, OperationError>;

    /// Field addition.
    fn add(self, rhs: FieldElement) -> (r: Result<FieldElement, OperationError>)
        ensures
            model_of(r) == self@.plus(rhs@),
            r matches Ok(e) ==> e.wf(),
    {
        proof {
            use_type_invariant(&self);
            use_type_invariant(&rhs);
        }
        if self.prime != rhs.prime {
            return Err(OperationError::DifferentPrime);
        }
        let m = self.prime as i64;
        let v = (self.num as i64 + rhs.num as i64) % m;
        proof {
            lemma_mod_bound(self.num + rhs.num, m as int);
        }
        Ok(FieldElement { num: v as i32, prime: self.prime })
    }
}

impl SubSpecImpl for FieldElement {
    open spec fn obeys_sub_spec() -> bool {
        true
    }

    open spec fn sub_req(self, rhs: FieldElement) -> bool {
        true
    }

    open spec fn sub_spec(self, rhs: FieldElement) -> Result<FieldElement, OperationError> {
        element_of(self@.minus(rhs@))
    }
}

impl Sub for FieldElement {
    type Output = Result<FieldElement, OperationError>;

    /// Field subtraction.
    fn sub(self, rhs: FieldElement) -> (r: Result<FieldElement, OperationError>)
        ensures
            model_of(r) == self@.minus(rhs@),
            r matches Ok(e) ==> e.wf(),
    {
        proof {
            use_type_invariant(&self);
            use_type_invariant(&rhs);
        }
        if self.prime != rhs.prime {
            return Err(OperationError::DifferentPrime);
        }
        let m = self.prime as i64;
        let v = rem_floor(self.num as i64 - rhs.num as i64, m);
        proof {
            lemma_mod_bound(self.num - rhs.num, m as int);
        }
        Ok(FieldElement { num: v as i32, prime: self.prime })
    }
}

impl MulSpecImpl for FieldElement {
    open spec fn obeys_mul_spec() -> bool {
        true
    }

    open spec fn mul_req(self, rhs: FieldElement) -> bool {
        true
    }

    open spec fn mul_spec(self, rhs: FieldElement) -> Result<FieldElement, OperationError> {
        element_of(self@.times(rhs@))
    }
}

impl Mul for FieldElement {
    type Output = Result<FieldElement, OperationError>;

    /// Field multiplication.
    fn mul(self, rhs: FieldElement) -> (r: Result<FieldElement, OperationError>)
        ensures
            model_of(r) == self@.times(rhs@),
            r matches Ok(e) ==> e.wf(),
    {
        proof {
            use_type_invariant(&self);
            use_type_invariant(&rhs);
        }
        if self.prime != rhs.prime {
            return Err(OperationError::DifferentPrime);
        }
        let m = self.prime as i64;
        assert(0 <= self.num * rhs.num < 0x4000_0000_0000_0000) by (nonlinear_arith)
            requires
                0 <= self.num < 0x8000_0000,
                0 <= rhs.num < 0x8000_0000,
        ;
        let v = (self.num as i64 * rhs.num as i64) % m;
        proof {
            lemma_mod_bound(self.num * rhs.num, m as int);
        }
        Ok(FieldElement { num: v as i32, prime: self.prime })
    }
}

impl DivSpecImpl for FieldElement {
    open spec fn obeys_div_spec() -> bool {
        true
    }

    open spec fn div_req(self, rhs: FieldElement) -> bool {
        true
    }

    open spec fn div_spec(self, rhs: FieldElement) -> Result<FieldElement, OperationError> {
        element_of(self@.over(rhs@))
    }
}

impl Div for FieldElement {
    type Output = Result<FieldElement, OperationError>;

    /// Field division: `self` times the inverse of `rhs`, which is
    /// `rhs^(prime - 2)`.
    fn div(self, rhs: FieldElement) -> (r: Result<FieldElement, OperationError>)
        ensures
            model_of(r) == self@.over(rhs@),
            r matches Ok(e) ==> e.wf(),
    {
        proof {
            use_type_invariant(&self);
            use_type_invariant(&rhs);
        }
        if rhs.num == 0 {
            return Err(OperationError::DivisionByZero);
        }
        if self.prime != rhs.prime {
            return Err(OperationError::DifferentPrime);
        }
        let m = self.prime as i64;
        let inv = modular_exp(rhs.num, self.prime - 2, self.prime);
        proof {
            let e = (self.prime - 2) as nat;
            lemma_pow0(rhs.num as int);
            lemma_small_mod(1, m as nat);
            lemma_mod_bound(pow(rhs.num as int, e), m as int);
            assert(inv == pow(rhs.num as int, e) % (m as int));
            lemma_mul_mod_noop_general(self.num as int, pow(rhs.num as int, e), m as int);
            lemma_mod_bound(self.num * inv, m as int);
        }
        assert(0 <= self.num * inv < 0x4000_0000_0000_0000) by (nonlinear_arith)
            requires
                0 <= self.num < 0x8000_0000,
                0 <= inv < 0x8000_0000,
        ;
        let v = (self.num as i64 * inv as i64) % m;
        Ok(FieldElement { num: v as i32, prime: self.prime })
    }
}

} // verus!
