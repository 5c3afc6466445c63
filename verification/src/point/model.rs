//! The mathematical model of a curve point and of the group law.

use crate::finite_fields::model::{add_mod, div_mod, mul_mod, sub_mod, Residue};
use crate::point::point::{CreationError, OperationError};
use vstd::arithmetic::div_mod::{
    lemma_add_mod_noop, lemma_mod_add_multiples_vanish, lemma_mod_twice,
    lemma_mul_mod_noop_general, lemma_small_mod, lemma_sub_mod_noop,
};
use vstd::arithmetic::power::{lemma_pow_mod_noop, pow};
use vstd::prelude::*;

verus! {

/// `(x, y)` satisfies `y^2 = x^3 + a*x + b` modulo `p`.
pub open spec fn satisfies_equation(x: int, y: int, a: int, b: int, p: int) -> bool {
    (y * y) % p == (x * x * x + a * x + b) % p
}

/// The slope of the chord through `(x1, y1)` and `(x2, y2)`, modulo `p`.
pub open spec fn chord_slope(x1: int, y1: int, x2: int, y2: int, p: int) -> int {
    div_mod(y2 - y1, x2 - x1, p)
}

/// The slope of the tangent at `(x1, y1)` to the curve with coefficient
/// `a`, modulo `p`.
pub open spec fn tangent_slope(x1: int, y1: int, a: int, p: int) -> int {
    div_mod(3 * x1 * x1 + a, 2 * y1, p)
}

/// The x coordinate of the third point of the curve on the line of slope
/// `s` that meets it at the points with x coordinates `x1` and `x2`.
pub open spec fn third_x(s: int, x1: int, x2: int, p: int) -> int {
    (s * s - x1 - x2) % p
}

/// The y coordinate of the sum: the line of slope `s` through `(x1, y1)`,
/// taken at `x3` and reflected.
pub open spec fn reflected_y(s: int, x1: int, y1: int, x3: int, p: int) -> int {
    (s * (x1 - x3) - y1) % p
}

/// A point of the curve `y^2 = x^3 + a*x + b`: the identity, which has no
/// coordinate, or a pair `(x, y)`.
pub struct CurvePoint {
    pub a: Residue,
    pub b: Residue,
    pub coordinate: Option<(Residue, Residue)>,
}

impl CurvePoint {
    /// The coefficients are residues, and so are the coordinates where
    /// there are any; coordinates and coefficients then share one modulus.
    pub open spec fn wf(self) -> bool {
        &&& self.a.wf()
        &&& self.b.wf()
        &&& match self.coordinate {
            None => true,
            Some((x, y)) => {
                &&& x.wf()
                &&& y.wf()
                &&& x.modulus == self.a.modulus
                &&& y.modulus == self.a.modulus
                &&& self.b.modulus == self.a.modulus
            },
        }
    }

    /// The modulus of the field that the curve is defined over.
    pub open spec fn modulus(self) -> int {
        self.a.modulus
    }

    /// The coordinates, where there are any, satisfy the curve's equation.
    pub open spec fn on_curve(self) -> bool {
        match self.coordinate {
            None => true,
            Some((x, y)) => satisfies_equation(
                x.value,
                y.value,
                self.a.value,
                self.b.value,
                self.a.modulus,
            ),
        }
    }

    /// The identity of the curve that `self` lies on.
    pub open spec fn identity(self) -> CurvePoint {
        CurvePoint { a: self.a, b: self.b, coordinate: None }
    }

    /// The point `(x, y)` of the curve that `self` lies on.
    pub open spec fn at(self, x: int, y: int) -> CurvePoint {
        CurvePoint {
            a: self.a,
            b: self.b,
            coordinate: Some(
                (
                    Residue { value: x, modulus: self.a.modulus },
                    Residue { value: y, modulus: self.a.modulus },
                ),
            ),
        }
    }

    /// `self` and `other` lie on the same curve: both coefficients agree,
    /// in value and in modulus.
    pub open spec fn same_curve(self, other: CurvePoint) -> bool {
        self.a == other.a && self.b == other.b
    }

    /// The inverse of `self`: its reflection in the x axis.
    pub open spec fn negated(self) -> CurvePoint {
        match self.coordinate {
            None => self,
            Some((x, y)) => self.at(x.value, (-y.value) % self.a.modulus),
        }
    }

    /// The sum of two points with coordinates `(x1, y1)` and `(x2, y2)`
    /// where `x1 != x2`: the third point of the curve on the chord through
    /// them, reflected.
    pub open spec fn chord_sum(self, x1: int, y1: int, x2: int, y2: int) -> CurvePoint {
        let p = self.a.modulus;
        let s = chord_slope(x1, y1, x2, y2, p);
        let x3 = third_x(s, x1, x2, p);
        self.at(x3, reflected_y(s, x1, y1, x3, p))
    }

    /// The double of the point `(x1, y1)`: the second point of the curve on
    /// the tangent at it, reflected.
    pub open spec fn tangent_sum(self, x1: int, y1: int) -> CurvePoint {
        let p = self.a.modulus;
        let s = tangent_slope(x1, y1, self.a.value, p);
        let x3 = third_x(s, x1, x1, p);
        self.at(x3, reflected_y(s, x1, y1, x3, p))
    }

    /// The group law. Points of different curves have no sum. Otherwise the
    /// first of these that applies gives it:
    /// the identity added to a point is that point;
    /// two points with one `x` and different `y` add up to the identity;
    /// two points with different `x` add up to `chord_sum`;
    /// a point with `y == 0` added to itself gives the identity;
    /// any other point added to itself gives `tangent_sum`, unless the
    /// divisor `2 * y` of the slope is zero in the field, which is reported.
    pub open spec fn plus(self, rhs: CurvePoint) -> Result<CurvePoint, OperationError> {
        if !self.same_curve(rhs) {
            Err(OperationError::CurveMismatch)
        } else {
            match (self.coordinate, rhs.coordinate) {
                (None, _) => Ok(rhs),
                (_, None) => Ok(self),
                (Some((x1, y1)), Some((x2, y2))) => {
                    if x1 == x2 && y1 != y2 {
                        Ok(self.identity())
                    } else if x1 != x2 {
                        Ok(self.chord_sum(x1.value, y1.value, x2.value, y2.value))
                    } else if y1.value == 0 {
                        Ok(self.identity())
                    } else if (2 * y1.value) % self.a.modulus == 0 {
                        Err(OperationError::DivisionByZero)
                    } else {
                        Ok(self.tangent_sum(x1.value, y1.value))
                    }
                },
            }
        }
    }

    /// Double-and-add on the bits of `n`, from the lowest up: where the bit
    /// is set, `run` is added to `acc`; then `run` is doubled. The first
    /// addition that fails ends it.
    pub open spec fn double_and_add(n: nat, acc: CurvePoint, run: CurvePoint) -> Result<
        CurvePoint,
        OperationError,
    >
        decreases n,
    {
        if n == 0 {
            Ok(acc)
        } else {
            let added = if n % 2 == 1 {
                acc.plus(run)
            } else {
                Ok(acc)
            };
            match (added, run.plus(run)) {
                (Ok(acc2), Ok(run2)) => Self::double_and_add(n / 2, acc2, run2),
                (Err(e), _) => Err(e),
                (_, Err(e)) => Err(e),
            }
        }
    }

    /// The multiple `n * self`: for `n >= 0` by double-and-add from the
    /// identity, for `n < 0` the multiple `(-n) * (-self)`.
    pub open spec fn times(self, n: int) -> Result<CurvePoint, OperationError> {
        if n >= 0 {
            Self::double_and_add(n as nat, self.identity(), self)
        } else {
            Self::double_and_add((-n) as nat, self.identity(), self.negated())
        }
    }
}

/// What making a point from optional coordinates gives. Without `x` it is
/// the identity. With `x`, it is the point `(x, y)` if `y` is there too, the
/// four residues share one modulus and the equation of the curve holds;
/// else nothing.
pub open spec fn create(x: Option<Residue>, y: Option<Residue>, a: Residue, b: Residue) -> Result<
    CurvePoint,
    CreationError,
> {
    match (x, y) {
        (None, _) => Ok(CurvePoint { a, b, coordinate: None }),
        (Some(x), Some(y)) => {
            if x.modulus == a.modulus && y.modulus == a.modulus && b.modulus == a.modulus
                && satisfies_equation(x.value, y.value, a.value, b.value, a.modulus) {
                Ok(CurvePoint { a, b, coordinate: Some((x, y)) })
            } else {
                Err(CreationError::NotInCurve)
            }
        },
        (Some(_), None) => Err(CreationError::NotInCurve),
    }
}

/// Reducing the dividend and the divisor first changes no quotient.
pub proof fn lemma_div_mod_of_reduced(a: int, b: int, p: int)
    requires
        p > 0,
    ensures
        div_mod(a % p, b % p, p) == div_mod(a, b, p),
{
    let e = (p - 2) as nat;
    lemma_pow_mod_noop(b, e, p);
    lemma_mul_mod_noop_general(a % p, pow(b % p, e), p);
    lemma_mul_mod_noop_general(a, pow(b, e), p);
    lemma_mod_twice(a, p);
}

/// The right-hand side of the curve's equation, computed one field
/// operation at a time.
pub proof fn lemma_equation_by_field_operations(x: int, a: int, b: int, p: int)
    requires
        p > 0,
    ensures
        add_mod(add_mod(mul_mod(mul_mod(x, x, p), x, p), mul_mod(a, x, p), p), b, p) == (x * x * x
            + a * x + b) % p,
{
    lemma_mul_mod_noop_general(x * x, x, p);
    lemma_add_mod_noop(x * x * x, a * x, p);
    lemma_add_mod_noop(x * x * x + a * x, b, p);
    lemma_add_mod_noop((x * x * x + a * x) % p, b, p);
    lemma_mod_twice(x * x * x + a * x, p);
}

/// `third_x`, computed one field operation at a time.
pub proof fn lemma_third_x_by_field_operations(s: int, x1: int, x2: int, p: int)
    requires
        p > 0,
    ensures
        sub_mod(sub_mod(mul_mod(s, s, p), x1, p), x2, p) == third_x(s, x1, x2, p),
{
    lemma_sub_mod_noop(s * s, x1, p);
    lemma_sub_mod_noop((s * s) % p, x1, p);
    lemma_mod_twice(s * s, p);
    lemma_sub_mod_noop(s * s - x1, x2, p);
    lemma_sub_mod_noop((s * s - x1) % p, x2, p);
    lemma_mod_twice(s * s - x1, p);
}

/// `reflected_y`, computed one field operation at a time.
pub proof fn lemma_reflected_y_by_field_operations(s: int, x1: int, y1: int, x3: int, p: int)
    requires
        p > 0,
    ensures
        sub_mod(mul_mod(s, sub_mod(x1, x3, p), p), y1, p) == reflected_y(s, x1, y1, x3, p),
{
    lemma_mul_mod_noop_general(s, x1 - x3, p);
    lemma_sub_mod_noop(s * (x1 - x3), y1, p);
    lemma_sub_mod_noop((s * (x1 - x3)) % p, y1, p);
    lemma_mod_twice(s * (x1 - x3), p);
}

/// The dividend `3 * x^2 + a` of the tangent's slope, computed by field
/// additions of `x^2`.
pub proof fn lemma_tangent_dividend_by_field_operations(x: int, a: int, p: int)
    requires
        p > 0,
    ensures
        ({
            let xx = mul_mod(x, x, p);
            add_mod(add_mod(add_mod(xx, xx, p), xx, p), a, p)
        }) == (3 * x * x + a) % p,
{
    let xx = (x * x) % p;
    lemma_add_mod_noop(x * x, x * x, p);
    lemma_add_mod_noop(x * x + x * x, x * x, p);
    lemma_add_mod_noop((x * x + x * x) % p, xx, p);
    lemma_mod_twice(x * x + x * x, p);
    lemma_mod_twice(x * x, p);
    assert(x * x + x * x + x * x == 3 * x * x) by (nonlinear_arith);
    lemma_add_mod_noop(3 * x * x, a, p);
    lemma_add_mod_noop((3 * x * x) % p, a, p);
    lemma_mod_twice(3 * x * x, p);
}

/// Two different residues differ modulo `p`.
pub proof fn lemma_difference_of_residues(x1: int, x2: int, p: int)
    requires
        0 <= x1 < p,
        0 <= x2 < p,
    ensures
        (x2 - x1) % p == 0 <==> x1 == x2,
{
    if x2 > x1 {
        lemma_small_mod((x2 - x1) as nat, p as nat);
    } else if x2 < x1 {
        lemma_mod_add_multiples_vanish(x2 - x1, p);
        lemma_small_mod((p + x2 - x1) as nat, p as nat);
    } else {
        lemma_small_mod(0, p as nat);
    }
}

} // verus!
