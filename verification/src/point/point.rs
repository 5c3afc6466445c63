//! Points of a curve, with the group law as the operator `+` and scalar
//! multiplication as `n * point`.

use crate::finite_fields::campos_finitos::FieldElement;
use crate::finite_fields::model::Residue;
use crate::finite_fields::primes::is_prime;
use crate::point::laws::{law_inverse_on_curve, law_sum_on_curve};
use crate::point::model::{
    create, lemma_difference_of_residues, lemma_div_mod_of_reduced,
    lemma_equation_by_field_operations, lemma_reflected_y_by_field_operations,
    lemma_tangent_dividend_by_field_operations, lemma_third_x_by_field_operations,
    satisfies_equation, CurvePoint,
};
use std::ops::{Add, Mul};
use vstd::arithmetic::div_mod::{lemma_mod_bound, lemma_small_mod};
use vstd::prelude::*;
use vstd::std_specs::ops::{AddSpecImpl, MulSpecImpl};

verus! {

/// Why a point could not be made.
#[derive(PartialEq, Eq, Debug)]
pub enum CreationError {
    /// The coordinates do not satisfy the equation of the curve.
    NotInCurve,
}

/// Why an operation on points failed.
#[derive(PartialEq, Eq, Debug)]
pub enum OperationError {
    /// The two points lie on different curves.
    CurveMismatch,
    /// The slope of a tangent has a divisor that is zero in the field.
    DivisionByZero,
}

/// A point of the curve `y^2 = x^3 + a*x + b` over a prime field: the
/// identity, or a pair of coordinates.
#[derive(PartialEq, Copy, Clone, Debug)]
pub struct Point {
    a: FieldElement,
    b: FieldElement,
    coordinate: Option<(FieldElement, FieldElement)>,
}

impl View for Point {
    type V = CurvePoint;

    closed spec fn view(&self) -> CurvePoint {
        CurvePoint {
            a: self.a@,
            b: self.b@,
            coordinate: match self.coordinate {
                None => None,
                Some((x, y)) => Some((x@, y@)),
            },
        }
    }
}

/// The model of an optional field element.
pub open spec fn model_of_element(e: Option<FieldElement>) -> Option<Residue> {
    match e {
        None => None,
        Some(e) => Some(e@),
    }
}

/// The model of what `Point::new` returned.
pub open spec fn model_of_created(r: Result<Point, CreationError>) -> Result<
    CurvePoint,
    CreationError,
> {
    match r {
        Ok(p) => Ok(p@),
        Err(e) => Err(e),
    }
}

/// The model of what an operation returned.
pub open spec fn model_of(r: Result<Point, OperationError>) -> Result<CurvePoint, OperationError> {
    match r {
        Ok(p) => Ok(p@),
        Err(e) => Err(e),
    }
}

/// The point of each model, where an operation succeeded.
pub open spec fn point_of(r: Result<CurvePoint, OperationError>) -> Result<Point, OperationError> {
    match r {
        Ok(m) => Ok(Point::of_model(m)),
        Err(e) => Err(e),
    }
}

impl Point {
    /// Coordinates and coefficients are field elements of one modulus, and
    /// over a prime field the coordinates satisfy the equation of the curve.
    #[verifier::type_invariant]
    pub open spec fn wf(self) -> bool {
        &&& self@.wf()
        &&& is_prime(self@.modulus()) ==> self@.on_curve()
    }

    /// The point whose model is `m`, for values and moduli in the range of
    /// `i32`.
    pub closed spec fn of_model(m: CurvePoint) -> Point {
        Point {
            a: FieldElement::of_model(m.a),
            b: FieldElement::of_model(m.b),
            coordinate: match m.coordinate {
                None => None,
                Some((x, y)) => Some((FieldElement::of_model(x), FieldElement::of_model(y))),
            },
        }
    }

    /// `of_model` gives every point back from its own model.
    pub broadcast proof fn lemma_of_view(p: Point)
        ensures
            #[trigger] Self::of_model(p@) == p,
    {
        FieldElement::lemma_of_view(p.a);
        FieldElement::lemma_of_view(p.b);
        match p.coordinate {
            None => {},
            Some((x, y)) => {
                FieldElement::lemma_of_view(x);
                FieldElement::lemma_of_view(y);
            },
        }
    }

    /// The point `(x, y)` of the curve with coefficients `a` and `b`, or,
    /// without `x`, the identity of that curve.
    pub fn new(
        x: Option<FieldElement>,
        y: Option<FieldElement>,
        a: FieldElement,
        b: FieldElement,
    ) -> (r: Result<Point, CreationError>)
        ensures
            model_of_created(r) == create(model_of_element(x), model_of_element(y), a@, b@),
            r matches Ok(p) ==> p.wf() && p@.on_curve(),
            x matches Some(xe) && y matches Some(ye) && !satisfies_equation(
                xe@.value,
                ye@.value,
                a@.value,
                b@.value,
                a@.modulus,
            ) ==> r == Err::<Point, CreationError>(CreationError::NotInCurve),
    {
        proof {
            use_type_invariant(&a);
            use_type_invariant(&b);
        }
        match x {
            None => Ok(Point { a, b, coordinate: None }),
            Some(xe) => match y {
                None => Err(CreationError::NotInCurve),
                Some(ye) => {
                    proof {
                        use_type_invariant(&xe);
                        use_type_invariant(&ye);
                    }
                    let p = a.prime();
                    if xe.prime() != p || ye.prime() != p || b.prime() != p {
                        return Err(CreationError::NotInCurve);
                    }
                    let left = (ye * ye).unwrap();
                    let cube = ((xe * xe).unwrap() * xe).unwrap();
                    let right = ((cube + (a * xe).unwrap()).unwrap() + b).unwrap();
                    proof {
                        lemma_equation_by_field_operations(
                            xe@.value,
                            a@.value,
                            b@.value,
                            p as int,
                        );
                        FieldElement::lemma_equal_models(left, right);
                    }
                    if left == right {
                        Ok(Point { a, b, coordinate: Some((xe, ye)) })
                    } else {
                        Err(CreationError::NotInCurve)
                    }
                },
            },
        }
    }

    /// The coefficient `a` of the curve.
    pub fn a(&self) -> (a: FieldElement)
        ensures
            a@ == self@.a,
    {
        self.a
    }

    /// The coefficient `b` of the curve.
    pub fn b(&self) -> (b: FieldElement)
        ensures
            b@ == self@.b,
    {
        self.b
    }

    /// The coordinates `(x, y)`, or nothing for the identity.
    pub fn coordinate(&self) -> (c: Option<(FieldElement, FieldElement)>)
        ensures
            match c {
                None => self@.coordinate is None,
                Some((x, y)) => self@.coordinate == Some((x@, y@)),
            },
    {
        self.coordinate
    }

    /// The inverse of `self` in the group.
    pub fn negate(&self) -> (r: Point)
        ensures
            r@ == self@.negated(),
            r.wf(),
    {
        proof {
            use_type_invariant(self);
        }
        match self.coordinate {
            None => *self,
            Some((x, y)) => {
                proof {
                    use_type_invariant(&y);
                }
                let zero = (y - y).unwrap();
                let mirrored = (zero - y).unwrap();
                proof {
                    let p = y@.modulus;
                    lemma_small_mod(0, p as nat);
                    lemma_mod_bound(-y@.value, p);
                    if is_prime(p) {
                        law_inverse_on_curve(self@);
                    }
                }
                Point { a: self.a, b: self.b, coordinate: Some((x, mirrored)) }
            },
        }
    }
}

impl AddSpecImpl for Point {
    open spec fn obeys_add_spec() -> bool {
        true
    }

    open spec fn add_req(self, rhs: Point) -> bool {
        true
    }

    open spec fn add_spec(self, rhs: Point) -> Result<Point, OperationError> {
        point_of(self@.plus(rhs@))
    }
}

impl Add for Point {
    type Output = Result<Point, OperationError>;

    /// The group law.
    fn add(self, rhs: Point) -> (r: Result<Point, OperationError>)
        ensures
            model_of(r) == self@.plus(rhs@),
            r == Err::<Point, OperationError>(OperationError::CurveMismatch) <==> !self@.same_curve(
                rhs@,
            ),
            r matches Ok(sum) ==> sum.wf(),
    {
        proof {
            broadcast use Point::lemma_of_view;

            use_type_invariant(&self);
            use_type_invariant(&rhs);
            FieldElement::lemma_equal_models(self.a, rhs.a);
            FieldElement::lemma_equal_models(self.b, rhs.b);
        }
        if self.a != rhs.a || self.b != rhs.b {
            return Err(OperationError::CurveMismatch);
        }
        let (x1, y1) = match self.coordinate {
            None => {
                return Ok(rhs);
            },
            Some(c) => c,
        };
        let (x2, y2) = match rhs.coordinate {
            None => {
                return Ok(self);
            },
            Some(c) => c,
        };
        proof {
            use_type_invariant(&x1);
            use_type_invariant(&y1);
            use_type_invariant(&x2);
            use_type_invariant(&y2);
            FieldElement::lemma_equal_models(x1, x2);
            FieldElement::lemma_equal_models(y1, y2);
        }
        let ghost p = self@.a.modulus;
        proof {
            if is_prime(p) {
                law_sum_on_curve(self@, rhs@);
            }
        }
        let identity = Point { a: self.a, b: self.b, coordinate: None };
        if x1 == x2 && y1 != y2 {
            return Ok(identity);
        }
        let slope = if x1 != x2 {
            let rise = (y2 - y1).unwrap();
            let run = (x2 - x1).unwrap();
            proof {
                lemma_difference_of_residues(x1@.value, x2@.value, p);
                lemma_div_mod_of_reduced(y2@.value - y1@.value, x2@.value - x1@.value, p);
            }
            (rise / run).unwrap()
        } else {
            if y1.num() == 0 {
                return Ok(identity);
            }
            let square = (x1 * x1).unwrap();
            let dividend = (((square + square).unwrap() + square).unwrap() + self.a).unwrap();
            let divisor = (y1 + y1).unwrap();
            proof {
                lemma_tangent_dividend_by_field_operations(x1@.value, self@.a.value, p);
                lemma_div_mod_of_reduced(3 * x1@.value * x1@.value + self@.a.value, 2 * y1@.value, p);
            }
            if divisor.num() == 0 {
                return Err(OperationError::DivisionByZero);
            }
            (dividend / divisor).unwrap()
        };
        let x3 = (((slope * slope).unwrap() - x1).unwrap() - x2).unwrap();
        let y3 = ((slope * (x1 - x3).unwrap()).unwrap() - y1).unwrap();
        proof {
            let s = slope@.value;
            lemma_third_x_by_field_operations(s, x1@.value, x2@.value, p);
            lemma_reflected_y_by_field_operations(s, x1@.value, y1@.value, x3@.value, p);
            lemma_mod_bound(s * s - x1@.value - x2@.value, p);
            lemma_mod_bound(s * (x1@.value - x3@.value) - y1@.value, p);
        }
        Ok(Point { a: self.a, b: self.b, coordinate: Some((x3, y3)) })
    }
}

impl MulSpecImpl<Point> for i32 {
    open spec fn obeys_mul_spec() -> bool {
        true
    }

    open spec fn mul_req(self, rhs: Point) -> bool {
        true
    }

    open spec fn mul_spec(self, rhs: Point) -> Result<Point, OperationError> {
        point_of(rhs@.times(self as int))
    }
}

impl Mul<Point> for i32 {
    type Output = Result<Point, OperationError>;

    /// The multiple `self * rhs`, by double-and-add. A negative `self`
    /// multiplies the inverse of `rhs`.
    fn mul(self, rhs: Point) -> (r: Result<Point, OperationError>)
        ensures
            model_of(r) == rhs@.times(self as int),
            r matches Ok(multiple) ==> multiple.wf(),
    {
        proof {
            broadcast use Point::lemma_of_view;

            use_type_invariant(&rhs);
        }
        let mut s: u32 = if self < 0 {
            (-(self as i64)) as u32
        } else {
            self as u32
        };
        let mut actual = if self < 0 {
            rhs.negate()
        } else {
            rhs
        };
        let mut result = Point { a: rhs.a, b: rhs.b, coordinate: None };
        while s != 0
            invariant
                CurvePoint::double_and_add(s as nat, result@, actual@) == rhs@.times(self as int),
            decreases s,
        {
            if s % 2 == 1 {
                result = match result + actual {
                    Ok(sum) => sum,
                    Err(e) => {
                        return Err(e);
                    },
                };
            }
            actual = match actual + actual {
                Ok(double) => double,
                Err(e) => {
                    return Err(e);
                },
            };
            s = s / 2;
        }
        proof {
            use_type_invariant(&result);
        }
        Ok(result)
    }
}

} // verus!
