//! Laws of the group of points, proved of the model.

use crate::finite_fields::fermat::lemma_inverse_mod_prime;
use crate::finite_fields::model::div_mod;
use crate::finite_fields::primes::{
    is_prime, lemma_cancel_mod_prime, lemma_multiple_of_divisible, lemma_prime_divides_product,
};
use crate::point::model::{
    chord_slope, lemma_difference_of_residues, lemma_div_mod_of_reduced, reflected_y,
    satisfies_equation, tangent_slope, third_x, CurvePoint,
};
use crate::point::point::OperationError;
use vstd::arithmetic::div_mod::{
    lemma_add_mod_noop, lemma_mod_add_multiples_vanish, lemma_mod_bound, lemma_mod_equivalence,
    lemma_mod_twice, lemma_mul_mod_noop_general, lemma_small_mod, lemma_sub_mod_noop,
};
use vstd::arithmetic::power::pow;
use vstd::prelude::*;

verus! {

/// A sum of two well-formed points is a well-formed point of their curve.
pub proof fn lemma_sum_is_well_formed(p: CurvePoint, q: CurvePoint)
    requires
        p.wf(),
        q.wf(),
    ensures
        p.plus(q) matches Ok(r) ==> r.wf() && r.same_curve(p) && r.same_curve(q),
{
    if p.same_curve(q) {
        if let (Some((x1, y1)), Some((x2, y2))) = (p.coordinate, q.coordinate) {
            let m = p.a.modulus;
            let s = if x1 != x2 {
                chord_slope(x1.value, y1.value, x2.value, y2.value, m)
            } else {
                tangent_slope(x1.value, y1.value, p.a.value, m)
            };
            let x3 = third_x(s, x1.value, x2.value, m);
            lemma_mod_bound(s * s - x1.value - x2.value, m);
            lemma_mod_bound(s * (x1.value - x3) - y1.value, m);
        }
    }
}

/// Over a field of odd modulus every two points of one curve have a sum.
pub proof fn lemma_sum_exists(p: CurvePoint, q: CurvePoint)
    requires
        p.wf(),
        q.wf(),
        p.same_curve(q),
        p.modulus() % 2 == 1,
    ensures
        p.plus(q) is Ok,
{
    if let (Some((x1, y1)), Some((x2, y2))) = (p.coordinate, q.coordinate) {
        let m = p.a.modulus;
        if y1.value != 0 {
            // 0 < 2 * y < 2 * m, and m itself is odd
            if 2 * y1.value < m {
                lemma_small_mod((2 * y1.value) as nat, m as nat);
            } else {
                lemma_mod_add_multiples_vanish(2 * y1.value - m, m);
                lemma_small_mod((2 * y1.value - m) as nat, m as nat);
            }
        }
    }
}

/// The identity is neutral: `P + O == P` and `O + P == P`.
pub proof fn law_identity(p: CurvePoint)
    ensures
        p.plus(p.identity()) == Ok::<CurvePoint, OperationError>(p),
        p.identity().plus(p) == Ok::<CurvePoint, OperationError>(p),
{
}

/// Over a field of odd modulus every point and its inverse add up to the
/// identity: `P + (-P) == O`.
pub proof fn law_inverse(p: CurvePoint)
    requires
        p.wf(),
        p.modulus() % 2 == 1,
    ensures
        p.plus(p.negated()) == Ok::<CurvePoint, OperationError>(p.identity()),
        p.negated().plus(p) == Ok::<CurvePoint, OperationError>(p.identity()),
{
    if let Some((x, y)) = p.coordinate {
        let m = p.a.modulus;
        lemma_mod_bound(-y.value, m);
        lemma_sum_exists(p, p);
        if y.value != 0 {
            // -y is congruent to y only where 2 * y is a multiple of the modulus
            lemma_mod_add_multiples_vanish(-y.value, m);
            lemma_small_mod((m - y.value) as nat, m as nat);
        } else {
            lemma_small_mod(0, m as nat);
        }
    }
}

/// Modulo a prime `p`, `div_mod(a, b, p)` times `b` is congruent to `a`,
/// for `b` not a multiple of `p`.
pub proof fn lemma_div_mod_times_divisor(a: int, b: int, p: int)
    requires
        is_prime(p),
        b % p != 0,
    ensures
        (div_mod(a, b, p) * b) % p == a % p,
{
    let inv = pow(b, (p - 2) as nat);
    lemma_inverse_mod_prime(p, b);
    lemma_mul_mod_noop_general(a * inv, b, p);
    assert((a * inv) * b == a * (b * inv)) by (nonlinear_arith);
    lemma_mul_mod_noop_general(a, b * inv, p);
    assert(a * 1 == a);
}

/// The slope of a chord does not depend on the order of its two points.
proof fn lemma_chord_slope_symmetric(x1: int, y1: int, x2: int, y2: int, p: int)
    requires
        is_prime(p),
        0 <= x1 < p,
        0 <= x2 < p,
        x1 != x2,
    ensures
        chord_slope(x1, y1, x2, y2, p) == chord_slope(x2, y2, x1, y1, p),
{
    let s = chord_slope(x1, y1, x2, y2, p);
    let t = chord_slope(x2, y2, x1, y1, p);
    let d = x2 - x1;
    let r = y2 - y1;
    lemma_difference_of_residues(x1, x2, p);
    lemma_difference_of_residues(x2, x1, p);
    lemma_div_mod_times_divisor(r, d, p);
    lemma_div_mod_times_divisor(-r, -d, p);
    // t * (-d) is congruent to -r, so t * d is congruent to r
    lemma_mod_equivalence(t * (-d), -r, p);
    assert(t * (-d) - (-r) == -(t * d - r)) by (nonlinear_arith);
    lemma_multiple_of_divisible(-1, t * (-d) - (-r), p);
    assert(-1 * (-(t * d - r)) == t * d - r);
    lemma_mod_equivalence(t * d, r, p);
    assert(d * s == s * d && d * t == t * d) by (nonlinear_arith);
    lemma_cancel_mod_prime(p, d, s, t);
    lemma_mod_bound(r * pow(d, (p - 2) as nat), p);
    lemma_mod_bound((-r) * pow(-d, (p - 2) as nat), p);
    lemma_small_mod(s as nat, p as nat);
    lemma_small_mod(t as nat, p as nat);
}

/// Addition commutes over a prime field: `P + Q == Q + P`.
pub proof fn law_add_commutative(p: CurvePoint, q: CurvePoint)
    requires
        p.wf(),
        q.wf(),
        is_prime(p.modulus()),
    ensures
        p.plus(q) == q.plus(p),
{
    if p.same_curve(q) {
        if let (Some((x1, y1)), Some((x2, y2))) = (p.coordinate, q.coordinate) {
            if x1 != x2 {
                let m = p.a.modulus;
                let s = chord_slope(x1.value, y1.value, x2.value, y2.value, m);
                lemma_chord_slope_symmetric(x1.value, y1.value, x2.value, y2.value, m);
                let x3 = third_x(s, x1.value, x2.value, m);
                assert(s * s - x1.value - x2.value == s * s - x2.value - x1.value);
                // the two reflected ordinates differ by r - s * d, a multiple of the modulus
                let d = x2.value - x1.value;
                let r = y2.value - y1.value;
                lemma_difference_of_residues(x1.value, x2.value, m);
                lemma_div_mod_times_divisor(r, d, m);
                lemma_mod_equivalence(s * d, r, m);
                let u = s * (x1.value - x3) - y1.value;
                let v = s * (x2.value - x3) - y2.value;
                assert(v - u == s * d - r) by (nonlinear_arith)
                    requires
                        u == s * (x1.value - x3) - y1.value,
                        v == s * (x2.value - x3) - y2.value,
                        d == x2.value - x1.value,
                        r == y2.value - y1.value,
                ;
                lemma_mod_equivalence(v, u, m);
                assert(reflected_y(s, x1.value, y1.value, x3, m) == reflected_y(
                    s,
                    x2.value,
                    y2.value,
                    x3,
                    m,
                ));
            }
        }
    }
}

/// Doubling is adding a point to itself, `2 * P == P + P`, over every field
/// whose modulus is odd or 2.
pub proof fn law_double_is_self_sum(p: CurvePoint)
    requires
        p.wf(),
        p.modulus() % 2 == 1 || p.modulus() == 2,
    ensures
        p.times(2) == p.plus(p),
{
    reveal_with_fuel(CurvePoint::double_and_add, 3);
    lemma_sum_is_well_formed(p, p);
    if let Ok(double) = p.plus(p) {
        law_identity(double);
        assert(p.identity() == double.identity());
        if p.modulus() == 2 {
            if let Some((x, y)) = p.coordinate {
                assert(y.value == 0);
            }
            assert(double.coordinate is None);
        } else {
            lemma_sum_exists(double, double);
        }
        assert(double.plus(double) is Ok);
    }
}

/// The multiples by 0 and by 1: `0 * P` is the identity, and `1 * P == P`
/// wherever `P + P` exists.
pub proof fn law_small_multiples(p: CurvePoint)
    ensures
        p.times(0) == Ok::<CurvePoint, OperationError>(p.identity()),
        p.plus(p) is Ok ==> p.times(1) == Ok::<CurvePoint, OperationError>(p),
{
    reveal_with_fuel(CurvePoint::double_and_add, 2);
    law_identity(p);
}

/// The polynomial identity behind the group law. On the line of slope `s`
/// through `(x1, y1)`, the cubic of the curve less the square of the line
/// changes from `x1` to `x` by `x - x1` times a quadratic.
proof fn lemma_cubic_along_line(s: int, x1: int, y1: int, x: int, a: int, b: int)
    ensures
        ({
            let line = s * (x - x1) + y1;
            let quad = x * x + x * x1 + x1 * x1 + a - s * s * (x - x1) - 2 * s * y1;
            (x * x * x + a * x + b - line * line) - (x1 * x1 * x1 + a * x1 + b - y1 * y1) == (x
                - x1) * quad
        }),
{
    let t = x - x1;
    let st = s * t;
    let line = st + y1;
    let q = x * x + x * x1 + x1 * x1;
    let quad = q + a - s * s * t - 2 * s * y1;
    assert(x * x * x - x1 * x1 * x1 == t * q) by (nonlinear_arith)
        requires
            t == x - x1,
            q == x * x + x * x1 + x1 * x1,
    ;
    assert(a * x - a * x1 == t * a) by (nonlinear_arith)
        requires
            t == x - x1,
    ;
    assert(line * line == st * st + 2 * (st * y1) + y1 * y1) by (nonlinear_arith)
        requires
            line == st + y1,
    ;
    assert(s * s * t == s * st) by (nonlinear_arith)
        requires
            st == s * t,
    ;
    assert(t * (s * st) == st * st) by (nonlinear_arith)
        requires
            st == s * t,
    ;
    assert(t * (2 * s * y1) == 2 * (st * y1)) by (nonlinear_arith)
        requires
            st == s * t,
    ;
    assert(t * quad == t * q + t * a - t * (s * st) - t * (2 * s * y1)) by (nonlinear_arith)
        requires
            quad == q + a - s * st - 2 * s * y1,
    ;
}

/// The line of slope `s` through a point `(x1, y1)` of the curve meets the
/// curve again at `third_x`, provided that it meets it at `x2` as well:
/// the cubic that vanishes where line and curve meet, divided by `x - x1`,
/// is the quadratic `x^2 + x*x1 + x1^2 + a - s^2 * (x - x1) - 2*s*y1`, which
/// is asked to vanish at `x2`.
proof fn lemma_line_meets_curve_again(s: int, x1: int, y1: int, x2: int, a: int, b: int, p: int)
    requires
        p > 0,
        satisfies_equation(x1, y1, a, b, p),
        (x2 * x2 + x2 * x1 + x1 * x1 + a - s * s * (x2 - x1) - 2 * s * y1) % p == 0,
    ensures
        ({
            let x3 = third_x(s, x1, x2, p);
            satisfies_equation(x3, reflected_y(s, x1, y1, x3, p), a, b, p)
        }),
{
    let x3 = third_x(s, x1, x2, p);
    let y3 = reflected_y(s, x1, y1, x3, p);
    let line = s * (x1 - x3) - y1;
    let cubic1 = x1 * x1 * x1 + a * x1 + b;
    let cubic3 = x3 * x3 * x3 + a * x3 + b;
    let quad2 = x2 * x2 + x2 * x1 + x1 * x1 + a - s * s * (x2 - x1) - 2 * s * y1;
    let quad3 = x3 * x3 + x3 * x1 + x1 * x1 + a - s * s * (x3 - x1) - 2 * s * y1;
    // x3 is congruent to s^2 - x1 - x2
    let k = x3 + x2 + x1 - s * s;
    lemma_mod_twice(s * s - x1 - x2, p);
    lemma_mod_equivalence(x3, s * s - x1 - x2, p);
    assert(k % p == 0);
    // so the quadratic vanishes at x3 too
    assert(quad3 == quad2 + (x3 - x2) * k) by (nonlinear_arith)
        requires
            quad2 == x2 * x2 + x2 * x1 + x1 * x1 + a - s * s * (x2 - x1) - 2 * s * y1,
            quad3 == x3 * x3 + x3 * x1 + x1 * x1 + a - s * s * (x3 - x1) - 2 * s * y1,
            k == x3 + x2 + x1 - s * s,
    ;
    lemma_multiple_of_divisible(x3 - x2, k, p);
    lemma_add_mod_noop(quad2, (x3 - x2) * k, p);
    lemma_small_mod(0, p as nat);
    assert(quad3 % p == 0);
    // and with it the cubic
    lemma_mod_equivalence(cubic1, y1 * y1, p);
    lemma_cubic_along_line(s, x1, y1, x3, a, b);
    let mirrored = s * (x3 - x1) + y1;
    assert(line * line == mirrored * mirrored) by (nonlinear_arith)
        requires
            line == s * (x1 - x3) - y1,
            mirrored == s * (x3 - x1) + y1,
    ;
    assert(cubic3 - line * line == (cubic1 - y1 * y1) + (x3 - x1) * quad3);
    lemma_multiple_of_divisible(x3 - x1, quad3, p);
    lemma_add_mod_noop(cubic1 - y1 * y1, (x3 - x1) * quad3, p);
    lemma_mod_equivalence(cubic3, line * line, p);
    lemma_mul_mod_noop_general(line, line, p);
}

/// The chord through two points of the curve with different `x` meets the
/// curve at `x2`, in the sense that `lemma_line_meets_curve_again` asks for.
proof fn lemma_chord_meets_curve(x1: int, y1: int, x2: int, y2: int, a: int, b: int, p: int)
    requires
        is_prime(p),
        0 <= x1 < p,
        0 <= x2 < p,
        x1 != x2,
        satisfies_equation(x1, y1, a, b, p),
        satisfies_equation(x2, y2, a, b, p),
    ensures
        ({
            let s = chord_slope(x1, y1, x2, y2, p);
            (x2 * x2 + x2 * x1 + x1 * x1 + a - s * s * (x2 - x1) - 2 * s * y1) % p == 0
        }),
{
    let s = chord_slope(x1, y1, x2, y2, p);
    let d = x2 - x1;
    let cubic1 = x1 * x1 * x1 + a * x1 + b;
    let cubic2 = x2 * x2 * x2 + a * x2 + b;
    let quad2 = x2 * x2 + x2 * x1 + x1 * x1 + a - s * s * (x2 - x1) - 2 * s * y1;
    // the line takes the value y2 at x2, up to a multiple of p
    let line = s * d + y1;
    lemma_difference_of_residues(x1, x2, p);
    lemma_div_mod_times_divisor(y2 - y1, d, p);
    lemma_mod_equivalence(s * d, y2 - y1, p);
    lemma_mod_equivalence(line, y2, p);
    lemma_mul_mod_noop_general(line, line, p);
    lemma_mul_mod_noop_general(y2, y2, p);
    // so the cubic vanishes at x2 as it does at x1
    lemma_mod_equivalence(cubic2, line * line, p);
    lemma_mod_equivalence(cubic1, y1 * y1, p);
    lemma_cubic_along_line(s, x1, y1, x2, a, b);
    assert((cubic2 - line * line) - (cubic1 - y1 * y1) == d * quad2);
    lemma_sub_mod_noop(cubic2 - line * line, cubic1 - y1 * y1, p);
    lemma_small_mod(0, p as nat);
    assert((d * quad2) % p == 0);
    lemma_prime_divides_product(p, d, quad2);
}

/// The tangent at a point of the curve meets the curve twice there, in the
/// sense that `lemma_line_meets_curve_again` asks for.
proof fn lemma_tangent_meets_curve(x1: int, y1: int, a: int, p: int)
    requires
        is_prime(p),
        (2 * y1) % p != 0,
    ensures
        ({
            let s = tangent_slope(x1, y1, a, p);
            (x1 * x1 + x1 * x1 + x1 * x1 + a - s * s * (x1 - x1) - 2 * s * y1) % p == 0
        }),
{
    let s = tangent_slope(x1, y1, a, p);
    let quad = x1 * x1 + x1 * x1 + x1 * x1 + a - s * s * (x1 - x1) - 2 * s * y1;
    lemma_div_mod_times_divisor(3 * x1 * x1 + a, 2 * y1, p);
    lemma_mod_equivalence(3 * x1 * x1 + a, s * (2 * y1), p);
    assert(quad == (3 * x1 * x1 + a) - s * (2 * y1)) by (nonlinear_arith)
        requires
            quad == x1 * x1 + x1 * x1 + x1 * x1 + a - s * s * (x1 - x1) - 2 * s * y1,
    ;
}

/// The group law is closed over a prime field: the sum of two points that
/// satisfy the equation of their curve satisfies it too.
pub proof fn law_sum_on_curve(p: CurvePoint, q: CurvePoint)
    requires
        p.wf(),
        q.wf(),
        is_prime(p.modulus()),
        p.on_curve(),
        q.on_curve(),
    ensures
        p.plus(q) matches Ok(r) ==> r.on_curve(),
{
    if p.same_curve(q) {
        if let (Some((x1, y1)), Some((x2, y2))) = (p.coordinate, q.coordinate) {
            let m = p.a.modulus;
            if x1 != x2 {
                let s = chord_slope(x1.value, y1.value, x2.value, y2.value, m);
                lemma_chord_meets_curve(
                    x1.value,
                    y1.value,
                    x2.value,
                    y2.value,
                    p.a.value,
                    p.b.value,
                    m,
                );
                lemma_line_meets_curve_again(
                    s,
                    x1.value,
                    y1.value,
                    x2.value,
                    p.a.value,
                    p.b.value,
                    m,
                );
            } else if y1 == y2 && y1.value != 0 && (2 * y1.value) % m != 0 {
                let s = tangent_slope(x1.value, y1.value, p.a.value, m);
                lemma_tangent_meets_curve(x1.value, y1.value, p.a.value, m);
                lemma_line_meets_curve_again(
                    s,
                    x1.value,
                    y1.value,
                    x1.value,
                    p.a.value,
                    p.b.value,
                    m,
                );
            }
        }
    }
}

/// The inverse of a point that satisfies the equation of its curve
/// satisfies it too.
pub proof fn law_inverse_on_curve(p: CurvePoint)
    requires
        p.wf(),
        p.on_curve(),
    ensures
        p.negated().wf(),
        p.negated().same_curve(p),
        p.negated().on_curve(),
{
    if let Some((x, y)) = p.coordinate {
        let m = p.a.modulus;
        lemma_mod_bound(-y.value, m);
        lemma_mul_mod_noop_general(-y.value, -y.value, m);
        assert((-y.value) * (-y.value) == y.value * y.value) by (nonlinear_arith);
    }
}

/// Double-and-add stays on the curve where it starts on it.
proof fn lemma_double_and_add_on_curve(n: nat, acc: CurvePoint, run: CurvePoint)
    requires
        acc.wf(),
        run.wf(),
        acc.same_curve(run),
        is_prime(run.modulus()),
        acc.on_curve(),
        run.on_curve(),
    ensures
        CurvePoint::double_and_add(n, acc, run) matches Ok(r) ==> r.wf() && r.same_curve(run)
            && r.on_curve(),
    decreases n,
{
    if n != 0 {
        lemma_sum_is_well_formed(acc, run);
        lemma_sum_is_well_formed(run, run);
        law_sum_on_curve(acc, run);
        law_sum_on_curve(run, run);
        let added = if n % 2 == 1 {
            acc.plus(run)
        } else {
            Ok(acc)
        };
        if let (Ok(acc2), Ok(run2)) = (added, run.plus(run)) {
            lemma_double_and_add_on_curve(n / 2, acc2, run2);
        }
    }
}

/// Scalar multiplication is closed over a prime field: every multiple of a
/// point that satisfies the equation of its curve satisfies it too.
pub proof fn law_multiple_on_curve(p: CurvePoint, n: int)
    requires
        p.wf(),
        is_prime(p.modulus()),
        p.on_curve(),
    ensures
        p.times(n) matches Ok(r) ==> r.wf() && r.same_curve(p) && r.on_curve(),
{
    law_inverse_on_curve(p);
    if n >= 0 {
        lemma_double_and_add_on_curve(n as nat, p.identity(), p);
    } else {
        lemma_double_and_add_on_curve((-n) as nat, p.identity(), p.negated());
    }
}

/// Over a prime field other than that of two elements, every multiple of a
/// point exists.
pub proof fn law_multiple_exists(p: CurvePoint, n: int)
    requires
        p.wf(),
        is_prime(p.modulus()),
        p.modulus() != 2,
    ensures
        p.times(n) is Ok,
{
    lemma_prime_above_two_is_odd(p.modulus());
    lemma_mod_bound(-1, p.modulus());
    if n >= 0 {
        lemma_double_and_add_exists(n as nat, p.identity(), p);
    } else {
        if let Some((x, y)) = p.coordinate {
            lemma_mod_bound(-y.value, p.modulus());
        }
        lemma_double_and_add_exists((-n) as nat, p.identity(), p.negated());
    }
}

/// A prime other than 2 is odd.
proof fn lemma_prime_above_two_is_odd(p: int)
    requires
        is_prime(p),
        p != 2,
    ensures
        p % 2 == 1,
{
    if p % 2 == 0 {
        assert(p % 2 != 0);
    }
}

/// Over a field of odd modulus double-and-add never fails.
proof fn lemma_double_and_add_exists(n: nat, acc: CurvePoint, run: CurvePoint)
    requires
        acc.wf(),
        run.wf(),
        acc.same_curve(run),
        run.modulus() % 2 == 1,
    ensures
        CurvePoint::double_and_add(n, acc, run) is Ok,
    decreases n,
{
    if n != 0 {
        lemma_sum_is_well_formed(acc, run);
        lemma_sum_is_well_formed(run, run);
        lemma_sum_exists(acc, run);
        lemma_sum_exists(run, run);
        let added = if n % 2 == 1 {
            acc.plus(run)
        } else {
            Ok(acc)
        };
        lemma_double_and_add_exists(n / 2, added.unwrap(), run.plus(run).unwrap());
    }
}

/// An odd power of `-z` is the negative of that power of `z`.
proof fn lemma_odd_power_of_negative(z: int, e: nat)
    ensures
        e % 2 == 1 ==> pow(-z, e) == -pow(z, e),
        e % 2 == 0 ==> pow(-z, e) == pow(z, e),
    decreases e,
{
    reveal(pow);
    if e > 0 {
        lemma_odd_power_of_negative(z, (e - 1) as nat);
        let w = pow(z, (e - 1) as nat);
        assert((-z) * w == -(z * w) && (-z) * (-w) == z * w) by (nonlinear_arith);
    }
}

/// Negating the dividend or, for an odd modulus, the divisor negates the
/// quotient.
proof fn lemma_div_mod_of_negative(a: int, b: int, p: int)
    requires
        p > 0,
    ensures
        div_mod(-a, b, p) == (-div_mod(a, b, p)) % p,
        p % 2 == 1 && p > 1 ==> div_mod(a, -b, p) == (-div_mod(a, b, p)) % p,
{
    let e = (p - 2) as nat;
    let inv = pow(b, e);
    lemma_mul_mod_noop_general(-1, a * inv, p);
    assert(-1 * (a * inv) == (-a) * inv) by (nonlinear_arith);
    assert(-1 * ((a * inv) % p) == -((a * inv) % p));
    if p % 2 == 1 && p > 1 {
        lemma_odd_power_of_negative(b, e);
        assert(-1 * (a * inv) == a * (-inv)) by (nonlinear_arith);
    }
}

/// The negatives of two residues agree exactly where the residues do.
proof fn lemma_negation_is_injective(y1: int, y2: int, p: int)
    requires
        0 <= y1 < p,
        0 <= y2 < p,
    ensures
        (-y1) % p == (-y2) % p <==> y1 == y2,
        (-y1) % p == 0 <==> y1 == 0,
        (2 * ((-y1) % p)) % p == 0 <==> (2 * y1) % p == 0,
{
    lemma_mod_equivalence(-y1, -y2, p);
    lemma_difference_of_residues(y1, y2, p);
    lemma_difference_of_residues(y1, 0, p);
    lemma_small_mod(0, p as nat);
    lemma_mul_mod_noop_general(2, -y1, p);
    lemma_mod_equivalence(2 * (-y1), 0, p);
    lemma_mod_equivalence(0, 2 * y1, p);
}

/// The negative of what an operation returned.
pub open spec fn negated_result(r: Result<CurvePoint, OperationError>) -> Result<
    CurvePoint,
    OperationError,
> {
    match r {
        Ok(p) => Ok(p.negated()),
        Err(e) => Err(e),
    }
}

/// Over a field of odd modulus the inverse of a sum is the sum of the
/// inverses: `(-P) + (-Q) == -(P + Q)`.
pub proof fn law_inverse_of_sum(p: CurvePoint, q: CurvePoint)
    requires
        p.wf(),
        q.wf(),
        p.modulus() % 2 == 1,
    ensures
        p.negated().plus(q.negated()) == negated_result(p.plus(q)),
{
    if p.same_curve(q) {
        if let (Some((x1, y1)), Some((x2, y2))) = (p.coordinate, q.coordinate) {
            let m = p.a.modulus;
            let a = p.a.value;
            let n1 = (-y1.value) % m;
            let n2 = (-y2.value) % m;
            lemma_negation_is_injective(y1.value, y2.value, m);
            lemma_sum_exists(p, q);
            if x1 != x2 || y1.value != 0 {
                // the slope of the mirrored line is the negative of the slope
                let s = if x1 != x2 {
                    chord_slope(x1.value, y1.value, x2.value, y2.value, m)
                } else {
                    tangent_slope(x1.value, y1.value, a, m)
                };
                let t = if x1 != x2 {
                    chord_slope(x1.value, n1, x2.value, n2, m)
                } else {
                    tangent_slope(x1.value, n1, a, m)
                };
                assert(t == (-s) % m) by {
                    if x1 != x2 {
                        let d = x2.value - x1.value;
                        lemma_div_mod_of_reduced(n2 - n1, d, m);
                        lemma_div_mod_of_reduced(-(y2.value - y1.value), d, m);
                        lemma_sub_mod_noop(-y2.value, -y1.value, m);
                        lemma_div_mod_of_negative(y2.value - y1.value, d, m);
                    } else {
                        let top = 3 * x1.value * x1.value + a;
                        lemma_div_mod_of_reduced(top, 2 * n1, m);
                        lemma_div_mod_of_reduced(top, -(2 * y1.value), m);
                        lemma_mul_mod_noop_general(2, -y1.value, m);
                        lemma_div_mod_of_negative(top, 2 * y1.value, m);
                    }
                }
                let x3 = third_x(s, x1.value, x2.value, m);
                // the square of the slope is what it was
                lemma_mul_mod_noop_general(-s, -s, m);
                assert((-s) * (-s) == s * s) by (nonlinear_arith);
                lemma_sub_mod_noop(t * t, x1.value + x2.value, m);
                lemma_sub_mod_noop(s * s, x1.value + x2.value, m);
                assert(third_x(t, x1.value, x2.value, m) == x3);
                // and the line through the mirrored point is the mirrored line
                let line = s * (x1.value - x3) - y1.value;
                let mirrored = t * (x1.value - x3) - n1;
                lemma_mul_mod_noop_general(-s, x1.value - x3, m);
                lemma_sub_mod_noop(t * (x1.value - x3), n1, m);
                lemma_mod_twice(-y1.value, m);
                lemma_sub_mod_noop((-s) * (x1.value - x3), -y1.value, m);
                assert((-s) * (x1.value - x3) - (-y1.value) == -line) by (nonlinear_arith)
                    requires
                        line == s * (x1.value - x3) - y1.value,
                ;
                lemma_mul_mod_noop_general(-1, line, m);
                assert(-1 * line == -line && -1 * (line % m) == -(line % m));
                assert(mirrored % m == (-(line % m)) % m);
            }
        }
    }
}

/// Double-and-add from mirrored points gives the mirrored result.
proof fn lemma_double_and_add_of_inverses(n: nat, acc: CurvePoint, run: CurvePoint)
    requires
        acc.wf(),
        run.wf(),
        acc.same_curve(run),
        run.modulus() % 2 == 1,
    ensures
        CurvePoint::double_and_add(n, acc.negated(), run.negated()) == negated_result(
            CurvePoint::double_and_add(n, acc, run),
        ),
    decreases n,
{
    if n != 0 {
        lemma_sum_is_well_formed(acc, run);
        lemma_sum_is_well_formed(run, run);
        lemma_sum_exists(acc, run);
        lemma_sum_exists(run, run);
        law_inverse_of_sum(acc, run);
        law_inverse_of_sum(run, run);
        let added = if n % 2 == 1 {
            acc.plus(run)
        } else {
            Ok(acc)
        };
        lemma_double_and_add_of_inverses(n / 2, added.unwrap(), run.plus(run).unwrap());
    }
}

/// Over a field of odd modulus the multiple by `-n` is the inverse of the
/// multiple by `n`: `(-n) * P == -(n * P)`.
pub proof fn law_negative_multiple(p: CurvePoint, n: int)
    requires
        p.wf(),
        p.modulus() % 2 == 1,
    ensures
        p.times(-n) == negated_result(p.times(n)),
{
    let m = p.modulus();
    if n > 0 {
        lemma_double_and_add_of_inverses(n as nat, p.identity(), p);
    } else if n < 0 {
        if let Some((x, y)) = p.coordinate {
            lemma_mod_bound(-y.value, m);
            // negating twice gives the point back
            let mirrored = (-y.value) % m;
            lemma_mul_mod_noop_general(-1, -y.value, m);
            assert(-1 * (-y.value) == y.value && -1 * mirrored == -mirrored);
            lemma_small_mod(y.value as nat, m as nat);
        }
        assert(p.negated().negated() == p);
        lemma_double_and_add_of_inverses((-n) as nat, p.identity(), p.negated());
        lemma_double_and_add_exists((-n) as nat, p.identity(), p.negated());
    } else {
        reveal_with_fuel(CurvePoint::double_and_add, 1);
    }
}

} // verus!
