//! The field laws, proved of the model.

use crate::finite_fields::campos_finitos::OperationError;
use crate::finite_fields::fermat::{lemma_fermat_little, lemma_inverse_mod_prime};
use crate::finite_fields::model::{reduced_exponent, Residue};
use crate::finite_fields::primes::is_prime;
use vstd::arithmetic::div_mod::{
    lemma_add_mod_noop, lemma_fundamental_div_mod, lemma_mod_add_multiples_vanish, lemma_mod_bound,
    lemma_mod_twice, lemma_mul_mod_noop_general, lemma_small_mod, lemma_sub_mod_noop,
};
use vstd::arithmetic::power::{lemma_pow0, lemma_pow_adds, lemma_pow_multiplies, lemma1_pow, pow};
use vstd::prelude::*;

verus! {

/// Every operation that succeeds returns a residue in `[0, modulus)` of the
/// same modulus.
pub proof fn law_results_are_residues(a: Residue, b: Residue, exp: int)
    requires
        a.wf(),
        b.wf(),
    ensures
        a.plus(b) matches Ok(c) ==> c.wf() && c.modulus == a.modulus,
        a.minus(b) matches Ok(c) ==> c.wf() && c.modulus == a.modulus,
        a.times(b) matches Ok(c) ==> c.wf() && c.modulus == a.modulus,
        a.over(b) matches Ok(c) ==> c.wf() && c.modulus == a.modulus,
        a.power(exp).wf() && a.power(exp).modulus == a.modulus,
        a.zero().wf(),
        a.one().wf(),
{
    let m = a.modulus;
    lemma_mod_bound(a.value + b.value, m);
    lemma_mod_bound(a.value - b.value, m);
    lemma_mod_bound(a.value * b.value, m);
    lemma_mod_bound(a.value * pow(b.value, (m - 2) as nat), m);
    lemma_mod_bound(pow(a.value, reduced_exponent(exp, m)), m);
    lemma_mod_bound(1, m);
}

/// Addition commutes: `a + b == b + a`.
pub proof fn law_add_commutative(a: Residue, b: Residue)
    ensures
        a.plus(b) == b.plus(a),
{
}

/// Multiplication commutes: `a * b == b * a`.
pub proof fn law_mul_commutative(a: Residue, b: Residue)
    ensures
        a.times(b) == b.times(a),
{
    assert(a.value * b.value == b.value * a.value) by (nonlinear_arith);
}

/// Addition is associative: `(a + b) + c == a + (b + c)`.
pub proof fn law_add_associative(a: Residue, b: Residue, c: Residue)
    requires
        a.wf(),
        b.wf(),
        c.wf(),
        a.modulus == b.modulus,
        b.modulus == c.modulus,
    ensures
        a.plus(b) is Ok,
        b.plus(c) is Ok,
        a.plus(b).unwrap().plus(c) == a.plus(b.plus(c).unwrap()),
{
    let m = a.modulus;
    lemma_add_mod_noop(a.value + b.value, c.value, m);
    lemma_add_mod_noop(a.value, b.value + c.value, m);
    lemma_small_mod(a.value as nat, m as nat);
    lemma_small_mod(c.value as nat, m as nat);
    assert((a.value + b.value) + c.value == a.value + (b.value + c.value));
}

/// Multiplication is associative: `(a * b) * c == a * (b * c)`.
pub proof fn law_mul_associative(a: Residue, b: Residue, c: Residue)
    requires
        a.wf(),
        b.wf(),
        c.wf(),
        a.modulus == b.modulus,
        b.modulus == c.modulus,
    ensures
        a.times(b) is Ok,
        b.times(c) is Ok,
        a.times(b).unwrap().times(c) == a.times(b.times(c).unwrap()),
{
    let m = a.modulus;
    lemma_mul_mod_noop_general(a.value * b.value, c.value, m);
    lemma_mul_mod_noop_general(a.value, b.value * c.value, m);
    assert((a.value * b.value) * c.value == a.value * (b.value * c.value)) by (nonlinear_arith);
}

/// Multiplication distributes over addition:
/// `a * (b + c) == a * b + a * c`.
pub proof fn law_distributive(a: Residue, b: Residue, c: Residue)
    requires
        a.wf(),
        b.wf(),
        c.wf(),
        a.modulus == b.modulus,
        b.modulus == c.modulus,
    ensures
        b.plus(c) is Ok,
        a.times(b) is Ok,
        a.times(c) is Ok,
        a.times(b.plus(c).unwrap()) == a.times(b).unwrap().plus(a.times(c).unwrap()),
{
    let m = a.modulus;
    lemma_mul_mod_noop_general(a.value, b.value + c.value, m);
    lemma_add_mod_noop(a.value * b.value, a.value * c.value, m);
    assert(a.value * (b.value + c.value) == a.value * b.value + a.value * c.value)
        by (nonlinear_arith);
}

/// Zero is the additive identity: `a + 0 == a`.
pub proof fn law_add_zero(a: Residue)
    requires
        a.wf(),
    ensures
        a.plus(a.zero()) == Ok::<Residue, OperationError>(a),
        a.zero().plus(a) == Ok::<Residue, OperationError>(a),
{
    lemma_small_mod(a.value as nat, a.modulus as nat);
}

/// Every element is its own additive inverse under subtraction:
/// `a - a == 0`.
pub proof fn law_sub_self(a: Residue)
    requires
        a.wf(),
    ensures
        a.minus(a) == Ok::<Residue, OperationError>(a.zero()),
{
    lemma_small_mod(0, a.modulus as nat);
}

/// In a prime field, dividing by `b` undoes multiplying by `b`:
/// `(a / b) * b == a` for `b != 0`.
pub proof fn law_div_inverts_mul(a: Residue, b: Residue)
    requires
        a.wf(),
        b.wf(),
        a.modulus == b.modulus,
        is_prime(a.modulus),
        b.value != 0,
    ensures
        a.over(b) is Ok,
        a.over(b).unwrap().times(b) == Ok::<Residue, OperationError>(a),
{
    let p = a.modulus;
    let inv = pow(b.value, (p - 2) as nat);
    lemma_small_mod(b.value as nat, p as nat);
    lemma_inverse_mod_prime(p, b.value);
    // ((a * inv) % p * b) % p == (a * inv * b) % p == (a * (b * inv % p)) % p == a
    lemma_mul_mod_noop_general(a.value * inv, b.value, p);
    assert((a.value * inv) * b.value == a.value * (b.value * inv)) by (nonlinear_arith);
    lemma_mul_mod_noop_general(a.value, b.value * inv, p);
    assert(a.value * 1 == a.value);
    lemma_small_mod(a.value as nat, p as nat);
}

/// In a prime field every nonzero element divided by itself is one:
/// `a / a == 1`.
pub proof fn law_div_self(a: Residue)
    requires
        a.wf(),
        is_prime(a.modulus),
        a.value != 0,
    ensures
        a.over(a) == Ok::<Residue, OperationError>(a.one()),
{
    lemma_small_mod(a.value as nat, a.modulus as nat);
    lemma_inverse_mod_prime(a.modulus, a.value);
    lemma_small_mod(1, a.modulus as nat);
}

/// In a prime field every nonzero element times its reciprocal is one:
/// `a * (1 / a) == 1`.
pub proof fn law_mul_reciprocal(a: Residue)
    requires
        a.wf(),
        is_prime(a.modulus),
        a.value != 0,
    ensures
        a.one().over(a) is Ok,
        a.times(a.one().over(a).unwrap()) == Ok::<Residue, OperationError>(a.one()),
{
    let p = a.modulus;
    let inv = pow(a.value, (p - 2) as nat);
    lemma_small_mod(a.value as nat, p as nat);
    lemma_inverse_mod_prime(p, a.value);
    lemma_small_mod(1, p as nat);
    assert(1 * inv == inv);
    lemma_mul_mod_noop_general(a.value, inv, p);
}

/// Raising to the power `modulus - 1` gives one, for every modulus above 1:
/// the exponent reduces to zero.
pub proof fn law_power_group_order(a: Residue)
    requires
        a.wf(),
        a.modulus > 1,
    ensures
        a.power(a.modulus - 1) == a.one(),
{
    let m = a.modulus;
    vstd::arithmetic::div_mod::lemma_mod_self_0(m - 1);
    lemma_pow0(a.value);
}

/// Fermat's little theorem in a prime field: a nonzero element multiplied
/// by itself `modulus - 1` times is one, so what `power` does to the
/// exponent changes no result: `power(a, e) == a^e` for every `e >= 0`.
pub proof fn law_power_is_repeated_product(a: Residue, exp: nat)
    requires
        a.wf(),
        is_prime(a.modulus),
        a.value != 0,
    ensures
        pow(a.value, (a.modulus - 1) as nat) % a.modulus == 1,
        a.power(exp as int).value == pow(a.value, exp) % a.modulus,
{
    let p = a.modulus;
    let n = (p - 1) as nat;
    let q = (exp as int / (p - 1)) as nat;
    let r = (exp as int % (p - 1)) as nat;
    lemma_small_mod(a.value as nat, p as nat);
    lemma_fermat_little(p, a.value);
    lemma_fundamental_div_mod(exp as int, p - 1);
    lemma_mod_bound(exp as int, p - 1);
    vstd::arithmetic::div_mod::lemma_div_pos_is_pos(exp as int, p - 1);
    // a^exp == (a^(p-1))^q * a^r
    assert(exp == n * q + r);
    lemma_pow_adds(a.value, n * q, r);
    lemma_pow_multiplies(a.value, n, q);
    let base = pow(a.value, n);
    lemma_mul_mod_noop_general(pow(base, q), pow(a.value, r), p);
    vstd::arithmetic::power::lemma_pow_mod_noop(base, q, p);
    lemma1_pow(q);
    lemma_small_mod(1, p as nat);
    assert(pow(base, q) % p == 1);
    assert(1 * (pow(a.value, r) % p) == pow(a.value, r) % p);
    vstd::arithmetic::div_mod::lemma_mod_twice(pow(a.value, r), p);
}

/// Subtraction undoes addition: `(a + b) - b == a`.
pub proof fn law_sub_inverts_add(a: Residue, b: Residue)
    requires
        a.wf(),
        b.wf(),
        a.modulus == b.modulus,
    ensures
        a.plus(b) is Ok,
        a.plus(b).unwrap().minus(b) == Ok::<Residue, OperationError>(a),
{
    let m = a.modulus;
    lemma_sub_mod_noop(a.value + b.value, b.value, m);
    lemma_small_mod(a.value as nat, m as nat);
    lemma_small_mod(b.value as nat, m as nat);
    lemma_mod_twice(a.value + b.value, m);
    lemma_sub_mod_noop((a.value + b.value) % m, b.value, m);
}

/// In a prime field a negative exponent gives the inverse of what the
/// positive one gives: `a^e * a^(-e) == 1` for `a != 0`.
pub proof fn law_power_negative_inverts(a: Residue, exp: int)
    requires
        a.wf(),
        is_prime(a.modulus),
        a.value != 0,
    ensures
        a.power(exp).times(a.power(-exp)) == Ok::<Residue, OperationError>(a.one()),
{
    let p = a.modulus;
    let n = p - 1;
    let r = reduced_exponent(exp, p) as int;
    let t = reduced_exponent(-exp, p) as int;
    lemma_mod_bound(exp, n);
    lemma_mod_bound(-exp, n);
    // r + t is a multiple of p - 1 below 2 * (p - 1)
    lemma_add_mod_noop(exp, -exp, n);
    lemma_small_mod(0, n as nat);
    assert((r + t) % n == 0);
    if r + t != 0 {
        if r + t < n {
            lemma_small_mod((r + t) as nat, n as nat);
        } else {
            lemma_mod_add_multiples_vanish(r + t - n, n);
            lemma_small_mod((r + t - n) as nat, n as nat);
        }
        assert(r + t == n);
        lemma_small_mod(a.value as nat, p as nat);
        lemma_fermat_little(p, a.value);
    } else {
        lemma_pow0(a.value);
    }
    lemma_small_mod(1, p as nat);
    lemma_pow_adds(a.value, r as nat, t as nat);
    lemma_mul_mod_noop_general(pow(a.value, r as nat), pow(a.value, t as nat), p);
}

} // verus!
