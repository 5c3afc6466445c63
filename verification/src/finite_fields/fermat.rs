//! Fermat's little theorem, proved from the binomial theorem.
//!
//! For a prime `p` every binomial coefficient `C(p, k)` with `0 < k < p` is a
//! multiple of `p`, so `(x + 1)^p` and `x^p + 1` leave the same remainder.
//! Induction on `x` gives `x^p ≡ x`, and cancelling one factor `x` gives
//! `x^(p-1) ≡ 1` for every `x` that `p` does not divide.

use crate::finite_fields::primes::{
    is_prime, lemma_cancel_mod_prime, lemma_multiple_of_divisible, lemma_prime_divides_product,
};
use vstd::arithmetic::div_mod::{
    lemma_add_mod_noop, lemma_mod_multiples_basic, lemma_small_mod,
};
use vstd::arithmetic::power::{lemma0_pow, lemma_pow0, lemma_pow_mod_noop, pow};
use vstd::prelude::*;

verus! {

/// The binomial coefficient `C(n, k)`, by Pascal's rule.
pub open spec fn binomial(n: nat, k: nat) -> nat
    decreases n,
{
    if k == 0 {
        1
    } else if n == 0 {
        0
    } else {
        binomial((n - 1) as nat, (k - 1) as nat) + binomial((n - 1) as nat, k)
    }
}

/// `C(n, k)` is zero above the diagonal.
proof fn lemma_binomial_above(n: nat, k: nat)
    requires
        k > n,
    ensures
        binomial(n, k) == 0,
    decreases n,
{
    if n > 0 {
        lemma_binomial_above((n - 1) as nat, (k - 1) as nat);
        lemma_binomial_above((n - 1) as nat, k);
    }
}

/// `C(n, n)` is one.
proof fn lemma_binomial_diagonal(n: nat)
    ensures
        binomial(n, n) == 1,
    decreases n,
{
    if n > 0 {
        lemma_binomial_diagonal((n - 1) as nat);
        lemma_binomial_above((n - 1) as nat, n);
    }
}

/// The absorption identity `k * C(n, k) == n * C(n - 1, k - 1)`.
proof fn lemma_binomial_absorption(n: nat, k: nat)
    requires
        n >= 1,
        k >= 1,
    ensures
        k * binomial(n, k) == n * binomial((n - 1) as nat, (k - 1) as nat),
    decreases n,
{
    let n1 = (n - 1) as nat;
    let k1 = (k - 1) as nat;
    if n == 1 {
        if k > 1 {
            lemma_binomial_above(0, k1);
            lemma_binomial_above(0, k);
        }
        assert(binomial(1, k) == binomial(0, k1) + binomial(0, k));
        assert(binomial(0, k) == 0);
        assert(k * binomial(n, k) == n * binomial(n1, k1)) by (nonlinear_arith)
            requires
                n == 1,
                binomial(n, k) == binomial(n1, k1),
                k == 1 || binomial(n1, k1) == 0,
        ;
    } else {
        let n2 = (n - 2) as nat;
        // k * C(n-1, k) == (n-1) * C(n-2, k-1)
        lemma_binomial_absorption(n1, k);
        let a = binomial(n1, k1);
        let b = binomial(n1, k);
        let c = binomial(n2, k1);
        assert(binomial(n, k) == a + b);
        if k == 1 {
            assert(a == 1);
            assert(c == 1);
            assert(k * (a + b) == n * a) by (nonlinear_arith)
                requires
                    k == 1,
                    a == 1,
                    c == 1,
                    k * b == n1 * c,
                    n == n1 + 1,
            ;
        } else {
            let k2 = (k - 2) as nat;
            // (k-1) * C(n-1, k-1) == (n-1) * C(n-2, k-2)
            lemma_binomial_absorption(n1, k1);
            let d = binomial(n2, k2);
            assert(a == d + c);
            assert(k * (a + b) == n * a) by (nonlinear_arith)
                requires
                    k * b == n1 * c,
                    k1 * a == n1 * d,
                    a == d + c,
                    n == n1 + 1,
                    k == k1 + 1,
            ;
        }
    }
}

/// A prime divides every binomial coefficient of its own row except the two
/// at the ends.
proof fn lemma_prime_divides_binomial(p: nat, k: nat)
    requires
        is_prime(p as int),
        0 < k < p,
    ensures
        binomial(p, k) % p == 0,
{
    let pi = p as int;
    lemma_binomial_absorption(p, k);
    let c = binomial(p, k) as int;
    let d = binomial((p - 1) as nat, (k - 1) as nat) as int;
    assert(k * c == d * pi) by (nonlinear_arith)
        requires
            k * c == pi * d,
    ;
    lemma_mod_multiples_basic(d, pi);
    lemma_prime_divides_product(pi, k as int, c);
    lemma_small_mod(k, p);
}

/// The sum of the first `m + 1` terms `C(n, i) * x^i` of the expansion of
/// `(x + 1)^n`.
pub open spec fn binomial_sum(n: nat, x: int, m: nat) -> int
    decreases m,
{
    if m == 0 {
        binomial(n, 0) * pow(x, 0)
    } else {
        binomial_sum(n, x, (m - 1) as nat) + binomial(n, m) * pow(x, m)
    }
}

/// Multiplying a partial sum of row `n` by `x + 1` gives the partial sum of
/// row `n + 1` and one term that is carried over.
proof fn lemma_binomial_sum_step(n: nat, x: int, m: nat)
    ensures
        (x + 1) * binomial_sum(n, x, m) == binomial_sum(n + 1, x, m) + binomial(n, m) * pow(
            x,
            m + 1,
        ),
    decreases m,
{
    reveal(pow);
    if m == 0 {
        lemma_pow0(x);
        assert(pow(x, 1) == x * pow(x, 0));
        assert(binomial_sum(n, x, 0) == 1) by (nonlinear_arith)
            requires
                binomial_sum(n, x, 0) == binomial(n, 0) * pow(x, 0),
                binomial(n, 0) == 1,
                pow(x, 0) == 1,
        ;
        assert(binomial_sum(n + 1, x, 0) == 1) by (nonlinear_arith)
            requires
                binomial_sum(n + 1, x, 0) == binomial(n + 1, 0) * pow(x, 0),
                binomial(n + 1, 0) == 1,
                pow(x, 0) == 1,
        ;
        assert((x + 1) * 1 == 1 + 1 * (x * 1)) by (nonlinear_arith);
    } else {
        let m1 = (m - 1) as nat;
        lemma_binomial_sum_step(n, x, m1);
        let s = binomial_sum(n, x, m1);
        let t = binomial_sum(n + 1, x, m1);
        let cm = binomial(n, m) as int;
        let cm1 = binomial(n, m1) as int;
        let xm = pow(x, m);
        let xm1 = pow(x, m + 1);
        assert(xm1 == x * xm);
        assert(binomial(n + 1, m) == cm1 + cm);
        assert(binomial_sum(n, x, m) == s + cm * xm);
        assert(binomial_sum(n + 1, x, m) == t + (cm1 + cm) * xm);
        assert((x + 1) * (s + cm * xm) == t + (cm1 + cm) * xm + cm * xm1) by (nonlinear_arith)
            requires
                (x + 1) * s == t + cm1 * xm,
                xm1 == x * xm,
        ;
    }
}

/// The binomial theorem for `(x + 1)^n`.
proof fn lemma_binomial_theorem(n: nat, x: int)
    ensures
        pow(x + 1, n) == binomial_sum(n, x, n),
    decreases n,
{
    reveal(pow);
    if n == 0 {
        lemma_pow0(x);
        lemma_pow0(x + 1);
        assert(binomial(0, 0) * pow(x, 0) == 1) by (nonlinear_arith)
            requires
                binomial(0, 0) == 1,
                pow(x, 0) == 1,
        ;
    } else {
        let n1 = (n - 1) as nat;
        lemma_binomial_theorem(n1, x);
        lemma_binomial_sum_step(n1, x, n1);
        lemma_binomial_diagonal(n1);
        lemma_binomial_diagonal(n);
        assert(pow(x + 1, n) == (x + 1) * pow(x + 1, n1));
        assert(binomial_sum(n, x, n) == binomial_sum(n, x, n1) + binomial(n, n) * pow(x, n));
    }
}

/// Modulo a prime `p`, every partial sum of row `p` short of the last term
/// is congruent to its first term, 1.
proof fn lemma_binomial_sum_mod_prime(p: nat, x: int, m: nat)
    requires
        is_prime(p as int),
        m < p,
    ensures
        binomial_sum(p, x, m) % (p as int) == 1,
    decreases m,
{
    let pi = p as int;
    if m == 0 {
        lemma_pow0(x);
        assert(binomial(p, 0) * pow(x, 0) == 1) by (nonlinear_arith)
            requires
                binomial(p, 0) == 1,
                pow(x, 0) == 1,
        ;
        lemma_small_mod(1, p);
    } else {
        let m1 = (m - 1) as nat;
        lemma_binomial_sum_mod_prime(p, x, m1);
        lemma_prime_divides_binomial(p, m);
        let term = binomial(p, m) * pow(x, m);
        lemma_multiple_of_divisible(pow(x, m), binomial(p, m) as int, pi);
        lemma_add_mod_noop(binomial_sum(p, x, m1), term, pi);
        lemma_small_mod(1, p);
    }
}

/// Modulo a prime `p`, `(x + 1)^p` is congruent to `x^p + 1`.
proof fn lemma_successor_pow_prime(p: nat, x: int)
    requires
        is_prime(p as int),
    ensures
        pow(x + 1, p) % (p as int) == (pow(x, p) + 1) % (p as int),
{
    let pi = p as int;
    let p1 = (p - 1) as nat;
    lemma_binomial_theorem(p, x);
    lemma_binomial_sum_mod_prime(p, x, p1);
    lemma_binomial_diagonal(p);
    let last = binomial(p, p) * pow(x, p);
    assert(last == pow(x, p)) by (nonlinear_arith)
        requires
            last == binomial(p, p) * pow(x, p),
            binomial(p, p) == 1,
    ;
    assert(binomial_sum(p, x, p) == binomial_sum(p, x, p1) + last);
    lemma_add_mod_noop(binomial_sum(p, x, p1), last, pi);
    lemma_add_mod_noop(1, last, pi);
    lemma_small_mod(1, p);
}

/// For a prime `p` and every `x >= 0`, `x^p` is congruent to `x`.
proof fn lemma_pow_prime_nat(p: nat, x: nat)
    requires
        is_prime(p as int),
    ensures
        pow(x as int, p) % (p as int) == x % p,
    decreases x,
{
    let pi = p as int;
    if x == 0 {
        lemma0_pow(p);
    } else {
        let y = (x - 1) as nat;
        lemma_pow_prime_nat(p, y);
        lemma_successor_pow_prime(p, y as int);
        lemma_add_mod_noop(pow(y as int, p), 1, pi);
        lemma_add_mod_noop(y as int, 1, pi);
    }
}

/// For a prime `p` and every integer `x`, `x^p` is congruent to `x`.
pub proof fn lemma_pow_prime(p: int, x: int)
    requires
        is_prime(p),
    ensures
        pow(x, p as nat) % p == x % p,
{
    let r = x % p;
    vstd::arithmetic::div_mod::lemma_mod_bound(x, p);
    lemma_pow_mod_noop(x, p as nat, p);
    lemma_pow_prime_nat(p as nat, r as nat);
    lemma_small_mod(r as nat, p as nat);
}

/// Fermat's little theorem: for a prime `p` and an integer `x` that `p`
/// does not divide, `x^(p-1)` is congruent to 1.
pub proof fn lemma_fermat_little(p: int, x: int)
    requires
        is_prime(p),
        x % p != 0,
    ensures
        pow(x, (p - 1) as nat) % p == 1,
{
    reveal(pow);
    lemma_pow_prime(p, x);
    let y = pow(x, (p - 1) as nat);
    assert(pow(x, p as nat) == x * y);
    assert(x * 1 == x);
    lemma_cancel_mod_prime(p, x, y, 1);
    lemma_small_mod(1, p as nat);
}

/// For a prime `p` and `b` not a multiple of `p`, `b^(p-2)` is the inverse
/// of `b` modulo `p`.
pub proof fn lemma_inverse_mod_prime(p: int, b: int)
    requires
        is_prime(p),
        b % p != 0,
    ensures
        (b * pow(b, (p - 2) as nat)) % p == 1,
{
    reveal(pow);
    lemma_fermat_little(p, b);
    assert(pow(b, (p - 1) as nat) == b * pow(b, (p - 2) as nat));
}

} // verus!
