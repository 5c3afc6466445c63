//! Primes and divisibility: the facts about integers on which the field
//! laws rest.

use vstd::arithmetic::div_mod::{
    lemma_fundamental_div_mod, lemma_mod_bound, lemma_mod_multiples_basic, lemma_mul_mod_noop_left,
    lemma_mul_mod_noop_right, lemma_small_mod, lemma_sub_mod_noop,
};
use vstd::prelude::*;

verus! {

/// `p` is a prime number: at least 2, and no `d` strictly between 1 and `p`
/// divides it.
pub open spec fn is_prime(p: int) -> bool {
    &&& 2 <= p
    &&& forall|d: int| 1 < d < p ==> #[trigger] (p % d) != 0
}

/// A multiple of something that `m` divides is itself divisible by `m`.
pub proof fn lemma_multiple_of_divisible(k: int, x: int, m: int)
    requires
        0 < m,
        x % m == 0,
    ensures
        (k * x) % m == 0,
        (x * k) % m == 0,
{
    lemma_mul_mod_noop_right(k, x, m);
    lemma_mul_mod_noop_left(x, k, m);
    assert(k * 0 == 0);
    assert(0 * k == 0);
    lemma_small_mod(0, m as nat);
}

/// Euclid's lemma for a factor already reduced below the prime.
proof fn lemma_prime_divides_cofactor(p: int, r: int, b: int)
    requires
        is_prime(p),
        0 < r < p,
        (r * b) % p == 0,
    ensures
        b % p == 0,
    decreases r,
{
    if r == 1 {
        assert(r * b == b) by (nonlinear_arith)
            requires
                r == 1,
        ;
    } else {
        let q = p / r;
        let s = p % r;
        lemma_fundamental_div_mod(p, r);
        lemma_mod_bound(p, r);
        assert(s != 0);
        // s * b == p * b - q * (r * b), and p divides both terms
        assert(s * b == b * p - q * (r * b)) by (nonlinear_arith)
            requires
                p == r * q + s,
        ;
        lemma_mod_multiples_basic(b, p);
        lemma_multiple_of_divisible(q, r * b, p);
        lemma_sub_mod_noop(b * p, q * (r * b), p);
        lemma_small_mod(0, p as nat);
        assert((s * b) % p == 0);
        lemma_prime_divides_cofactor(p, s, b);
    }
}

/// Euclid's lemma: a prime that divides a product divides one of the
/// factors.
pub proof fn lemma_prime_divides_product(p: int, a: int, b: int)
    requires
        is_prime(p),
        (a * b) % p == 0,
    ensures
        a % p == 0 || b % p == 0,
{
    if a % p != 0 {
        lemma_mod_bound(a, p);
        lemma_mul_mod_noop_left(a, b, p);
        lemma_prime_divides_cofactor(p, a % p, b);
    }
}

/// Cancellation modulo a prime: if `c` is not a multiple of `p` and
/// `c * x` and `c * y` leave the same remainder, so do `x` and `y`.
pub proof fn lemma_cancel_mod_prime(p: int, c: int, x: int, y: int)
    requires
        is_prime(p),
        c % p != 0,
        (c * x) % p == (c * y) % p,
    ensures
        x % p == y % p,
{
    vstd::arithmetic::div_mod::lemma_mod_equivalence(c * x, c * y, p);
    assert(c * x - c * y == c * (x - y)) by (nonlinear_arith);
    lemma_prime_divides_product(p, c, x - y);
    vstd::arithmetic::div_mod::lemma_mod_equivalence(x, y, p);
}

} // verus!
