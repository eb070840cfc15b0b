//! Multiplicative inverses modulo a prime, by the extended Euclidean
//! algorithm.

use crate::prime::is_prime;
use vstd::arithmetic::div_mod::*;
use vstd::arithmetic::mul::*;
use vstd::prelude::*;

verus! {

/// `d` is a positive divisor of `n`.
pub open spec fn divides(d: int, n: int) -> bool {
    d > 0 && n % d == 0
}

/// `x` is the reduced multiplicative inverse of `a` modulo `p`.
pub open spec fn is_inverse(a: int, x: int, p: int) -> bool {
    0 <= x < p && (a * x) % p == 1
}

/// The reduced multiplicative inverse of `a` modulo `p`, where there is one.
pub open spec fn finv(a: int, p: int) -> int {
    choose|x: int| is_inverse(a, x, p)
}

/// What the extended Euclidean algorithm for `a` and `p` keeps true of two
/// successive remainders `r0 > r1` and their coefficients `s0`, `s1`: each
/// remainder is its coefficient times `a` modulo `p`, and whatever divides
/// both remainders divides both `p` and `a`.
pub open spec fn euclid_inv(a: int, p: int, r0: int, r1: int, s0: int, s1: int) -> bool {
    &&& p >= 2
    &&& 0 < a < p
    &&& 0 <= r1 < r0 <= p
    &&& 0 <= s0 < p
    &&& 0 <= s1 < p
    &&& (s0 * a) % p == r0 % p
    &&& (s1 * a) % p == r1 % p
    &&& forall|d: int| #[trigger] divides(d, r0) && divides(d, r1) ==> divides(d, p) && divides(d, a)
}

/// The coefficient of the next remainder.
pub open spec fn next_coefficient(p: int, r0: int, r1: int, s0: int, s1: int) -> int {
    (s0 - (((r0 / r1) % p) * s1) % p) % p
}

/// A common divisor of `x` and `y` divides `q * x + y`.
pub proof fn lemma_divides_combination(d: int, x: int, y: int, q: int)
    requires
        divides(d, x),
        divides(d, y),
    ensures
        divides(d, q * x + y),
{
    let kx = x / d;
    let ky = y / d;
    lemma_fundamental_div_mod(x, d);
    lemma_fundamental_div_mod(y, d);
    assert(q * x + y == d * (q * kx + ky) + 0) by (nonlinear_arith)
        requires
            x == d * kx,
            y == d * ky,
    ;
    lemma_mod_multiples_vanish(q * kx + ky, 0, d);
    lemma_small_mod(0, d as nat);
}

/// One step of the algorithm keeps what it keeps true.
pub proof fn lemma_euclid_step(a: int, p: int, r0: int, r1: int, s0: int, s1: int)
    requires
        euclid_inv(a, p, r0, r1, s0, s1),
        r1 > 0,
    ensures
        euclid_inv(a, p, r1, r0 % r1, s1, next_coefficient(p, r0, r1, s0, s1)),
{
    let q = r0 / r1;
    let r2 = r0 % r1;
    let s2 = next_coefficient(p, r0, r1, s0, s1);
    lemma_fundamental_div_mod(r0, r1);
    lemma_mod_bound(r0, r1);
    lemma_mod_bound(s0 - ((q % p) * s1) % p, p);
    assert(r0 == q * r1 + r2) by {
        lemma_mul_is_commutative(q, r1);
    }
    // s2 is s0 - q * s1 modulo p
    lemma_mul_mod_noop_left(q, s1, p);
    lemma_sub_mod_noop_right(s0, q * s1, p);
    assert(s2 == (s0 - q * s1) % p);
    // so s2 * a is r0 - q * r1 modulo p
    lemma_mul_mod_noop_left(s0 - q * s1, a, p);
    assert((s0 - q * s1) * a == s0 * a - q * (s1 * a)) by (nonlinear_arith);
    lemma_sub_mod_noop(s0 * a, q * (s1 * a), p);
    lemma_mul_mod_noop_right(q, s1 * a, p);
    lemma_mul_mod_noop_right(q, r1, p);
    lemma_sub_mod_noop(r0, q * r1, p);
    assert((s2 * a) % p == r2 % p);
    assert forall|d: int| #[trigger] divides(d, r1) && divides(d, r2) implies divides(d, p)
        && divides(d, a) by {
        lemma_divides_combination(d, r1, r2, q);
        assert(divides(d, r0));
    }
}

/// When the algorithm for a prime `p` ends, the last remainder is 1 and its
/// coefficient is the inverse of `a`.
pub proof fn lemma_euclid_done(a: int, p: int, r0: int, s0: int, s1: int)
    requires
        is_prime(p),
        euclid_inv(a, p, r0, 0, s0, s1),
    ensures
        r0 == 1,
        is_inverse(a, s0, p),
{
    lemma_mod_self_0(r0);
    lemma_small_mod(0, r0 as nat);
    assert(divides(r0, r0) && divides(r0, 0));
    assert(divides(r0, p) && divides(r0, a));
    if r0 == p {
        lemma_small_mod(a as nat, p as nat);
    }
    assert(r0 == 1);
    lemma_small_mod(1, p as nat);
    lemma_mul_is_commutative(a, s0);
}

/// Runs the algorithm in the proof, from any step on, to the inverse of `a`.
pub proof fn lemma_euclid_finds_inverse(a: int, p: int, r0: int, r1: int, s0: int, s1: int) -> (x:
    int)
    requires
        is_prime(p),
        euclid_inv(a, p, r0, r1, s0, s1),
    ensures
        is_inverse(a, x, p),
    decreases r1,
{
    if r1 == 0 {
        lemma_euclid_done(a, p, r0, s0, s1);
        s0
    } else {
        lemma_euclid_step(a, p, r0, r1, s0, s1);
        lemma_mod_bound(r0, r1);
        lemma_euclid_finds_inverse(a, p, r1, r0 % r1, s1, next_coefficient(p, r0, r1, s0, s1))
    }
}

/// The algorithm for `a` and `p` may start from the remainders `p` and `a`
/// with the coefficients 0 and 1.
pub proof fn lemma_euclid_start(a: int, p: int)
    requires
        p >= 2,
        0 < a < p,
    ensures
        euclid_inv(a, p, p, a, 0, 1),
{
    lemma_mod_self_0(p);
    lemma_small_mod(0, p as nat);
    assert(0 * a == 0);
    assert(1 * a == a);
}

/// Modulo a prime, every residue but 0 has an inverse.
pub proof fn lemma_inverse_exists(a: int, p: int)
    requires
        is_prime(p),
        0 < a < p,
    ensures
        is_inverse(a, finv(a, p), p),
{
    lemma_euclid_start(a, p);
    let x = lemma_euclid_finds_inverse(a, p, p, a, 0, 1);
    assert(is_inverse(a, x, p));
}

/// A residue has at most one reduced inverse.
pub proof fn lemma_inverse_unique(a: int, x: int, y: int, p: int)
    requires
        p >= 2,
        is_inverse(a, x, p),
        is_inverse(a, y, p),
    ensures
        x == y,
{
    // x = x * (a * y) = (x * a) * y = y, all modulo p
    lemma_mul_mod_noop_right(x, a * y, p);
    lemma_mul_mod_noop_left(x * a, y, p);
    lemma_mul_is_commutative(x, a);
    assert(x * (a * y) == (x * a) * y) by (nonlinear_arith);
    assert(x * 1 == x && 1 * y == y);
    lemma_small_mod(x as nat, p as nat);
    lemma_small_mod(y as nat, p as nat);
}

} // verus!
