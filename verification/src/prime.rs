//! Prime numbers: the moduli for which the integers modulo `P` are a field.

use vstd::arithmetic::div_mod::*;
use vstd::arithmetic::mul::*;
use vstd::prelude::*;

verus! {

/// `p` is a prime number.
pub open spec fn is_prime(p: int) -> bool {
    p >= 2 && forall|d: int| 1 < d < p ==> #[trigger] (p % d) != 0
}

/// No integer from 2 up to, not including, `bound` divides `p`.
pub open spec fn no_divisor_below(p: int, bound: int) -> bool {
    forall|d: int| 1 < d < bound ==> #[trigger] (p % d) != 0
}

/// A number with no divisor from 2 up to its square root is prime: of two
/// factors of `p`, one is below any `bound` whose square exceeds `p`.
pub proof fn lemma_prime_by_small_divisors(p: int, bound: int)
    requires
        p >= 2,
        bound >= 2,
        bound * bound > p,
        no_divisor_below(p, bound),
    ensures
        is_prime(p),
{
    assert forall|d: int| 1 < d < p implies #[trigger] (p % d) != 0 by {
        if d >= bound && p % d == 0 {
            let c = p / d;
            lemma_fundamental_div_mod(p, d);
            assert(p == d * c);
            assert(c >= 2) by (nonlinear_arith)
                requires
                    p == d * c,
                    1 < d < p,
            ;
            assert(c < bound) by (nonlinear_arith)
                requires
                    p == d * c,
                    d >= bound,
                    bound >= 2,
                    bound * bound > p,
            ;
            lemma_mod_multiples_basic(d, c);
            lemma_mul_is_commutative(d, c);
            assert(p % c == 0);
        }
    }
}

/// Whether `p` is prime, by trial division up to its square root.
pub fn is_prime_u64(p: u64) -> (r: bool)
    ensures
        r == is_prime(p as int),
{
    if p < 2 {
        return false;
    }
    let mut d: u64 = 2;
    while d <= p / d
        invariant
            2 <= d <= p,
            no_divisor_below(p as int, d as int),
        decreases p - d,
    {
        if p % d == 0 {
            proof {
                lemma_fundamental_div_mod(p as int, d as int);
                assert(d < p) by (nonlinear_arith)
                    requires
                        2 <= d <= p / d,
                        p == d * (p / d) + p % d,
                        0 <= p % d,
                ;
            }
            return false;
        }
        proof {
            lemma_fundamental_div_mod(p as int, d as int);
            assert(d + 1 <= p) by (nonlinear_arith)
                requires
                    2 <= d <= p / d,
                    p == d * (p / d) + p % d,
                    0 <= p % d,
            ;
        }
        d = d + 1;
    }
    proof {
        lemma_fundamental_div_mod(p as int, d as int);
        lemma_mod_bound(p as int, d as int);
        assert((d as int) * (d as int) > p) by (nonlinear_arith)
            requires
                d > p / d,
                d >= 2,
                p == d * (p / d) + p % d,
                0 <= p % d < d,
        ;
        lemma_prime_by_small_divisors(p as int, d as int);
    }
    true
}

} // verus!
