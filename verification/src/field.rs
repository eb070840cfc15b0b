//! Arithmetic in the integers modulo `P`, which form a field when `P` is prime.
//!
//! Every statement about field values is made over plain integers: an element
//! stands for its least non-negative residue, and the operations are the
//! integer operations followed by a reduction modulo `P`.

use crate::inverse::{
    euclid_inv, finv, is_inverse, lemma_euclid_done, lemma_euclid_start, lemma_euclid_step,
    lemma_inverse_exists, lemma_inverse_unique, next_coefficient,
};
use crate::prime::is_prime;
use ark_std::rand::rngs::StdRng;
use ark_std::rand::Rng;
use vstd::arithmetic::div_mod::*;
use vstd::arithmetic::mul::*;
use vstd::arithmetic::power::*;
use vstd::prelude::*;

verus! {

/// Sum of two residues modulo `p`.
pub open spec fn fadd(a: int, b: int, p: int) -> int {
    (a + b) % p
}

/// Difference of two residues modulo `p`.
pub open spec fn fsub(a: int, b: int, p: int) -> int {
    (a - b) % p
}

/// Product of two residues modulo `p`.
pub open spec fn fmul(a: int, b: int, p: int) -> int {
    (a * b) % p
}

/// Quotient of two residues modulo `p`: the product of the first and the
/// inverse of the second.
pub open spec fn fdiv(a: int, b: int, p: int) -> int {
    fmul(a, finv(b, p), p)
}

/// `base` raised to `exp`, reduced modulo `p`.
pub open spec fn fpow(base: int, exp: nat, p: int) -> int {
    pow(base, exp) % p
}

/// The multiplicative identity modulo `p`.
pub open spec fn fone(p: int) -> int {
    1int % p
}

/// The residues of a sequence of field elements.
pub open spec fn vals<const P: u64>(s: Seq<Fp<P>>) -> Seq<int> {
    Seq::new(s.len(), |k: int| s[k].val())
}

/// The residues of a sequence of small integers taken as field elements.
pub open spec fn bits_as_residues(s: Seq<u8>, p: int) -> Seq<int> {
    Seq::new(s.len(), |k: int| (s[k] as int) % p)
}

/// Every entry of `s` is a least non-negative residue modulo `p`.
pub open spec fn all_reduced(s: Seq<int>, p: int) -> bool {
    forall|k: int| 0 <= k < s.len() ==> 0 <= #[trigger] s[k] < p
}

/// The seedable random number generator that challenges are drawn from.
#[verifier::external_type_specification]
#[verifier::external_body]
pub struct ExStdRng(StdRng);

/// Calls `gen_range` of rand on the range from 0 up to, not including,
/// `bound`. The contract claims no more than that the number drawn lies in
/// that range; the call panics on an empty range, which `bound > 0` excludes.
#[verifier::external_body]
fn uniform_below(rng: &mut StdRng, bound: u64) -> (r: u64)
    requires
        bound > 0,
    ensures
        r < bound,
{
    rng.gen_range(0..bound)
}

/// An element of the integers modulo `P`, held as its least non-negative residue.
#[derive(Clone, Copy, Debug, Eq)]
pub struct Fp<const P: u64> {
    value: u64,
}

impl<const P: u64> PartialEq for Fp<P> {
    fn eq(&self, other: &Self) -> (r: bool) {
        self.value == other.value
    }
}

impl<const P: u64> vstd::std_specs::cmp::PartialEqSpecImpl for Fp<P> {
    open spec fn obeys_eq_spec() -> bool {
        true
    }

    open spec fn eq_spec(&self, other: &Self) -> bool {
        self.val() == other.val()
    }
}

impl<const P: u64> Fp<P> {
    /// Elements are always stored reduced.
    #[verifier::type_invariant]
    pub open spec fn reduced(self) -> bool {
        0 <= self.val() < P
    }

    /// The least non-negative residue that this element stands for.
    pub closed spec fn val(self) -> int {
        self.value as int
    }

    /// The residue as a machine integer.
    pub fn value(self) -> (r: u64)
        ensures
            r == self.val(),
            r < P,
    {
        proof {
            use_type_invariant(&self);
        }
        self.value
    }

    /// The element that the integer `x` maps to.
    pub fn from(x: u64) -> (r: Self)
        requires
            P >= 1,
        ensures
            r.val() == (x as int) % (P as int),
            0 <= r.val() < P,
    {
        Fp { value: x % P }
    }

    /// The additive identity.
    pub fn zero() -> (r: Self)
        requires
            P >= 1,
        ensures
            r.val() == 0,
    {
        Fp { value: 0 }
    }

    /// The multiplicative identity.
    pub fn one() -> (r: Self)
        requires
            P >= 1,
        ensures
            r.val() == fone(P as int),
            0 <= r.val() < P,
    {
        Fp { value: 1 % P }
    }

    /// An element drawn uniformly from the whole field.
    pub fn rand(rng: &mut StdRng) -> (r: Self)
        requires
            P >= 1,
        ensures
            0 <= r.val() < P,
    {
        let drawn: u64 = uniform_below(rng, P);
        Fp { value: drawn }
    }

    /// Whether this is the additive identity.
    pub fn is_zero(self) -> (r: bool)
        ensures
            r == (self.val() == 0),
    {
        self.value == 0
    }

    /// Field addition.
    pub fn add(self, rhs: Self) -> (r: Self)
        ensures
            r.val() == fadd(self.val(), rhs.val(), P as int),
            0 <= r.val() < P,
    {
        proof {
            use_type_invariant(&self);
            use_type_invariant(&rhs);
        }
        let wide: u128 = (self.value as u128 + rhs.value as u128) % (P as u128);
        Fp { value: wide as u64 }
    }

    /// Field subtraction.
    pub fn sub(self, rhs: Self) -> (r: Self)
        ensures
            r.val() == fsub(self.val(), rhs.val(), P as int),
            0 <= r.val() < P,
    {
        proof {
            use_type_invariant(&self);
            use_type_invariant(&rhs);
        }
        if self.value >= rhs.value {
            proof {
                lemma_small_mod((self.value - rhs.value) as nat, P as nat);
            }
            Fp { value: self.value - rhs.value }
        } else {
            let gap: u64 = rhs.value - self.value;
            proof {
                let d: int = self.value as int - rhs.value as int;
                lemma_mod_add_multiples_vanish(d, P as int);
                lemma_small_mod((P as int + d) as nat, P as nat);
            }
            Fp { value: P - gap }
        }
    }

    /// Additive inverse.
    pub fn neg(self) -> (r: Self)
        ensures
            r.val() == fsub(0, self.val(), P as int),
            0 <= r.val() < P,
    {
        proof {
            use_type_invariant(&self);
        }
        Fp { value: 0 }.sub(self)
    }

    /// Field multiplication.
    pub fn mul(self, rhs: Self) -> (r: Self)
        ensures
            r.val() == fmul(self.val(), rhs.val(), P as int),
            0 <= r.val() < P,
    {
        proof {
            use_type_invariant(&self);
            use_type_invariant(&rhs);
            lemma_mul_upper_bound(
                self.value as int,
                0xffff_ffff_ffff_ffff,
                rhs.value as int,
                0xffff_ffff_ffff_ffff,
            );
            lemma_mul_nonnegative(self.value as int, rhs.value as int);
        }
        let wide: u128 = ((self.value as u128) * (rhs.value as u128)) % (P as u128);
        Fp { value: wide as u64 }
    }

    /// The multiplicative inverse, which every element of a field but zero
    /// has.
    pub fn inverse(self) -> (r: Option<Self>)
        requires
            is_prime(P as int),
        ensures
            r is None <==> self.val() == 0,
            r is Some ==> r->Some_0.val() == finv(self.val(), P as int) && is_inverse(
                self.val(),
                r->Some_0.val(),
                P as int,
            ),
    {
        proof {
            use_type_invariant(&self);
        }
        if self.value == 0 {
            return None;
        }
        let ghost a = self.val();
        let mut r0: u64 = P;
        let mut r1: u64 = self.value;
        let mut s0: Self = Fp { value: 0 };
        let mut s1: Self = Fp { value: 1 };
        proof {
            lemma_euclid_start(a, P as int);
        }
        while r1 != 0
            invariant
                is_prime(P as int),
                a == self.val(),
                euclid_inv(a, P as int, r0 as int, r1 as int, s0.val(), s1.val()),
            decreases r1,
        {
            let q: u64 = r0 / r1;
            let r2: u64 = r0 % r1;
            let s2: Self = s0.sub(Self::from(q).mul(s1));
            proof {
                lemma_euclid_step(a, P as int, r0 as int, r1 as int, s0.val(), s1.val());
                assert(s2.val() == next_coefficient(
                    P as int,
                    r0 as int,
                    r1 as int,
                    s0.val(),
                    s1.val(),
                ));
            }
            r0 = r1;
            r1 = r2;
            s0 = s1;
            s1 = s2;
        }
        proof {
            lemma_euclid_done(a, P as int, r0 as int, s0.val(), s1.val());
            lemma_inverse_exists(a, P as int);
            lemma_inverse_unique(a, s0.val(), finv(a, P as int), P as int);
        }
        Some(s0)
    }

    /// Field division by an element other than zero.
    pub fn div(self, rhs: Self) -> (r: Self)
        requires
            is_prime(P as int),
            rhs.val() != 0,
        ensures
            r.val() == fdiv(self.val(), rhs.val(), P as int),
            0 <= r.val() < P,
    {
        match rhs.inverse() {
            Some(inv) => self.mul(inv),
            None => {
                assert(false);
                self
            },
        }
    }

    /// This element raised to the power `exp`, by repeated squaring.
    pub fn pow(self, exp: usize) -> (r: Self)
        ensures
            r.val() == fpow(self.val(), exp as nat, P as int),
            0 <= r.val() < P,
    {
        proof {
            use_type_invariant(&self);
            lemma_mul_mod_noop_left(1, pow(self.val(), exp as nat), P as int);
        }
        let mut acc: Self = Fp { value: 1 % P };
        let mut base: Self = self;
        let mut left: usize = exp;
        while left > 0
            invariant
                P >= 1,
                0 <= acc.val() < P,
                (acc.val() * pow(base.val(), left as nat)) % (P as int) == pow(
                    self.val(),
                    exp as nat,
                ) % (P as int),
            decreases left,
        {
            proof {
                lemma_pow_halves(acc.val(), base.val(), left as nat, P as int);
            }
            if left % 2 == 1 {
                acc = acc.mul(base);
            }
            base = base.mul(base);
            left = left / 2;
        }
        proof {
            lemma_pow0(base.val());
            lemma_small_mod(acc.val() as nat, P as nat);
        }
        acc
    }
}

/// One step of repeated squaring: with the base squared and the exponent
/// halved, and the base multiplied into the accumulator where the exponent
/// was odd, accumulator times power is what it was, modulo `p`.
pub proof fn lemma_pow_halves(acc: int, base: int, exp: nat, p: int)
    requires
        p >= 1,
        exp > 0,
    ensures
        ((if exp % 2 == 1 {
            (acc * base) % p
        } else {
            acc
        }) * pow((base * base) % p, exp / 2)) % p == (acc * pow(base, exp)) % p,
{
    let half = exp / 2;
    let odd: nat = exp % 2;
    let squares = pow(base * base, half);
    let carried = if odd == 1 {
        acc * base
    } else {
        acc
    };
    // base^exp = (base^2)^half * base^odd
    lemma_square_is_pow2(base);
    lemma_pow_multiplies(base, 2, half);
    lemma_pow_adds(base, 2 * half, odd);
    lemma_pow0(base);
    lemma_pow1(base);
    assert(pow(base, exp) == squares * pow(base, odd));
    assert(acc * pow(base, exp) == carried * squares) by (nonlinear_arith)
        requires
            pow(base, exp) == squares * pow(base, odd),
            odd == 1 ==> carried == acc * base && pow(base, odd) == base,
            odd != 1 ==> carried == acc && pow(base, odd) == 1,
    ;
    // and both factors may be reduced first
    lemma_pow_mod_noop(base * base, half, p);
    lemma_mul_mod_noop_general(carried, squares, p);
    lemma_mul_mod_noop_general(
        if odd == 1 {
            carried % p
        } else {
            carried
        },
        pow((base * base) % p, half),
        p,
    );
    lemma_mod_twice(carried, p);
}

} // verus!
