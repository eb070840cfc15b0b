//! Lagrange basis polynomials over the domain `0, 1, .., n - 1`, and the
//! interpolation of `n` values over that domain.

use crate::field::{all_reduced, fdiv, fmul, fone, fsub, vals, Fp};
use crate::inverse::lemma_inverse_exists;
use crate::prime::is_prime;
use crate::lagrange::LagrangeError;
use vstd::arithmetic::div_mod::*;
use vstd::arithmetic::mul::*;
use vstd::prelude::*;

verus! {

/// The factor that the domain point `j` gives to the basis polynomial of
/// index `i` at `x`: `(x - j) / (i - j)` in the field.
pub open spec fn basis_factor(i: int, j: int, x: int, p: int) -> int {
    fdiv(fsub(x, j, p), fsub(i, j, p), p)
}

/// The product of the factors of the domain points below `count`, but for
/// the point `i` itself.
pub open spec fn basis_product(count: nat, i: int, x: int, p: int) -> int
    decreases count,
{
    if count == 0 {
        fone(p)
    } else if count - 1 == i {
        basis_product((count - 1) as nat, i, x, p)
    } else {
        fmul(basis_product((count - 1) as nat, i, x, p), basis_factor(i, count - 1, x, p), p)
    }
}

/// The value at `x` of the basis polynomial of index `i` over a domain of
/// `n` points.
pub open spec fn basis_eval(n: nat, i: int, x: int, p: int) -> int {
    basis_product(n, i, x, p)
}

/// Another point of the domain is the same field element as the point `i`,
/// so that the basis polynomial of index `i` has a zero denominator.
pub open spec fn degenerate(n: nat, i: int, p: int) -> bool {
    exists|j: int| 0 <= j < n && j != i && #[trigger] fsub(i, j, p) == 0
}

/// Sum of `basis_i(x) * values[i]` over the indices below `count`, as an
/// integer (not reduced).
pub open spec fn interp_sum(values: Seq<int>, count: nat, x: int, p: int) -> int
    decreases count,
{
    if count == 0 {
        0
    } else {
        interp_sum(values, (count - 1) as nat, x, p) + basis_eval(
            values.len(),
            count - 1,
            x,
            p,
        ) * values[count - 1]
    }
}

/// The value at `x` of the polynomial of degree below `values.len()` that
/// takes the value `values[k]` at each `k`.
pub open spec fn interp_eval(values: Seq<int>, x: int, p: int) -> int {
    interp_sum(values, values.len(), x, p) % p
}

/// One of the basis polynomials over a domain of `n` points has a zero
/// denominator.
pub open spec fn some_degenerate(n: nat, p: int) -> bool {
    exists|i: int| 0 <= i < n && #[trigger] degenerate(n, i, p)
}

/// The basis polynomial of index `i`, of the polynomials of degree below `n`
/// that is 1 at `i` and 0 at the other points of `0..n`.
#[derive(Debug)]
pub struct UnivarBasis<const P: u64> {
    n: usize,
    i: usize,
}

impl<const P: u64> UnivarBasis<P> {
    /// The index lies in the domain.
    #[verifier::type_invariant]
    pub open spec fn wf(self) -> bool {
        self.index() < self.domain_size()
    }

    /// The number of points of the domain.
    pub closed spec fn domain_size(self) -> nat {
        self.n as nat
    }

    /// The point at which this basis polynomial is 1.
    pub closed spec fn index(self) -> nat {
        self.i as nat
    }

    /// The basis polynomial of index `i` over the domain `0..n`.
    pub fn new(n: usize, i: usize) -> (r: Result<Self, LagrangeError>)
        ensures
            r is Err <==> i >= n,
            r is Err ==> r->Err_0 == LagrangeError::InvalidDomainIndex,
            r is Ok ==> r->Ok_0.domain_size() == n && r->Ok_0.index() == i,
    {
        if i >= n {
            Err(LagrangeError::InvalidDomainIndex)
        } else {
            Ok(UnivarBasis { n, i })
        }
    }

    /// The value of this basis polynomial at the integer `point`, taken as
    /// an element of the field.
    pub fn evaluate(&self, point: usize) -> (r: Result<Fp<P>, LagrangeError>)
        requires
            is_prime(P as int),
        ensures
            r is Err <==> degenerate(self.domain_size(), self.index() as int, P as int),
            r is Err ==> r->Err_0 == LagrangeError::DegenerateBasis,
            r is Ok ==> r->Ok_0.val() == basis_eval(
                self.domain_size(),
                self.index() as int,
                point as int,
                P as int,
            ),
    {
        let x: Fp<P> = Fp::from(point as u64);
        let own: Fp<P> = Fp::from(self.i as u64);
        let mut acc: Fp<P> = Fp::one();
        let mut j: usize = 0;
        while j < self.n
            invariant
                j <= self.n,
                is_prime(P as int),
                x.val() == (point as int) % (P as int),
                own.val() == (self.i as int) % (P as int),
                acc.val() == basis_product(j as nat, self.i as int, point as int, P as int),
                forall|k: int|
                    0 <= k < j && k != self.i ==> #[trigger] fsub(self.i as int, k, P as int) != 0,
            decreases self.n - j,
        {
            if j != self.i {
                let other: Fp<P> = Fp::from(j as u64);
                let denominator: Fp<P> = own.sub(other);
                let numerator: Fp<P> = x.sub(other);
                proof {
                    lemma_sub_mod_noop(self.i as int, j as int, P as int);
                    lemma_sub_mod_noop(point as int, j as int, P as int);
                }
                if denominator.is_zero() {
                    assert(fsub(self.i as int, j as int, P as int) == 0);
                    return Err(LagrangeError::DegenerateBasis);
                }
                acc = acc.mul(numerator.div(denominator));
            }
            j = j + 1;
        }
        Ok(acc)
    }
}

/// The polynomial of degree below `n` through `n` given values at the points
/// `0..n`, in the Lagrange basis.
#[derive(Debug)]
pub struct UnivarInterpolation<const P: u64> {
    a: Vec<Fp<P>>,
    bases: Vec<UnivarBasis<P>>,
}

impl<const P: u64> View for UnivarInterpolation<P> {
    type V = Seq<int>;

    closed spec fn view(&self) -> Seq<int> {
        vals(self.a@)
    }
}

impl<const P: u64> UnivarInterpolation<P> {
    /// There is one basis polynomial for each value, each over the whole
    /// domain.
    #[verifier::type_invariant]
    pub closed spec fn wf(self) -> bool {
        &&& P >= 1
        &&& self.bases@.len() == self.a@.len()
        &&& forall|k: int|
            0 <= k < self.bases@.len() ==> (#[trigger] self.bases@[k]).domain_size()
                == self.a@.len() && self.bases@[k].index() == k
    }

    /// The interpolation of the values `a[0], a[1], ..` at the points
    /// `0, 1, ..`.
    pub fn new(a: Vec<Fp<P>>) -> (r: Self)
        requires
            P >= 1,
        ensures
            r@ == vals(a@),
    {
        let n: usize = a.len();
        let mut bases: Vec<UnivarBasis<P>> = Vec::new();
        let mut i: usize = 0;
        while i < n
            invariant
                i <= n,
                n == a@.len(),
                bases@.len() == i,
                forall|k: int|
                    0 <= k < i ==> (#[trigger] bases@[k]).domain_size() == n && bases@[k].index()
                        == k,
            decreases n - i,
        {
            match UnivarBasis::new(n, i) {
                Ok(basis) => {
                    bases.push(basis);
                },
                Err(_) => {
                    assert(false);
                },
            }
            i = i + 1;
        }
        UnivarInterpolation { a, bases }
    }

    /// The value of the interpolating polynomial at the integer `x`, taken
    /// as an element of the field: `a[x]` for `x` in the domain, and the
    /// value of the low-degree extension elsewhere.
    pub fn interpolate(&self, x: usize) -> (r: Result<Fp<P>, LagrangeError>)
        requires
            is_prime(P as int),
        ensures
            r is Err <==> some_degenerate(self@.len(), P as int),
            r is Err ==> r->Err_0 == LagrangeError::DegenerateBasis,
            r is Ok ==> r->Ok_0.val() == interp_eval(self@, x as int, P as int),
    {
        proof {
            use_type_invariant(self);
            lemma_small_mod(0, P as nat);
        }
        let ghost values = vals(self.a@);
        let n: usize = self.a.len();
        let mut acc: Fp<P> = Fp::zero();
        let mut i: usize = 0;
        while i < n
            invariant
                i <= n,
                is_prime(P as int),
                n == self.a@.len(),
                values == vals(self.a@),
                self.bases@.len() == n,
                forall|k: int|
                    0 <= k < n ==> (#[trigger] self.bases@[k]).domain_size() == n
                        && self.bases@[k].index() == k,
                acc.val() == interp_sum(values, i as nat, x as int, P as int) % (P as int),
                forall|k: int| 0 <= k < i ==> !#[trigger] degenerate(n as nat, k, P as int),
            decreases n - i,
        {
            let at: Fp<P> = match self.bases[i].evaluate(x) {
                Ok(value) => value,
                Err(e) => {
                    assert(degenerate(n as nat, i as int, P as int));
                    return Err(LagrangeError::DegenerateBasis);
                },
            };
            let coefficient: Fp<P> = self.a[i];
            proof {
                let total = interp_sum(values, i as nat, x as int, P as int);
                let term = at.val() * values[i as int];
                assert(values[i as int] == coefficient.val());
                lemma_add_mod_noop(total, term, P as int);
                lemma_mod_twice(total, P as int);
                lemma_add_mod_noop(total % (P as int), term, P as int);
            }
            acc = acc.add(at.mul(coefficient));
            i = i + 1;
        }
        Ok(acc)
    }
}

/// Where no denominator is zero, the basis polynomial of index `i` is 1 at
/// its own point.
pub proof fn lemma_basis_at_own_point(n: nat, i: int, count: nat, p: int)
    requires
        is_prime(p),
        0 <= i < n,
        count <= n,
        !degenerate(n, i, p),
    ensures
        basis_product(count, i, i, p) == 1,
    decreases count,
{
    lemma_small_mod(1, p as nat);
    if count > 0 {
        let j = count - 1;
        lemma_basis_at_own_point(n, i, j as nat, p);
        if j != i {
            let d = fsub(i, j, p);
            lemma_mod_bound(i - j, p);
            assert(d != 0);
            lemma_inverse_exists(d, p);
            assert(basis_factor(i, j, i, p) == 1);
            assert(1 * 1 == 1);
        }
    }
}

/// The basis polynomial of index `i` is 0 at every other point of the part
/// of the domain that its product has passed.
pub proof fn lemma_basis_at_other_point(i: int, x: int, count: nat, p: int)
    requires
        p >= 2,
        0 <= x < count,
        x != i,
    ensures
        basis_product(count, i, x, p) == 0,
    decreases count,
{
    let j = count - 1;
    let before = basis_product(j as nat, i, x, p);
    lemma_small_mod(0, p as nat);
    if j == x {
        let inv = crate::inverse::finv(fsub(i, j, p), p);
        assert(fsub(x, j, p) == 0);
        assert(0 * inv == 0);
        assert(basis_factor(i, j, x, p) == 0);
        assert(before * 0 == 0);
    } else {
        lemma_basis_at_other_point(i, x, j as nat, p);
        if j != i {
            assert(0 * basis_factor(i, j, x, p) == 0);
        }
    }
}

/// Over a field in which the points `0..n` are distinct from the point `i`,
/// the basis polynomial of index `i` is 1 at `i` and 0 at every other point
/// of the domain.
pub proof fn lemma_basis_is_indicator(n: nat, i: int, j: int, p: int)
    requires
        is_prime(p),
        0 <= i < n,
        0 <= j < n,
        !degenerate(n, i, p),
    ensures
        basis_eval(n, i, j, p) == if j == i {
            1int
        } else {
            0int
        },
{
    if j == i {
        lemma_basis_at_own_point(n, i, n, p);
    } else {
        lemma_basis_at_other_point(i, j, n, p);
    }
}

/// At a point `k` of the domain, the sum over the first indices holds the
/// value `values[k]` once it has passed `k`, and nothing before.
pub proof fn lemma_interp_sum_at_point(values: Seq<int>, count: nat, k: int, p: int)
    requires
        is_prime(p),
        0 <= k < values.len(),
        count <= values.len(),
        !some_degenerate(values.len(), p),
    ensures
        interp_sum(values, count, k, p) == if count > k {
            values[k]
        } else {
            0
        },
    decreases count,
{
    if count > 0 {
        let i = count - 1;
        lemma_interp_sum_at_point(values, i as nat, k, p);
        assert(!degenerate(values.len(), i, p));
        lemma_basis_is_indicator(values.len(), i, k, p);
        assert(1 * values[i] == values[i]);
        assert(0 * values[i] == 0);
    }
}

/// Over a field in which the points `0..n` are distinct, the interpolating
/// polynomial of `n` values takes the value `values[k]` at each `k` of the
/// domain.
pub proof fn lemma_interpolation_at_point(values: Seq<int>, k: int, p: int)
    requires
        is_prime(p),
        all_reduced(values, p),
        0 <= k < values.len(),
        !some_degenerate(values.len(), p),
    ensures
        interp_eval(values, k, p) == values[k],
{
    lemma_interp_sum_at_point(values, values.len(), k, p);
    lemma_small_mod(values[k] as nat, p as nat);
}

} // verus!
