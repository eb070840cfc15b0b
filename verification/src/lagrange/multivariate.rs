//! The equality basis over the boolean hypercube, and the multilinear
//! extension of a function given on the hypercube.

use crate::field::{all_reduced, bits_as_residues, fadd, fmul, fone, fsub, vals, Fp};
use crate::hypercube::{
    boolean_points, cube_index, cube_point, cube_points, is_boolean, lemma_cube_index_of_point,
    lemma_cube_point_of_index, lemma_cube_point_shape, lemma_cube_points_from, next_point,
    upcoming, walkable,
};
use vstd::arithmetic::div_mod::*;
use vstd::arithmetic::power2::{lemma_pow2_pos, pow2};
use vstd::prelude::*;

verus! {

/// The factor of one coordinate: `w * x + (1 - w) * (1 - x)` in the field.
pub open spec fn eq_factor(w: int, x: int, p: int) -> int {
    fadd(fmul(w, x, p), fmul(fsub(fone(p), w, p), fsub(fone(p), x, p), p), p)
}

/// The product of the factors of the first `count` coordinates.
pub open spec fn eq_product(w: Seq<int>, x: Seq<int>, count: nat, p: int) -> int
    decreases count,
{
    if count == 0 {
        fone(p)
    } else {
        fmul(eq_product(w, x, (count - 1) as nat, p), eq_factor(w[count - 1], x[count - 1], p), p)
    }
}

/// The value at `x` of the equality basis polynomial of the point `w`.
pub open spec fn eq_eval(w: Seq<int>, x: Seq<int>, p: int) -> int {
    eq_product(w, x, w.len(), p)
}

/// Sum of `basis_w(x) * values[w]` over the first `count` points `w` of
/// `{0,1}^dims`, as an integer (not reduced).
pub open spec fn extension_sum(values: Seq<int>, dims: nat, x: Seq<int>, count: nat, p: int) -> int
    decreases count,
{
    if count == 0 {
        0
    } else {
        extension_sum(values, dims, x, (count - 1) as nat, p) + eq_eval(
            bits_as_residues(cube_point(dims, (count - 1) as nat), p),
            x,
            p,
        ) * values[count - 1]
    }
}

/// The value at `x` of the multilinear extension of the function that takes
/// the value `values[k]` at the `k`-th point of `{0,1}^dims`.
pub open spec fn extension_eval(values: Seq<int>, dims: nat, x: Seq<int>, p: int) -> int {
    extension_sum(values, dims, x, pow2(dims), p) % p
}

/// The equality basis polynomial of a point `w`: the multilinear polynomial
/// that, on the boolean hypercube, is 1 at `w` and 0 elsewhere.
#[derive(Debug)]
pub struct MultivarBasis<const P: u64> {
    w: Vec<Fp<P>>,
}

impl<const P: u64> View for MultivarBasis<P> {
    type V = Seq<int>;

    closed spec fn view(&self) -> Seq<int> {
        vals(self.w@)
    }
}

impl<const P: u64> MultivarBasis<P> {
    /// The modulus is positive.
    #[verifier::type_invariant]
    pub open spec fn wf(self) -> bool {
        P >= 1
    }

    /// The equality basis polynomial of the point `w`.
    pub fn new(w: Vec<Fp<P>>) -> (r: Self)
        requires
            P >= 1,
        ensures
            r@ == vals(w@),
    {
        MultivarBasis { w }
    }

    /// The equality basis polynomial of the point whose coordinates are the
    /// given small integers.
    pub fn from(w: Vec<u8>) -> (r: Self)
        requires
            P >= 1,
        ensures
            r@ == bits_as_residues(w@, P as int),
    {
        let mut point: Vec<Fp<P>> = Vec::new();
        let mut k: usize = 0;
        while k < w.len()
            invariant
                k <= w.len(),
                P >= 1,
                point@.len() == k,
                forall|j: int|
                    0 <= j < k ==> (#[trigger] point@[j]).val() == (w@[j] as int) % (P as int),
            decreases w.len() - k,
        {
            point.push(Fp::from(w[k] as u64));
            k = k + 1;
        }
        assert(vals(point@) =~= bits_as_residues(w@, P as int));
        MultivarBasis { w: point }
    }

    /// The value of this basis polynomial at `x`.
    pub fn evaluate(&self, x: &Vec<Fp<P>>) -> (r: Fp<P>)
        requires
            x@.len() == self@.len(),
        ensures
            r.val() == eq_eval(self@, vals(x@), P as int),
            0 <= r.val() < P,
    {
        proof {
            use_type_invariant(self);
        }
        let ghost wv = vals(self.w@);
        let ghost xv = vals(x@);
        let one: Fp<P> = Fp::one();
        let mut acc: Fp<P> = one;
        let mut k: usize = 0;
        while k < self.w.len()
            invariant
                k <= self.w.len(),
                x@.len() == self.w@.len(),
                wv == vals(self.w@),
                xv == vals(x@),
                one.val() == fone(P as int),
                acc.val() == eq_product(wv, xv, k as nat, P as int),
                0 <= acc.val() < P,
            decreases self.w.len() - k,
        {
            let w_k: Fp<P> = self.w[k];
            let x_k: Fp<P> = x[k];
            assert(wv[k as int] == w_k.val() && xv[k as int] == x_k.val());
            let factor: Fp<P> = w_k.mul(x_k).add(one.sub(w_k).mul(one.sub(x_k)));
            acc = acc.mul(factor);
            k = k + 1;
        }
        acc
    }
}

/// `value` is what `f` may return when it is asked for its value at `point`.
pub open spec fn answers<const P: u64, F: Fn(&Vec<u8>) -> Fp<P>>(
    f: F,
    point: Seq<u8>,
    value: Fp<P>,
) -> bool {
    exists|w: Vec<u8>| w@ == point && #[trigger] f.ensures((&w,), value)
}

/// The multilinear extension of a function on the boolean hypercube: for
/// each point of the hypercube, in lexicographic order, the function's value
/// there and the equality basis polynomial of the point.
#[derive(Debug)]
pub struct MulitvarInterpolation<const P: u64> {
    num_vars: usize,
    values: Vec<Fp<P>>,
    bases: Vec<MultivarBasis<P>>,
}

impl<const P: u64> View for MulitvarInterpolation<P> {
    type V = Seq<int>;

    /// The values of the function, by the position of the point.
    closed spec fn view(&self) -> Seq<int> {
        vals(self.values@)
    }
}

impl<const P: u64> MulitvarInterpolation<P> {
    /// There is one value and one basis polynomial for each point of the
    /// hypercube, the basis polynomials in the order of the points.
    #[verifier::type_invariant]
    pub closed spec fn wf(self) -> bool {
        &&& P >= 1
        &&& self.values@.len() == pow2(self.num_vars as nat)
        &&& self.bases@.len() == self.values@.len()
        &&& forall|k: int|
            0 <= k < self.bases@.len() ==> (#[trigger] self.bases@[k])@ == bits_as_residues(
                cube_point(self.num_vars as nat, k as nat),
                P as int,
            )
    }

    /// The number of variables of the extension.
    pub closed spec fn dims(&self) -> nat {
        self.num_vars as nat
    }

    /// The values of the function as they are stored, by the position of the
    /// point.
    pub closed spec fn table(&self) -> Seq<Fp<P>> {
        self.values@
    }

    /// The multilinear extension of `f`, which is asked once for its value
    /// at each point of `{0,1}^num_vars`.
    pub fn new<F: Fn(&Vec<u8>) -> Fp<P>>(num_vars: usize, f: F) -> (r: Self)
        requires
            P >= 1,
            walkable(num_vars as nat),
            forall|w: Vec<u8>| w@.len() == num_vars && is_boolean(w@) ==> f.requires((&w,)),
        ensures
            r.dims() == num_vars,
            r@ == vals(r.table()),
            r.table().len() == pow2(num_vars as nat),
            forall|k: int|
                0 <= k < r.table().len() ==> #[trigger] answers(
                    f,
                    cube_point(num_vars as nat, k as nat),
                    r.table()[k],
                ),
    {
        let mut walk = boolean_points(num_vars);
        let mut values: Vec<Fp<P>> = Vec::new();
        let mut bases: Vec<MultivarBasis<P>> = Vec::new();
        proof {
            lemma_pow2_pos(num_vars as nat);
            lemma_cube_points_from(num_vars as nat, 0);
            assert(cube_points(num_vars as nat).skip(0) =~= cube_points(num_vars as nat));
        }
        let mut next: Option<Vec<u8>> = next_point(&mut walk);
        while next.is_some()
            invariant
                values@.len() <= pow2(num_vars as nat),
                next is Some ==> values@.len() < pow2(num_vars as nat) && next->Some_0@
                    == cube_point(num_vars as nat, values@.len()) && upcoming(walk) == cube_points(
                    num_vars as nat,
                ).skip((values@.len() + 1) as int),
                next is None ==> values@.len() == pow2(num_vars as nat),
                P >= 1,
                forall|w: Vec<u8>| w@.len() == num_vars && is_boolean(w@) ==> f.requires((&w,)),
                bases@.len() == values@.len(),
                forall|i: int|
                    0 <= i < bases@.len() ==> (#[trigger] bases@[i])@ == bits_as_residues(
                        cube_point(num_vars as nat, i as nat),
                        P as int,
                    ),
                forall|i: int|
                    0 <= i < values@.len() ==> #[trigger] answers(
                        f,
                        cube_point(num_vars as nat, i as nat),
                        values@[i],
                    ),
            decreases pow2(num_vars as nat) - values@.len(),
        {
            let ghost k = values@.len();
            let bits: Vec<u8> = next.unwrap();
            proof {
                lemma_cube_point_shape(num_vars as nat, k);
            }
            let ghost before = values@;
            let value: Fp<P> = f(&bits);
            assert(answers(f, cube_point(num_vars as nat, k), value));
            let basis: MultivarBasis<P> = MultivarBasis::from(bits);
            values.push(value);
            bases.push(basis);
            proof {
                assert forall|i: int| 0 <= i < values@.len() implies #[trigger] answers(
                    f,
                    cube_point(num_vars as nat, i as nat),
                    values@[i],
                ) by {
                    if i < k {
                        assert(values@[i] == before[i]);
                        assert(answers(f, cube_point(num_vars as nat, i as nat), before[i]));
                    }
                }
                lemma_cube_points_from(num_vars as nat, values@.len());
            }
            next = next_point(&mut walk);
        }
        MulitvarInterpolation { num_vars, values, bases }
    }

    /// The value of the extension at `x`.
    pub fn interpolate(&self, x: &Vec<Fp<P>>) -> (r: Fp<P>)
        requires
            x@.len() == self.dims(),
        ensures
            r.val() == extension_eval(self@, self.dims(), vals(x@), P as int),
            0 <= r.val() < P,
    {
        proof {
            use_type_invariant(self);
            lemma_small_mod(0, P as nat);
        }
        let ghost values = vals(self.values@);
        let ghost xv = vals(x@);
        let mut acc: Fp<P> = Fp::zero();
        let mut k: usize = 0;
        while k < self.values.len()
            invariant
                k <= self.values.len(),
                P >= 1,
                values == vals(self.values@),
                xv == vals(x@),
                x@.len() == self.num_vars,
                self.values@.len() == pow2(self.num_vars as nat),
                self.bases@.len() == self.values@.len(),
                forall|i: int|
                    0 <= i < self.bases@.len() ==> (#[trigger] self.bases@[i])@
                        == bits_as_residues(
                        cube_point(self.num_vars as nat, i as nat),
                        P as int,
                    ),
                acc.val() == extension_sum(values, self.num_vars as nat, xv, k as nat, P as int) % (
                P as int),
                0 <= acc.val() < P,
            decreases self.values.len() - k,
        {
            proof {
                lemma_cube_point_shape(self.num_vars as nat, k as nat);
            }
            let at: Fp<P> = self.bases[k].evaluate(x);
            let value: Fp<P> = self.values[k];
            proof {
                let total = extension_sum(values, self.num_vars as nat, xv, k as nat, P as int);
                let term = at.val() * values[k as int];
                assert(values[k as int] == value.val());
                lemma_add_mod_noop(total, term, P as int);
                lemma_mod_twice(total, P as int);
                lemma_add_mod_noop(total % (P as int), term, P as int);
            }
            acc = acc.add(at.mul(value));
            k = k + 1;
        }
        acc
    }
}

/// On boolean coordinates the factor is 1 where the coordinates agree and 0
/// where they differ.
pub proof fn lemma_eq_factor_boolean(w: u8, x: u8, p: int)
    requires
        p >= 2,
        w <= 1,
        x <= 1,
    ensures
        eq_factor((w as int) % p, (x as int) % p, p) == if w == x {
            1int
        } else {
            0int
        },
{
    lemma_small_mod(0, p as nat);
    lemma_small_mod(1, p as nat);
    assert(0 * 0 == 0 && 0 * 1 == 0 && 1 * 0 == 0 && 1 * 1 == 1);
}

/// On boolean points the product over the first coordinates is 1 where
/// those coordinates agree and 0 where one of them differs.
pub proof fn lemma_eq_product_boolean(w: Seq<u8>, x: Seq<u8>, count: nat, p: int)
    requires
        p >= 2,
        is_boolean(w),
        is_boolean(x),
        w.len() == x.len(),
        count <= w.len(),
    ensures
        eq_product(bits_as_residues(w, p), bits_as_residues(x, p), count, p) == if w.take(
            count as int,
        ) == x.take(count as int) {
            1int
        } else {
            0int
        },
    decreases count,
{
    lemma_small_mod(0, p as nat);
    lemma_small_mod(1, p as nat);
    if count == 0 {
        assert(w.take(0) =~= x.take(0));
    } else {
        let k = count - 1;
        lemma_eq_product_boolean(w, x, k as nat, p);
        lemma_eq_factor_boolean(w[k], x[k], p);
        let before = eq_product(bits_as_residues(w, p), bits_as_residues(x, p), k as nat, p);
        let factor = eq_factor(bits_as_residues(w, p)[k], bits_as_residues(x, p)[k], p);
        assert(0 * 0 == 0 && 0 * 1 == 0 && 1 * 0 == 0 && 1 * 1 == 1);
        if w.take(count as int) == x.take(count as int) {
            assert(w.take(k) =~= w.take(count as int).take(k));
            assert(x.take(k) =~= x.take(count as int).take(k));
            assert(w[k] == w.take(count as int)[k]);
            assert(x[k] == x.take(count as int)[k]);
        } else {
            if w.take(k) == x.take(k) && w[k] == x[k] {
                assert(w.take(count as int) =~= w.take(k).push(w[k]));
                assert(x.take(count as int) =~= x.take(k).push(x[k]));
            }
        }
    }
}

/// The equality basis polynomial of a boolean point `w` is 1 at `w` and 0
/// at every other boolean point.
pub proof fn lemma_eq_basis_is_indicator(w: Seq<u8>, x: Seq<u8>, p: int)
    requires
        p >= 2,
        is_boolean(w),
        is_boolean(x),
        w.len() == x.len(),
    ensures
        eq_eval(bits_as_residues(w, p), bits_as_residues(x, p), p) == if w == x {
            1int
        } else {
            0int
        },
{
    lemma_eq_product_boolean(w, x, w.len(), p);
    assert(w.take(w.len() as int) =~= w);
    assert(x.take(x.len() as int) =~= x);
}

/// At a boolean point `b`, the sum over the first points of the hypercube
/// holds the value at `b` once it has passed `b`, and nothing before.
pub proof fn lemma_extension_sum_at_point(values: Seq<int>, b: Seq<u8>, count: nat, p: int)
    requires
        p >= 2,
        is_boolean(b),
        count <= pow2(b.len()),
    ensures
        extension_sum(values, b.len(), bits_as_residues(b, p), count, p) == if count > cube_index(
            b,
        ) {
            values[cube_index(b) as int]
        } else {
            0
        },
    decreases count,
{
    if count > 0 {
        let k = (count - 1) as nat;
        let w = cube_point(b.len(), k);
        lemma_extension_sum_at_point(values, b, k, p);
        lemma_cube_point_shape(b.len(), k);
        lemma_eq_basis_is_indicator(w, b, p);
        lemma_cube_index_of_point(b.len(), k);
        lemma_cube_point_of_index(b);
        assert(1 * values[k as int] == values[k as int]);
        assert(0 * values[k as int] == 0);
    }
}

/// The multilinear extension agrees with the function on the boolean
/// hypercube: at a boolean point it takes the value that the function has
/// there.
pub proof fn lemma_extension_agrees(values: Seq<int>, b: Seq<u8>, p: int)
    requires
        p >= 2,
        is_boolean(b),
        values.len() == pow2(b.len()),
        all_reduced(values, p),
    ensures
        cube_index(b) < values.len(),
        extension_eval(values, b.len(), bits_as_residues(b, p), p) == values[cube_index(b) as int],
{
    lemma_cube_point_of_index(b);
    lemma_extension_sum_at_point(values, b, pow2(b.len()), p);
    lemma_small_mod(values[cube_index(b) as int] as nat, p as nat);
}

} // verus!
