//! The prover's side of one round: a polynomial with all but one variable
//! summed out over the boolean hypercube.

use crate::field::{bits_as_residues, vals, Fp};
use crate::hypercube::{
    boolean_points, cube_point, cube_points, lemma_cube_point_shape, lemma_cube_points_from,
    next_point, upcoming, walkable,
};
use crate::polynomial::term::{fill, free_before, partial_vals, TermModel};
use crate::polynomial::{
    bind_terms, lemma_same_combination_concat, lemma_same_combination_transitive, poly_eval,
    poly_normal, same_combination, PolyModel, SparsePolynomial,
};
use vstd::arithmetic::div_mod::*;
use vstd::arithmetic::power2::{lemma_pow2_pos, pow2};
use vstd::prelude::*;

verus! {

/// Sum of the values of `g` at `prefix` followed by each of the first `count`
/// points of `{0,1}^dims`, as an integer (not reduced).
pub open spec fn cube_sum(g: PolyModel, prefix: Seq<int>, dims: nat, count: nat, p: int) -> int
    decreases count,
{
    if count == 0 {
        0
    } else {
        cube_sum(g, prefix, dims, (count - 1) as nat, p) + poly_eval(
            g,
            prefix + bits_as_residues(cube_point(dims, (count - 1) as nat), p),
            p,
        )
    }
}

/// Sum in the integers modulo `p` of the values of `g` at `prefix` followed
/// by every point of `{0,1}^dims`.
pub open spec fn hypercube_sum(g: PolyModel, prefix: Seq<int>, dims: nat, p: int) -> int {
    cube_sum(g, prefix, dims, pow2(dims), p) % p
}

/// The value at `x` of the message of the round in which the variables
/// before the free one are bound to `bound`: the sum of `g` over all boolean
/// values of the variables after the free one.
pub open spec fn round_value(g: PolyModel, bound: Seq<int>, x: int, p: int) -> int {
    hypercube_sum(g, bound.push(x), (g.num_vars - bound.len() - 1) as nat, p)
}

/// The partial point of a round: the bound values, one free slot, and values
/// for the variables that follow.
pub open spec fn round_slots(bound: Seq<int>, tail: Seq<int>) -> Seq<Option<int>> {
    Seq::new(
        bound.len() + 1 + tail.len(),
        |k: int|
            if k < bound.len() {
                Some(bound[k])
            } else if k == bound.len() {
                None
            } else {
                Some(tail[k - bound.len() - 1])
            },
    )
}

/// The terms of `g` with the variables before the free one bound to `bound`
/// and those after it to each of the first `count` points of `{0,1}^dims` in
/// turn: the terms of all those partial evaluations, one list after the
/// other.
pub open spec fn round_terms(g: PolyModel, bound: Seq<int>, dims: nat, count: nat, p: int) -> Seq<
    (int, TermModel),
>
    decreases count,
{
    if count == 0 {
        Seq::empty()
    } else {
        round_terms(g, bound, dims, (count - 1) as nat, p) + bind_terms(
            g.terms,
            round_slots(bound, bits_as_residues(cube_point(dims, (count - 1) as nat), p)),
        )
    }
}

/// `msg` is the message of the round in which the variables before the free
/// one are bound to `bound`: the polynomial in one variable, in normal form,
/// that is the sum of the partial evaluations of `g` over all boolean values
/// of the variables after the free one.
pub open spec fn round_message(msg: PolyModel, g: PolyModel, bound: Seq<int>, p: int) -> bool {
    let dims = (g.num_vars - bound.len() - 1) as nat;
    &&& msg.num_vars == 1
    &&& poly_normal(msg, p)
    &&& same_combination(msg.terms, round_terms(g, bound, dims, pow2(dims), p), p)
}

/// The partial point of a round has one free slot, and filling it with
/// `rest[0]` gives the bound values, `rest[0]`, and the tail.
pub proof fn lemma_round_slots(bound: Seq<int>, tail: Seq<int>, rest: Seq<int>)
    ensures
        free_before(round_slots(bound, tail), round_slots(bound, tail).len() as int) == 1,
        fill(round_slots(bound, tail), rest) == bound.push(rest[0]) + tail,
{
    let slots = round_slots(bound, tail);
    lemma_round_slots_count(bound, tail, slots.len() as int);
    assert forall|k: int| 0 <= k < slots.len() implies #[trigger] fill(slots, rest)[k] == (
    bound.push(rest[0]) + tail)[k] by {
        lemma_round_slots_count(bound, tail, k);
    }
    assert(fill(slots, rest) =~= bound.push(rest[0]) + tail);
}

/// Up to the free slot of a round's partial point no slot is free; past it,
/// one is.
pub proof fn lemma_round_slots_count(bound: Seq<int>, tail: Seq<int>, k: int)
    requires
        0 <= k <= bound.len() + 1 + tail.len(),
    ensures
        free_before(round_slots(bound, tail), k) == if k <= bound.len() {
            0nat
        } else {
            1nat
        },
    decreases k,
{
    if k > 0 {
        lemma_round_slots_count(bound, tail, k - 1);
    }
}

/// The partial point of a round as a vector.
fn round_point<const P: u64>(challenges: &Vec<Fp<P>>, tail: &Vec<u8>) -> (point: Vec<
    Option<Fp<P>>,
>)
    requires
        P >= 1,
        challenges@.len() + 1 + tail@.len() <= usize::MAX,
    ensures
        point@.len() == challenges@.len() + 1 + tail@.len(),
        partial_vals(point@) == round_slots(
            vals(challenges@),
            bits_as_residues(tail@, P as int),
        ),
{
    let ghost want = round_slots(vals(challenges@), bits_as_residues(tail@, P as int));
    let mut point: Vec<Option<Fp<P>>> = Vec::new();
    let mut k: usize = 0;
    while k < challenges.len()
        invariant
            k <= challenges.len(),
            point@.len() == k,
            want == round_slots(vals(challenges@), bits_as_residues(tail@, P as int)),
            forall|j: int| 0 <= j < k ==> #[trigger] partial_vals(point@)[j] == want[j],
        decreases challenges.len() - k,
    {
        let ghost before = partial_vals(point@);
        point.push(Some(challenges[k]));
        assert forall|j: int| 0 <= j < k + 1 implies #[trigger] partial_vals(point@)[j]
            == want[j] by {
            if j < k {
                assert(partial_vals(point@)[j] == before[j]);
            }
        }
        k = k + 1;
    }
    let ghost before = partial_vals(point@);
    point.push(None);
    assert forall|j: int| 0 <= j < challenges@.len() + 1 implies #[trigger] partial_vals(
        point@,
    )[j] == want[j] by {
        if j < challenges@.len() {
            assert(partial_vals(point@)[j] == before[j]);
        }
    }
    let mut t: usize = 0;
    while t < tail.len()
        invariant
            t <= tail.len(),
            P >= 1,
            challenges@.len() + 1 + tail@.len() <= usize::MAX,
            point@.len() == challenges@.len() + 1 + t,
            want == round_slots(vals(challenges@), bits_as_residues(tail@, P as int)),
            forall|j: int| 0 <= j < point@.len() ==> #[trigger] partial_vals(point@)[j] == want[j],
        decreases tail.len() - t,
    {
        let ghost before = partial_vals(point@);
        let bit: Fp<P> = Fp::from(tail[t] as u64);
        point.push(Some(bit));
        assert forall|j: int| 0 <= j < point@.len() implies #[trigger] partial_vals(point@)[j]
            == want[j] by {
            if j < point@.len() - 1 {
                assert(partial_vals(point@)[j] == before[j]);
            }
        }
        t = t + 1;
    }
    assert(partial_vals(point@) =~= want);
    point
}

/// Adding a reduced value to a sum and reducing is adding it to the reduced
/// sum in the integers modulo `p`.
proof fn lemma_accumulate(total: int, value: int, p: int)
    requires
        p >= 1,
    ensures
        ((total % p) + value) % p == (total + value) % p,
{
    lemma_add_mod_noop(total, value, p);
    lemma_add_mod_noop(total % p, value, p);
    lemma_mod_twice(total, p);
}

/// The message of round `x_i` of the protocol for `g`: the polynomial in one
/// variable that `g` becomes when its first `x_i` variables are bound to
/// `challenges`, the next one is left free, and the others are summed over
/// all their boolean values.
pub fn reduce_poly_to_univar_at_x<const P: u64>(
    g: &SparsePolynomial<P>,
    x_i: usize,
    challenges: &Vec<Fp<P>>,
) -> (r: SparsePolynomial<P>)
    requires
        x_i < g@.num_vars,
        challenges@.len() == x_i,
        walkable((g@.num_vars - x_i - 1) as nat),
    ensures
        round_message(r@, g@, vals(challenges@), P as int),
        forall|rest: Seq<int>|
            rest.len() >= 1 ==> #[trigger] poly_eval(r@, rest, P as int) == round_value(
                g@,
                vals(challenges@),
                rest[0],
                P as int,
            ),
{
    proof {
        use_type_invariant(g);
    }
    let ghost bound = vals(challenges@);
    let dims: usize = g.num_vars() - x_i - 1;
    if dims == 0 {
        // Last round: nothing is left to sum over.
        let tail: Vec<u8> = Vec::new();
        let point: Vec<Option<Fp<P>>> = round_point(challenges, &tail);
        let last: SparsePolynomial<P> = g.partial_evaluate(&point);
        proof {
            let none = bits_as_residues(tail@, P as int);
            assert(none =~= Seq::<int>::empty());
            assert(pow2(0) == 1) by {
                lemma_pow2_pos(0);
                reveal(pow2);
                reveal(vstd::arithmetic::power::pow);
            }
            assert(bits_as_residues(cube_point(0, 0), P as int) =~= none);
            lemma_round_slots(bound, none, Seq::<int>::empty());
            let slots = round_slots(bound, none);
            assert(round_terms(g@, bound, 0, 0, P as int) =~= Seq::<(int, TermModel)>::empty());
            assert(round_terms(g@, bound, 0, 1, P as int) =~= bind_terms(g@.terms, slots));
            assert forall|rest: Seq<int>| #[trigger]
                poly_eval(last@, rest, P as int) == round_value(g@, bound, rest[0], P as int) by {
                lemma_round_slots(bound, none, rest);
                let full = bound.push(rest[0]) + none;
                assert(cube_sum(g@, bound.push(rest[0]), 0, 0, P as int) == 0);
                assert(cube_sum(g@, bound.push(rest[0]), 0, 1, P as int) == poly_eval(
                    g@,
                    full,
                    P as int,
                ));
                lemma_mod_twice(crate::polynomial::terms_sum(g@.terms, full), P as int);
            }
        }
        return last;
    }
    let mut walk = boolean_points(dims);
    let mut acc: SparsePolynomial<P> = SparsePolynomial::zero(1);
    let ghost mut idx: nat = 0;
    proof {
        lemma_small_mod(0, P as nat);
        lemma_pow2_pos(dims as nat);
        lemma_cube_points_from(dims as nat, 0);
        assert(cube_points(dims as nat).skip(0) =~= cube_points(dims as nat));
    }
    let mut next: Option<Vec<u8>> = next_point(&mut walk);
    while next.is_some()
        invariant
            idx <= pow2(dims as nat),
            next is Some ==> idx < pow2(dims as nat) && next->Some_0@ == cube_point(
                dims as nat,
                idx,
            ) && upcoming(walk) == cube_points(dims as nat).skip((idx + 1) as int),
            next is None ==> idx == pow2(dims as nat),
            P >= 1,
            bound == vals(challenges@),
            challenges@.len() == x_i,
            dims == g@.num_vars - x_i - 1,
            g@.num_vars <= usize::MAX,
            acc@.num_vars == 1,
            poly_normal(acc@, P as int),
            same_combination(
                acc@.terms,
                round_terms(g@, bound, dims as nat, idx as nat, P as int),
                P as int,
            ),
            forall|rest: Seq<int>| #[trigger]
                poly_eval(acc@, rest, P as int) == cube_sum(
                    g@,
                    bound.push(rest[0]),
                    dims as nat,
                    idx as nat,
                    P as int,
                ) % (P as int),
        decreases pow2(dims as nat) - idx,
    {
        let bits: Vec<u8> = next.unwrap();
        let ghost tail = bits_as_residues(bits@, P as int);
        proof {
            lemma_cube_point_shape(dims as nat, idx as nat);
        }
        let point: Vec<Option<Fp<P>>> = round_point(challenges, &bits);
        let part: SparsePolynomial<P> = g.partial_evaluate(&point);
        let ghost before = acc@;
        proof {
            lemma_round_slots(bound, tail, Seq::<int>::empty());
        }
        acc = acc.add(&part);
        proof {
            let sofar = round_terms(g@, bound, dims as nat, idx as nat, P as int);
            let more = bind_terms(g@.terms, round_slots(bound, tail));
            lemma_same_combination_concat(before.terms, sofar, part@.terms, more, P as int);
            lemma_same_combination_transitive(
                acc@.terms,
                before.terms + part@.terms,
                sofar + more,
                P as int,
            );
            assert forall|rest: Seq<int>| #[trigger]
                poly_eval(acc@, rest, P as int) == cube_sum(
                    g@,
                    bound.push(rest[0]),
                    dims as nat,
                    (idx + 1) as nat,
                    P as int,
                ) % (P as int) by {
                lemma_round_slots(bound, tail, rest);
                let total = cube_sum(g@, bound.push(rest[0]), dims as nat, idx as nat, P as int);
                let value = poly_eval(g@, bound.push(rest[0]) + tail, P as int);
                assert(poly_eval(before, rest, P as int) == total % (P as int));
                assert(poly_eval(part@, rest, P as int) == value);
                lemma_accumulate(total, value, P as int);
            }
            idx = idx + 1;
            lemma_cube_points_from(dims as nat, idx);
        }
        next = next_point(&mut walk);
    }
    acc
}

/// The sum of `g` over the whole boolean hypercube.
pub fn get_claim<const P: u64>(g: &SparsePolynomial<P>) -> (r: Fp<P>)
    requires
        walkable(g@.num_vars),
    ensures
        r.val() == hypercube_sum(g@, Seq::empty(), g@.num_vars, P as int),
        0 <= r.val() < P,
{
    proof {
        use_type_invariant(g);
    }
    let dims: usize = g.num_vars();
    let mut walk = boolean_points(dims);
    let mut acc: Fp<P> = Fp::zero();
    let ghost mut idx: nat = 0;
    proof {
        lemma_small_mod(0, P as nat);
        lemma_pow2_pos(dims as nat);
        lemma_cube_points_from(dims as nat, 0);
        assert(cube_points(dims as nat).skip(0) =~= cube_points(dims as nat));
    }
    let mut next: Option<Vec<u8>> = next_point(&mut walk);
    while next.is_some()
        invariant
            idx <= pow2(dims as nat),
            next is Some ==> idx < pow2(dims as nat) && next->Some_0@ == cube_point(
                dims as nat,
                idx,
            ) && upcoming(walk) == cube_points(dims as nat).skip((idx + 1) as int),
            next is None ==> idx == pow2(dims as nat),
            P >= 1,
            dims == g@.num_vars,
            acc.val() == cube_sum(g@, Seq::empty(), dims as nat, idx as nat, P as int) % (
            P as int),
            0 <= acc.val() < P,
        decreases pow2(dims as nat) - idx,
    {
        let bits: Vec<u8> = next.unwrap();
        proof {
            lemma_cube_point_shape(dims as nat, idx as nat);
        }
        let point: Vec<Fp<P>> = field_point(&bits);
        let value: Fp<P> = g.evaluate(&point);
        proof {
            let total = cube_sum(g@, Seq::empty(), dims as nat, idx as nat, P as int);
            assert(Seq::<int>::empty() + vals(point@) =~= vals(point@));
            lemma_accumulate(total, value.val(), P as int);
            idx = idx + 1;
            lemma_cube_points_from(dims as nat, idx);
        }
        acc = acc.add(value);
        next = next_point(&mut walk);
    }
    acc
}

/// The field elements that the coordinates of a boolean point stand for.
pub fn field_point<const P: u64>(bits: &Vec<u8>) -> (point: Vec<Fp<P>>)
    requires
        P >= 1,
    ensures
        point@.len() == bits@.len(),
        vals(point@) == bits_as_residues(bits@, P as int),
{
    let mut point: Vec<Fp<P>> = Vec::new();
    let mut k: usize = 0;
    while k < bits.len()
        invariant
            k <= bits.len(),
            P >= 1,
            point@.len() == k,
            forall|j: int| 0 <= j < k ==> (#[trigger] point@[j]).val() == (bits@[j] as int) % (
            P as int),
        decreases bits.len() - k,
    {
        point.push(Fp::from(bits[k] as u64));
        k = k + 1;
    }
    assert(vals(point@) =~= bits_as_residues(bits@, P as int));
    point
}

} // verus!
