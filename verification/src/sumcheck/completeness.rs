//! Completeness of the protocol: a verifier that is given a true claim and
//! the messages of an honest prover accepts, whatever challenges it draws.

use crate::field::{all_reduced, bits_as_residues, fadd, fone};
use crate::hypercube::{cube_point, lemma_cube_point_leading};
use crate::polynomial::{poly_eval, PolyModel};
use crate::sumcheck::util::{cube_sum, hypercube_sum, round_value};
use crate::sumcheck::{
    expected_sum, honest_message, message_fault, message_sum, step_result, step_state,
    verifier_wf, Status, VerifierModel, VerifyError,
};
use vstd::arithmetic::div_mod::*;
use vstd::arithmetic::power2::{lemma_pow2_pos, lemma_pow2_unfold, pow2};
use vstd::prelude::*;

verus! {

/// Over the first half of a hypercube, summing after `prefix` is summing over
/// the hypercube of one dimension less after `prefix` and a 0.
pub proof fn lemma_cube_sum_low(g: PolyModel, prefix: Seq<int>, dims: nat, count: nat, p: int)
    requires
        p >= 1,
        count <= pow2(dims),
    ensures
        cube_sum(g, prefix, dims + 1, count, p) == cube_sum(g, prefix.push(0), dims, count, p),
    decreases count,
{
    if count > 0 {
        let idx = (count - 1) as nat;
        lemma_cube_sum_low(g, prefix, dims, idx, p);
        lemma_pow2_unfold(dims + 1);
        lemma_cube_point_leading(dims + 1, idx);
        let rest = cube_point(dims, idx);
        assert(prefix + bits_as_residues(seq![0u8] + rest, p) =~= prefix.push(0)
            + bits_as_residues(rest, p)) by {
            lemma_small_mod(0, p as nat);
        }
    }
}

/// Over the second half of a hypercube, summing after `prefix` is summing
/// over the hypercube of one dimension less after `prefix` and a 1.
pub proof fn lemma_cube_sum_high(g: PolyModel, prefix: Seq<int>, dims: nat, count: nat, p: int)
    requires
        p >= 1,
        count <= pow2(dims),
    ensures
        cube_sum(g, prefix, dims + 1, pow2(dims) + count, p) == cube_sum(
            g,
            prefix,
            dims + 1,
            pow2(dims),
            p,
        ) + cube_sum(g, prefix.push(fone(p)), dims, count, p),
    decreases count,
{
    if count > 0 {
        let idx = (count - 1) as nat;
        lemma_cube_sum_high(g, prefix, dims, idx, p);
        lemma_pow2_unfold(dims + 1);
        lemma_cube_point_leading(dims + 1, pow2(dims) + idx);
        let rest = cube_point(dims, idx);
        assert(prefix + bits_as_residues(seq![1u8] + rest, p) =~= prefix.push(fone(p))
            + bits_as_residues(rest, p));
    }
}

/// The sum over a hypercube is the sum over its half where the first free
/// variable is 0 plus the sum over its half where that variable is 1.
pub proof fn lemma_hypercube_split(g: PolyModel, prefix: Seq<int>, dims: nat, p: int)
    requires
        p >= 1,
    ensures
        hypercube_sum(g, prefix, dims + 1, p) == fadd(
            hypercube_sum(g, prefix.push(0), dims, p),
            hypercube_sum(g, prefix.push(fone(p)), dims, p),
            p,
        ),
{
    let half = pow2(dims);
    lemma_pow2_unfold(dims + 1);
    lemma_cube_sum_low(g, prefix, dims, half, p);
    lemma_cube_sum_high(g, prefix, dims, half, p);
    lemma_add_mod_noop(
        cube_sum(g, prefix.push(0), dims, half, p),
        cube_sum(g, prefix.push(fone(p)), dims, half, p),
        p,
    );
}

/// The sum over the hypercube of no dimension is the value at the prefix.
pub proof fn lemma_hypercube_point(g: PolyModel, prefix: Seq<int>, p: int)
    requires
        p >= 1,
    ensures
        hypercube_sum(g, prefix, 0, p) == poly_eval(g, prefix, p),
{
    assert(pow2(0) == 1) by {
        lemma_pow2_pos(0);
        reveal(pow2);
        reveal(vstd::arithmetic::power::pow);
    }
    assert(prefix + bits_as_residues(cube_point(0, 0), p) =~= prefix);
    assert(cube_sum(g, prefix, 0, 0, p) == 0);
    assert(cube_sum(g, prefix, 0, 1, p) == poly_eval(g, prefix, p));
    lemma_mod_twice(crate::polynomial::terms_sum(g.terms, prefix), p);
}

/// An honest message sums, over 0 and 1, to the sum of the polynomial over
/// all boolean values of the variables that are not bound yet.
pub proof fn lemma_honest_message_sum(msg: PolyModel, g: PolyModel, bound: Seq<int>, p: int)
    requires
        p >= 1,
        bound.len() < g.num_vars,
        honest_message(msg, g, bound, p),
    ensures
        message_sum(msg, p) == hypercube_sum(g, bound, (g.num_vars - bound.len()) as nat, p),
{
    let dims = (g.num_vars - bound.len() - 1) as nat;
    assert(seq![0int][0] == 0);
    assert(seq![fone(p)][0] == fone(p));
    assert(poly_eval(msg, seq![0int], p) == round_value(g, bound, 0, p));
    assert(poly_eval(msg, seq![fone(p)], p) == round_value(g, bound, fone(p), p));
    lemma_hypercube_split(g, bound, dims, p);
}

/// The verifier holds what an honest run leaves it with: a true claim before
/// the first round, later a last message that is the honest one for the
/// challenges before the last.
pub open spec fn honest_state(v: VerifierModel, p: int) -> bool {
    &&& v.round == 0 ==> v.claim == hypercube_sum(v.oracle, Seq::empty(), v.oracle.num_vars, p)
    &&& v.round > 0 ==> honest_message(v.previous->Some_0, v.oracle, v.challenges.drop_last(), p)
}

/// A verifier in an honest state accepts the honest message of its round
/// whatever challenge it draws, is in an honest state again afterwards, and
/// has accepted the claim if the round was the last.
pub proof fn lemma_honest_round_passes(v: VerifierModel, msg: PolyModel, r: int, p: int)
    requires
        verifier_wf(v, p),
        v.status == Status::Active,
        v.round < v.oracle.num_vars,
        honest_state(v, p),
        honest_message(msg, v.oracle, v.challenges, p),
        0 <= r < p,
    ensures
        step_result(v, msg, r, p) == Ok::<int, VerifyError>(r),
        verifier_wf(step_state(v, msg, r, p), p),
        honest_state(step_state(v, msg, r, p), p),
        step_state(v, msg, r, p).round == v.round + 1,
        step_state(v, msg, r, p).challenges == v.challenges.push(r),
        step_state(v, msg, r, p).oracle == v.oracle,
        step_state(v, msg, r, p).status == if v.round + 1 == v.oracle.num_vars {
            Status::Accept
        } else {
            Status::Active
        },
{
    let g = v.oracle;
    let left = (g.num_vars - v.round) as nat;
    lemma_honest_message_sum(msg, g, v.challenges, p);
    if v.round > 0 {
        let earlier = v.challenges.drop_last();
        let last = v.challenges.last();
        assert(seq![last][0] == last);
        assert(earlier.push(last) =~= v.challenges);
        assert(expected_sum(v, p) == round_value(g, earlier, last, p));
    }
    if v.round == 0 {
        assert(v.challenges =~= Seq::<int>::empty());
    }
    assert(message_sum(msg, p) == expected_sum(v, p));
    assert(message_fault(v, msg, p) is None);
    if v.round + 1 == g.num_vars {
        assert(seq![r][0] == r);
        lemma_hypercube_point(g, v.challenges.push(r), p);
    }
    let next = step_state(v, msg, r, p);
    assert(next.challenges.drop_last() =~= v.challenges);
}

/// The state of a verifier that started in `start` and was given the
/// messages `msgs` in turn, drawing the challenges `rs`.
pub open spec fn run_state(start: VerifierModel, msgs: Seq<PolyModel>, rs: Seq<int>, p: int) -> VerifierModel
    decreases msgs.len(),
{
    if msgs.len() == 0 {
        start
    } else {
        step_state(
            run_state(start, msgs.drop_last(), rs.drop_last(), p),
            msgs.last(),
            rs.last(),
            p,
        )
    }
}

/// The state of a verifier for `g` and `claim` before its first round.
pub open spec fn initial_state(g: PolyModel, claim: int) -> VerifierModel {
    VerifierModel {
        oracle: g,
        claim,
        round: 0,
        challenges: Seq::empty(),
        previous: None,
        status: Status::Active,
    }
}

/// After any number of rounds of an honest run on a true claim, the verifier
/// has failed no check, has counted the rounds and kept the challenges, and is
/// in an honest state.
pub proof fn lemma_honest_run(
    g: PolyModel,
    claim: int,
    msgs: Seq<PolyModel>,
    rs: Seq<int>,
    p: int,
    rounds: nat,
)
    requires
        p >= 1,
        0 <= claim < p,
        claim == hypercube_sum(g, Seq::empty(), g.num_vars, p),
        msgs.len() == g.num_vars,
        rs.len() == g.num_vars,
        all_reduced(rs, p),
        forall|k: int| 0 <= k < msgs.len() ==> honest_message(#[trigger] msgs[k], g, rs.take(k), p),
        rounds <= g.num_vars,
    ensures
        ({
            let v = run_state(initial_state(g, claim), msgs.take(rounds as int), rs.take(rounds as int), p);
            &&& verifier_wf(v, p)
            &&& honest_state(v, p)
            &&& v.oracle == g
            &&& v.round == rounds
            &&& v.challenges == rs.take(rounds as int)
            &&& v.status == if rounds == g.num_vars && rounds > 0 {
                Status::Accept
            } else {
                Status::Active
            }
            &&& rounds > 0 ==> step_result(
                run_state(
                    initial_state(g, claim),
                    msgs.take(rounds - 1),
                    rs.take(rounds - 1),
                    p,
                ),
                msgs[rounds - 1],
                rs[rounds - 1],
                p,
            ) == Ok::<int, VerifyError>(rs[rounds - 1])
        }),
    decreases rounds,
{
    let start = initial_state(g, claim);
    if rounds == 0 {
        assert(msgs.take(0) =~= Seq::<PolyModel>::empty());
        assert(rs.take(0) =~= Seq::<int>::empty());
    } else {
        let k = (rounds - 1) as int;
        lemma_honest_run(g, claim, msgs, rs, p, k as nat);
        let before = run_state(start, msgs.take(k), rs.take(k), p);
        assert(msgs.take(k + 1).drop_last() =~= msgs.take(k));
        assert(rs.take(k + 1).drop_last() =~= rs.take(k));
        assert(msgs.take(k + 1).last() == msgs[k]);
        assert(rs.take(k + 1).last() == rs[k]);
        lemma_honest_round_passes(before, msgs[k], rs[k], p);
        assert(rs.take(k).push(rs[k]) =~= rs.take(k + 1));
    }
}

/// Completeness: when the claim is the true sum of `g` over the boolean
/// hypercube and every message is the honest one for the challenges drawn
/// before it, the verifier ends in `Accept`, whatever the challenges are.
pub proof fn lemma_completeness(
    g: PolyModel,
    claim: int,
    msgs: Seq<PolyModel>,
    rs: Seq<int>,
    p: int,
)
    requires
        p >= 1,
        g.num_vars >= 1,
        0 <= claim < p,
        claim == hypercube_sum(g, Seq::empty(), g.num_vars, p),
        msgs.len() == g.num_vars,
        rs.len() == g.num_vars,
        all_reduced(rs, p),
        forall|k: int| 0 <= k < msgs.len() ==> honest_message(#[trigger] msgs[k], g, rs.take(k), p),
    ensures
        run_state(initial_state(g, claim), msgs, rs, p).status == Status::Accept,
        forall|k: int|
            0 <= k < msgs.len() ==> #[trigger] step_result(
                run_state(initial_state(g, claim), msgs.take(k), rs.take(k), p),
                msgs[k],
                rs[k],
                p,
            ) == Ok::<int, VerifyError>(rs[k]),
{
    lemma_honest_run(g, claim, msgs, rs, p, g.num_vars);
    assert(msgs.take(g.num_vars as int) =~= msgs);
    assert(rs.take(g.num_vars as int) =~= rs);
    assert forall|k: int| 0 <= k < msgs.len() implies #[trigger] step_result(
        run_state(initial_state(g, claim), msgs.take(k), rs.take(k), p),
        msgs[k],
        rs[k],
        p,
    ) == Ok::<int, VerifyError>(rs[k]) by {
        lemma_honest_run(g, claim, msgs, rs, p, (k + 1) as nat);
    }
}

} // verus!
