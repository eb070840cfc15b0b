//! What a verifier that has accepted a false claim must have met: a round
//! whose message does not sum to the true partial sum and yet agrees with
//! the honest message at the challenge that was drawn.

use crate::polynomial::{poly_eval, PolyModel};
use crate::sumcheck::completeness::{initial_state, lemma_hypercube_point, run_state};
use crate::sumcheck::util::{hypercube_sum, round_value};
use crate::sumcheck::{
    expected_sum, message_fault, message_sum, step_result, step_state, Status, VerifierModel,
    VerifyError,
};
use vstd::prelude::*;

verus! {

/// The message of a round does not sum to the sum of `g` over the variables
/// that are free after `bound`, but at the challenge `r` it has the value
/// that the honest message has there.
pub open spec fn lucky_challenge(g: PolyModel, msg: PolyModel, bound: Seq<int>, r: int, p: int) -> bool {
    &&& message_sum(msg, p) != hypercube_sum(g, bound, (g.num_vars - bound.len()) as nat, p)
    &&& poly_eval(msg, seq![r], p) == round_value(g, bound, r, p)
}

/// A verifier that is not waiting for a message refuses every call as a
/// misuse and stays as it is: `Accept` and `Reject` are final.
pub proof fn lemma_closed_verifier_refuses(v: VerifierModel, msg: PolyModel, r: int, p: int)
    requires
        v.status != Status::Active,
    ensures
        step_result(v, msg, r, p) == Err::<int, VerifyError>(VerifyError::ProtocolMisuse),
        step_state(v, msg, r, p) == v,
{
}

/// A round adds at most one to the count of rounds, and adds one only when
/// the message passed: then the challenge and the message are kept and the
/// verifier accepts if the round was the last.
pub proof fn lemma_step_shape(v: VerifierModel, msg: PolyModel, r: int, p: int)
    ensures
        step_state(v, msg, r, p).oracle == v.oracle,
        step_state(v, msg, r, p).claim == v.claim,
        v.round <= step_state(v, msg, r, p).round <= v.round + 1,
        step_state(v, msg, r, p).round == v.round + 1 ==> {
            &&& step_result(v, msg, r, p) == Ok::<int, VerifyError>(r)
            &&& v.status == Status::Active
            &&& step_state(v, msg, r, p).challenges == v.challenges.push(r)
            &&& step_state(v, msg, r, p).previous == Some(msg)
        },
        step_state(v, msg, r, p).round == v.round ==> step_state(v, msg, r, p).status
            != Status::Accept || v.status == Status::Accept,
{
}

/// After `rounds` calls the verifier has counted at most `rounds` rounds, and
/// it has accepted only if it has counted a round for each variable.
pub proof fn lemma_run_bounds(
    g: PolyModel,
    claim: int,
    msgs: Seq<PolyModel>,
    rs: Seq<int>,
    p: int,
    rounds: nat,
)
    requires
        msgs.len() == rs.len(),
        rounds <= msgs.len(),
        g.num_vars >= 1,
    ensures
        ({
            let v = run_state(initial_state(g, claim), msgs.take(rounds as int), rs.take(rounds as int), p);
            &&& v.oracle == g
            &&& v.claim == claim
            &&& v.round <= rounds
            &&& v.status == Status::Accept ==> v.round == g.num_vars
        }),
    decreases rounds,
{
    if rounds == 0 {
        assert(msgs.take(0) =~= Seq::<PolyModel>::empty());
    } else {
        let k = (rounds - 1) as int;
        lemma_run_bounds(g, claim, msgs, rs, p, k as nat);
        assert(msgs.take(k + 1).drop_last() =~= msgs.take(k));
        assert(rs.take(k + 1).drop_last() =~= rs.take(k));
        let before = run_state(initial_state(g, claim), msgs.take(k), rs.take(k), p);
        lemma_step_shape(before, msgs[k], rs[k], p);
    }
}

/// In a run of as many calls as `g` has variables that ends in `Accept`,
/// every call was a round that passed: after `rounds` calls the verifier has
/// counted `rounds` rounds, holds the challenges drawn so far and the last
/// message, and the next message passes.
pub proof fn lemma_accepted_run(
    g: PolyModel,
    claim: int,
    msgs: Seq<PolyModel>,
    rs: Seq<int>,
    p: int,
    rounds: nat,
)
    requires
        g.num_vars >= 1,
        msgs.len() == g.num_vars,
        rs.len() == g.num_vars,
        run_state(initial_state(g, claim), msgs, rs, p).status == Status::Accept,
        rounds <= g.num_vars,
    ensures
        ({
            let v = run_state(initial_state(g, claim), msgs.take(rounds as int), rs.take(rounds as int), p);
            &&& v.oracle == g
            &&& v.claim == claim
            &&& v.round == rounds
            &&& v.challenges == rs.take(rounds as int)
            &&& rounds > 0 ==> v.previous == Some(msgs[rounds - 1])
            &&& rounds < g.num_vars ==> step_result(v, msgs[rounds as int], rs[rounds as int], p)
                == Ok::<int, VerifyError>(rs[rounds as int])
        }),
    decreases g.num_vars - rounds,
{
    let start = initial_state(g, claim);
    let k = rounds as int;
    let v = run_state(start, msgs.take(k), rs.take(k), p);
    lemma_run_bounds(g, claim, msgs, rs, p, rounds);
    if rounds == g.num_vars {
        assert(msgs.take(k) =~= msgs);
        assert(rs.take(k) =~= rs);
    } else {
        lemma_accepted_run(g, claim, msgs, rs, p, rounds + 1);
        assert(msgs.take(k + 1).drop_last() =~= msgs.take(k));
        assert(rs.take(k + 1).drop_last() =~= rs.take(k));
        lemma_step_shape(v, msgs[k], rs[k], p);
    }
    // the challenges and the last message, from the round before
    if rounds == 0 {
        assert(msgs.take(0) =~= Seq::<PolyModel>::empty());
        assert(rs.take(0) =~= Seq::<int>::empty());
    } else {
        lemma_accepted_run_keeps(g, claim, msgs, rs, p, rounds);
    }
}

/// What the verifier holds after a number of rounds that all passed.
pub proof fn lemma_accepted_run_keeps(
    g: PolyModel,
    claim: int,
    msgs: Seq<PolyModel>,
    rs: Seq<int>,
    p: int,
    rounds: nat,
)
    requires
        msgs.len() == rs.len(),
        rounds <= msgs.len(),
        g.num_vars >= 1,
        run_state(initial_state(g, claim), msgs.take(rounds as int), rs.take(rounds as int), p).round
            == rounds,
    ensures
        ({
            let v = run_state(initial_state(g, claim), msgs.take(rounds as int), rs.take(rounds as int), p);
            &&& v.challenges == rs.take(rounds as int)
            &&& rounds > 0 ==> v.previous == Some(msgs[rounds - 1])
        }),
    decreases rounds,
{
    if rounds == 0 {
        assert(msgs.take(0) =~= Seq::<PolyModel>::empty());
        assert(rs.take(0) =~= Seq::<int>::empty());
    } else {
        let k = (rounds - 1) as int;
        let before = run_state(initial_state(g, claim), msgs.take(k), rs.take(k), p);
        assert(msgs.take(k + 1).drop_last() =~= msgs.take(k));
        assert(rs.take(k + 1).drop_last() =~= rs.take(k));
        lemma_run_bounds(g, claim, msgs, rs, p, k as nat);
        lemma_step_shape(before, msgs[k], rs[k], p);
        lemma_accepted_run_keeps(g, claim, msgs, rs, p, k as nat);
        assert(rs.take(k).push(rs[k]) =~= rs.take(k + 1));
    }
}

/// In an accepted run, from a round whose message had to sum to something
/// other than the true partial sum, a lucky challenge follows.
pub proof fn lemma_lucky_challenge_from(
    g: PolyModel,
    claim: int,
    msgs: Seq<PolyModel>,
    rs: Seq<int>,
    p: int,
    from: nat,
) -> (k: int)
    requires
        p >= 1,
        g.num_vars >= 1,
        msgs.len() == g.num_vars,
        rs.len() == g.num_vars,
        run_state(initial_state(g, claim), msgs, rs, p).status == Status::Accept,
        from < g.num_vars,
        expected_sum(
            run_state(initial_state(g, claim), msgs.take(from as int), rs.take(from as int), p),
            p,
        ) != hypercube_sum(g, rs.take(from as int), (g.num_vars - from) as nat, p),
    ensures
        from <= k < g.num_vars,
        lucky_challenge(g, msgs[k], rs.take(k), rs[k], p),
    decreases g.num_vars - from,
{
    let j = from as int;
    let v = run_state(initial_state(g, claim), msgs.take(j), rs.take(j), p);
    lemma_accepted_run(g, claim, msgs, rs, p, from);
    assert(message_fault(v, msgs[j], p) is None);
    assert(message_sum(msgs[j], p) == expected_sum(v, p));
    if poly_eval(msgs[j], seq![rs[j]], p) == round_value(g, rs.take(j), rs[j], p) {
        j
    } else {
        assert(rs.take(j).push(rs[j]) =~= rs.take(j + 1));
        if from + 1 == g.num_vars {
            lemma_hypercube_point(g, rs.take(j + 1), p);
            assert(false);
            j
        } else {
            lemma_accepted_run(g, claim, msgs, rs, p, from + 1);
            let next = run_state(initial_state(g, claim), msgs.take(j + 1), rs.take(j + 1), p);
            assert(rs.take(j + 1).last() == rs[j]);
            assert(expected_sum(next, p) == poly_eval(msgs[j], seq![rs[j]], p));
            lemma_lucky_challenge_from(g, claim, msgs, rs, p, from + 1)
        }
    }
}

/// The part of soundness that holds without chance: a verifier accepts a
/// false claim only if, in some round, the message did not sum to the true
/// partial sum and the challenge drawn was a point where that message and
/// the honest one agree.
pub proof fn lemma_false_claim_needs_lucky_challenge(
    g: PolyModel,
    claim: int,
    msgs: Seq<PolyModel>,
    rs: Seq<int>,
    p: int,
)
    requires
        p >= 1,
        g.num_vars >= 1,
        msgs.len() == g.num_vars,
        rs.len() == g.num_vars,
        claim != hypercube_sum(g, Seq::empty(), g.num_vars, p),
        run_state(initial_state(g, claim), msgs, rs, p).status == Status::Accept,
    ensures
        exists|k: int|
            0 <= k < g.num_vars && #[trigger] lucky_challenge(g, msgs[k], rs.take(k), rs[k], p),
{
    assert(msgs.take(0) =~= Seq::<PolyModel>::empty());
    assert(rs.take(0) =~= Seq::<int>::empty());
    let k = lemma_lucky_challenge_from(g, claim, msgs, rs, p, 0);
    assert(lucky_challenge(g, msgs[k], rs.take(k), rs[k], p));
}

} // verus!
