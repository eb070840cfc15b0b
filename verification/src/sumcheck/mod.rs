//! The sum-check protocol: a prover and a verifier that take turns for as
//! many rounds as the polynomial has variables.

pub mod completeness;
pub mod soundness;
pub mod util;

use crate::field::{all_reduced, fadd, fone, vals, Fp};
use crate::hypercube::walkable;
use crate::polynomial::{poly_eval, PolyModel, SparsePolynomial};
use crate::prime::{is_prime, lemma_prime_by_small_divisors, no_divisor_below};
use crate::sumcheck::util::{reduce_poly_to_univar_at_x, round_message, round_value};
use ark_std::rand::rngs::StdRng;
use vstd::arithmetic::div_mod::*;
use vstd::prelude::*;

verus! {

/// The field of 71 elements, over which the worked example of the protocol
/// is set.
pub struct FqConfig;

impl FqConfig {
    /// The number of elements of the field.
    pub const MODULUS: u64 = 71;

    /// The modulus is prime, so that the integers modulo it are a field.
    pub proof fn lemma_modulus_is_prime()
        ensures
            is_prime(FqConfig::MODULUS as int),
    {
        assert(71int % 2 != 0 && 71int % 3 != 0 && 71int % 4 != 0 && 71int % 5 != 0);
        assert(71int % 6 != 0 && 71int % 7 != 0 && 71int % 8 != 0);
        assert(no_divisor_below(71, 9));
        lemma_prime_by_small_divisors(71, 9);
    }
}

/// An element of the field of 71 elements.
pub type Fq = Fp<71>;

/// Why the prover refused a call.
#[derive(Clone, Copy, Debug, PartialEq, Eq)]
pub enum ProverError {
    /// The call does not fit the round: a challenge before the first message,
    /// none after it, or a call when every round is done.
    ProtocolMisuse,
}

/// Why the verifier refused a message or a call.
#[derive(Clone, Copy, Debug, PartialEq, Eq)]
pub enum VerifyError {
    /// The message is not a polynomial in exactly one variable.
    ArityMismatch,
    /// The first message does not sum to the claim.
    ClaimMismatch,
    /// A later message does not sum to the value of the one before it at the
    /// last challenge.
    ConsistencyMismatch,
    /// The last message disagrees with the oracle at the challenges.
    FinalCheckMismatch,
    /// The call came when no round was open.
    ProtocolMisuse,
}

/// Where a verifier stands.
#[derive(Clone, Copy, Debug, PartialEq, Eq)]
pub enum Status {
    /// Rounds are still to come.
    Active,
    /// Every round passed.
    Accept,
    /// A message failed a check.
    Reject,
}

/// `msg` is what an honest prover for `g` sends when the variables before the
/// free one are bound to `bound`.
pub open spec fn honest_message(msg: PolyModel, g: PolyModel, bound: Seq<int>, p: int) -> bool {
    &&& msg.num_vars == 1
    &&& forall|rest: Seq<int>|
        rest.len() >= 1 ==> #[trigger] poly_eval(msg, rest, p) == round_value(g, bound, rest[0], p)
}

/// What a prover holds: the polynomial, the number of messages sent, and the
/// challenges received.
pub struct ProverModel {
    pub g: PolyModel,
    pub round: nat,
    pub challenges: Seq<int>,
}

/// The prover of the sum-check protocol for one polynomial.
pub struct Prover<const P: u64> {
    g: SparsePolynomial<P>,
    round: usize,
    challenges: Vec<Fp<P>>,
}

impl<const P: u64> View for Prover<P> {
    type V = ProverModel;

    closed spec fn view(&self) -> ProverModel {
        ProverModel { g: self.g@, round: self.round as nat, challenges: vals(self.challenges@) }
    }
}

/// The residue of a challenge that may be absent.
pub open spec fn residue<const P: u64>(challenge: Option<Fp<P>>) -> Option<int> {
    match challenge {
        Some(c) => Some(c.val()),
        None => None,
    }
}

/// The challenges received once `challenge`, if there is one, has come.
pub open spec fn with_challenge(received: Seq<int>, challenge: Option<int>) -> Seq<int> {
    match challenge {
        Some(c) => received.push(c),
        None => received,
    }
}

/// A call of `prove_round` with this challenge does not fit the round that
/// the prover is in.
pub open spec fn prover_misuse(m: ProverModel, challenge: Option<int>) -> bool {
    m.round >= m.g.num_vars || (m.round == 0) != (challenge is None)
}

/// What the prover holds after a call of `prove_round` with this challenge:
/// a misuse changes nothing; otherwise the challenge, if there is one, is
/// kept and one more message counts as sent.
pub open spec fn prover_after(m: ProverModel, challenge: Option<int>) -> ProverModel {
    if prover_misuse(m, challenge) {
        m
    } else {
        ProverModel {
            round: m.round + 1,
            challenges: with_challenge(m.challenges, challenge),
            ..m
        }
    }
}

impl<const P: u64> Prover<P> {
    /// The prover has sent at most one message per variable and has received
    /// one challenge for each message but the first.
    pub open spec fn wf(&self) -> bool {
        &&& self@.round <= self@.g.num_vars
        &&& walkable(self@.g.num_vars)
        &&& self@.challenges.len() == if self@.round == 0 {
            0
        } else {
            self@.round - 1
        }
    }

    /// A prover for `g`, before its first message.
    pub fn init(g: SparsePolynomial<P>) -> (r: Self)
        requires
            walkable(g@.num_vars),
        ensures
            r.wf(),
            r@.g == g@,
            r@.round == 0,
            r@.challenges.len() == 0,
    {
        let r = Prover { g, round: 0, challenges: Vec::new() };
        assert(r@.challenges =~= Seq::<int>::empty());
        r
    }

    /// The number of messages sent so far.
    pub fn round(&self) -> (r: usize)
        ensures
            r == self@.round,
    {
        self.round
    }

    /// Takes the verifier's challenge to the last message (none before the
    /// first message) and gives the message of the next round.
    pub fn prove_round(&mut self, r: Option<Fp<P>>) -> (res: Result<
        SparsePolynomial<P>,
        ProverError,
    >)
        requires
            old(self).wf(),
        ensures
            final(self).wf(),
            final(self)@ == prover_after(old(self)@, residue(r)),
            prover_misuse(old(self)@, residue(r)) ==> res matches Err(ProverError::ProtocolMisuse),
            !prover_misuse(old(self)@, residue(r)) ==> res is Ok,
            res is Ok ==> round_message(res->Ok_0@, old(self)@.g, final(self)@.challenges, P as int),
            res is Ok ==> honest_message(
                res->Ok_0@,
                old(self)@.g,
                final(self)@.challenges,
                P as int,
            ),
    {
        if self.round >= self.g.num_vars() {
            return Err(ProverError::ProtocolMisuse);
        }
        match r {
            Some(challenge) => {
                if self.round == 0 {
                    return Err(ProverError::ProtocolMisuse);
                }
                let ghost before = vals(self.challenges@);
                self.challenges.push(challenge);
                assert(vals(self.challenges@) =~= before.push(challenge.val()));
            },
            None => {
                if self.round != 0 {
                    return Err(ProverError::ProtocolMisuse);
                }
            },
        }
        let message: SparsePolynomial<P> = reduce_poly_to_univar_at_x(
            &self.g,
            self.round,
            &self.challenges,
        );
        self.round = self.round + 1;
        Ok(message)
    }
}

/// What a verifier holds: the polynomial that it may query at full points,
/// the claimed sum, the number of messages accepted, the challenges sent, the
/// last message accepted, and where it stands.
pub struct VerifierModel {
    pub oracle: PolyModel,
    pub claim: int,
    pub round: nat,
    pub challenges: Seq<int>,
    pub previous: Option<PolyModel>,
    pub status: Status,
}

/// The value of a message at 0 plus its value at 1.
pub open spec fn message_sum(msg: PolyModel, p: int) -> int {
    fadd(poly_eval(msg, seq![0int], p), poly_eval(msg, seq![fone(p)], p), p)
}

/// What the next message has to sum to: the claim in the first round, later
/// the value of the last message at the last challenge.
pub open spec fn expected_sum(v: VerifierModel, p: int) -> int {
    if v.round == 0 {
        v.claim
    } else {
        poly_eval(v.previous->Some_0, seq![v.challenges.last()], p)
    }
}

/// The fault, if any, that the verifier finds in a message before it draws a
/// challenge.
pub open spec fn message_fault(v: VerifierModel, msg: PolyModel, p: int) -> Option<VerifyError> {
    if v.status != Status::Active || v.round >= v.oracle.num_vars {
        Some(VerifyError::ProtocolMisuse)
    } else if msg.num_vars != 1 {
        Some(VerifyError::ArityMismatch)
    } else if message_sum(msg, p) != expected_sum(v, p) {
        if v.round == 0 {
            Some(VerifyError::ClaimMismatch)
        } else {
            Some(VerifyError::ConsistencyMismatch)
        }
    } else {
        None
    }
}

/// In the last round, the message disagrees with the oracle at the point
/// made of all the challenges.
pub open spec fn final_check_fails(v: VerifierModel, msg: PolyModel, r: int, p: int) -> bool {
    v.round + 1 == v.oracle.num_vars && poly_eval(msg, seq![r], p) != poly_eval(
        v.oracle,
        v.challenges.push(r),
        p,
    )
}

/// What a round returns when the challenge drawn is `r`.
pub open spec fn step_result(v: VerifierModel, msg: PolyModel, r: int, p: int) -> Result<
    int,
    VerifyError,
> {
    match message_fault(v, msg, p) {
        Some(e) => Err(e),
        None => if final_check_fails(v, msg, r, p) {
            Err(VerifyError::FinalCheckMismatch)
        } else {
            Ok(r)
        },
    }
}

/// What the verifier holds after a round in which the challenge drawn is `r`:
/// a misuse changes nothing, a failed check leads to `Reject` for good, and a
/// message that passes is kept together with the challenge.
pub open spec fn step_state(v: VerifierModel, msg: PolyModel, r: int, p: int) -> VerifierModel {
    match step_result(v, msg, r, p) {
        Ok(_) => VerifierModel {
            round: v.round + 1,
            challenges: v.challenges.push(r),
            previous: Some(msg),
            status: if v.round + 1 == v.oracle.num_vars {
                Status::Accept
            } else {
                Status::Active
            },
            ..v
        },
        Err(VerifyError::ProtocolMisuse) => v,
        Err(_) => VerifierModel { status: Status::Reject, ..v },
    }
}

/// The state is one that a verifier over the integers modulo `p` can be in.
pub open spec fn verifier_wf(v: VerifierModel, p: int) -> bool {
    &&& p >= 1
    &&& 0 <= v.claim < p
    &&& v.round <= v.oracle.num_vars
    &&& v.challenges.len() == v.round
    &&& all_reduced(v.challenges, p)
    &&& (v.previous is Some) == (v.round > 0)
    &&& v.previous is Some ==> v.previous->Some_0.num_vars == 1
    &&& v.status == Status::Accept ==> v.round == v.oracle.num_vars
}

/// What a call returned, with the challenge as its residue.
pub open spec fn outcome<const P: u64>(res: Result<Fp<P>, VerifyError>) -> Result<
    int,
    VerifyError,
> {
    match res {
        Ok(r) => Ok(r.val()),
        Err(e) => Err(e),
    }
}

/// The verifier of the sum-check protocol for one polynomial, which it
/// only ever evaluates at full points, and one claimed sum.
pub struct Verifier<const P: u64> {
    g: SparsePolynomial<P>,
    round: usize,
    challenges: Vec<Fp<P>>,
    previous_poly: Option<SparsePolynomial<P>>,
    claim: Fp<P>,
    status: Status,
}

impl<const P: u64> View for Verifier<P> {
    type V = VerifierModel;

    closed spec fn view(&self) -> VerifierModel {
        VerifierModel {
            oracle: self.g@,
            claim: self.claim.val(),
            round: self.round as nat,
            challenges: vals(self.challenges@),
            previous: match self.previous_poly {
                Some(poly) => Some(poly@),
                None => None,
            },
            status: self.status,
        }
    }
}

impl<const P: u64> Verifier<P> {
    /// The state is one that a verifier can be in.
    pub open spec fn wf(&self) -> bool {
        verifier_wf(self@, P as int)
    }

    /// A verifier for the claim that `g` sums to `initial_claim` over the
    /// boolean hypercube, before the first round.
    pub fn init(g: SparsePolynomial<P>, initial_claim: Fp<P>) -> (r: Self)
        ensures
            r.wf(),
            r@ == (VerifierModel {
                oracle: g@,
                claim: initial_claim.val(),
                round: 0,
                challenges: Seq::empty(),
                previous: None,
                status: Status::Active,
            }),
    {
        proof {
            use_type_invariant(&initial_claim);
        }
        let r = Verifier {
            g,
            round: 0,
            challenges: Vec::new(),
            previous_poly: None,
            claim: initial_claim,
            status: Status::Active,
        };
        assert(r@.challenges =~= Seq::<int>::empty());
        r
    }

    /// Where the verifier stands.
    pub fn status(&self) -> (r: Status)
        ensures
            r == self@.status,
    {
        self.status
    }

    /// The number of messages accepted so far.
    pub fn round(&self) -> (r: usize)
        ensures
            r == self@.round,
    {
        self.round
    }

    /// The value of the polynomial at the point made of the challenges.
    fn query_oracle(&self, point: &Vec<Fp<P>>) -> (r: Fp<P>)
        requires
            point@.len() >= self@.oracle.num_vars,
        ensures
            r.val() == poly_eval(self@.oracle, vals(point@), P as int),
    {
        self.g.evaluate(point)
    }

    /// The checks that need no challenge.
    fn check_message(&self, poly: &SparsePolynomial<P>) -> (r: Option<VerifyError>)
        requires
            self.wf(),
        ensures
            r == message_fault(self@, poly@, P as int),
    {
        match self.status {
            Status::Active => {},
            _ => {
                return Some(VerifyError::ProtocolMisuse);
            },
        }
        if self.round >= self.g.num_vars() {
            return Some(VerifyError::ProtocolMisuse);
        }
        if poly.num_vars() != 1 {
            return Some(VerifyError::ArityMismatch);
        }
        let at_zero: Fp<P> = evaluate_at(poly, Fp::zero());
        let at_one: Fp<P> = evaluate_at(poly, Fp::one());
        let computed: Fp<P> = at_zero.add(at_one);
        if self.round == 0 {
            if computed != self.claim {
                return Some(VerifyError::ClaimMismatch);
            }
        } else {
            match &self.previous_poly {
                Some(previous) => {
                    let last: Fp<P> = self.challenges[self.round - 1];
                    assert(vals(self.challenges@).last() == last.val());
                    let expected: Fp<P> = evaluate_at(previous, last);
                    if computed != expected {
                        return Some(VerifyError::ConsistencyMismatch);
                    }
                },
                None => {
                    assert(false);
                },
            }
        }
        None
    }

    /// Moves to `Reject` unless the fault is a misuse, and reports the fault.
    fn fail(&mut self, fault: VerifyError) -> (res: Result<Fp<P>, VerifyError>)
        requires
            old(self).wf(),
        ensures
            final(self).wf(),
            res == Err::<Fp<P>, VerifyError>(fault),
            final(self)@ == match fault {
                VerifyError::ProtocolMisuse => old(self)@,
                _ => (VerifierModel { status: Status::Reject, ..old(self)@ }),
            },
    {
        match fault {
            VerifyError::ProtocolMisuse => {},
            _ => {
                self.status = Status::Reject;
            },
        }
        Err(fault)
    }

    /// The rest of a round whose message passed the first checks: the final
    /// check if this is the last round, then the bookkeeping.
    fn complete(&mut self, poly: SparsePolynomial<P>, r: Fp<P>) -> (res: Result<Fp<P>, VerifyError>)
        requires
            old(self).wf(),
            message_fault(old(self)@, poly@, P as int) is None,
        ensures
            final(self).wf(),
            outcome(res) == step_result(old(self)@, poly@, r.val(), P as int),
            final(self)@ == step_state(old(self)@, poly@, r.val(), P as int),
    {
        proof {
            use_type_invariant(&r);
        }
        assert(self.round < self.g@.num_vars);
        let ghost before = vals(self.challenges@);
        let mut point: Vec<Fp<P>> = copy_elements(&self.challenges);
        point.push(r);
        assert(vals(point@) =~= before.push(r.val()));
        let num_vars: usize = self.g.num_vars();
        let last_round: bool = self.round + 1 == num_vars;
        if last_round {
            let from_message: Fp<P> = evaluate_at(&poly, r);
            let from_oracle: Fp<P> = self.query_oracle(&point);
            if from_message != from_oracle {
                self.status = Status::Reject;
                return Err(VerifyError::FinalCheckMismatch);
            }
        }
        self.challenges = point;
        self.round = self.round + 1;
        self.previous_poly = Some(poly);
        if last_round {
            self.status = Status::Accept;
        }
        Ok(r)
    }

    /// One round with the challenge given by the caller: checks the message
    /// against the claim or the message before it, in the last round also
    /// against the oracle, and on success keeps it and returns the challenge.
    pub fn verify_round_with_challenge(&mut self, poly: SparsePolynomial<P>, r: Fp<P>) -> (res:
        Result<Fp<P>, VerifyError>)
        requires
            old(self).wf(),
        ensures
            final(self).wf(),
            outcome(res) == step_result(old(self)@, poly@, r.val(), P as int),
            final(self)@ == step_state(old(self)@, poly@, r.val(), P as int),
    {
        match self.check_message(&poly) {
            Some(fault) => self.fail(fault),
            None => self.complete(poly, r),
        }
    }

    /// One round: checks the message, draws the challenge from `rng` once
    /// the message has passed the checks that need none, and goes on as
    /// `verify_round_with_challenge` does with that challenge.
    pub fn verify_round(&mut self, poly: SparsePolynomial<P>, rng: &mut StdRng) -> (res: Result<
        Fp<P>,
        VerifyError,
    >)
        requires
            old(self).wf(),
        ensures
            final(self).wf(),
            exists|r: int|
                0 <= r < P && outcome(res) == #[trigger] step_result(
                    old(self)@,
                    poly@,
                    r,
                    P as int,
                ) && final(self)@ == step_state(old(self)@, poly@, r, P as int),
    {
        let ghost start = self@;
        match self.check_message(&poly) {
            Some(fault) => {
                let res = self.fail(fault);
                assert(outcome(res) == step_result(start, poly@, 0, P as int));
                assert(self@ == step_state(start, poly@, 0, P as int));
                res
            },
            None => {
                let r: Fp<P> = Fp::rand(rng);
                let res = self.complete(poly, r);
                assert(outcome(res) == step_result(start, poly@, r.val(), P as int));
                res
            },
        }
    }
}

/// The value of a polynomial in one variable at `x`.
fn evaluate_at<const P: u64>(poly: &SparsePolynomial<P>, x: Fp<P>) -> (r: Fp<P>)
    requires
        poly@.num_vars == 1,
    ensures
        r.val() == poly_eval(poly@, seq![x.val()], P as int),
        0 <= r.val() < P,
{
    let mut point: Vec<Fp<P>> = Vec::new();
    point.push(x);
    assert(vals(point@) =~= seq![x.val()]);
    poly.evaluate(&point)
}

/// A copy of a vector of field elements.
fn copy_elements<const P: u64>(src: &Vec<Fp<P>>) -> (r: Vec<Fp<P>>)
    ensures
        r@ == src@,
{
    let mut out: Vec<Fp<P>> = Vec::new();
    let mut k: usize = 0;
    while k < src.len()
        invariant
            k <= src.len(),
            out@ == src@.take(k as int),
        decreases src.len() - k,
    {
        out.push(src[k]);
        assert(src@.take(k as int).push(src@[k as int]) =~= src@.take(k + 1));
        k = k + 1;
    }
    assert(src@.take(k as int) =~= src@);
    out
}

} // verus!
