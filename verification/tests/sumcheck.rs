use ark_std::rand::rngs::StdRng;
use ark_std::rand::SeedableRng;
use sumcheck::field::Fp;
use sumcheck::polynomial::term::SparseTerm;
use sumcheck::polynomial::SparsePolynomial;
use sumcheck::sumcheck::util::{get_claim, reduce_poly_to_univar_at_x};
use sumcheck::sumcheck::{Prover, ProverError, Status, Verifier, VerifyError};

type Fq = Fp<71>;

fn seeded_rng() -> StdRng {
    let seed = [
        1, 0, 0, 0, 23, 0, 0, 0, 200, 1, 0, 0, 210, 30, 0, 0, 0, 0, 0, 0, 0, 0, 0, 0, 0, 0, 0, 0,
        0, 0, 0, 0,
    ];
    StdRng::from_seed(seed)
}

fn sample_poly() -> SparsePolynomial<71> {
    SparsePolynomial::from_coefficients_slice(
        3,
        &[
            (Fq::from(2), SparseTerm::new(vec![(0, 3)])),
            (Fq::from(1), SparseTerm::new(vec![(0, 1), (2, 1)])),
            (Fq::from(1), SparseTerm::new(vec![(1, 1), (2, 1)])),
        ],
    )
}

#[test]
fn test_g() {
    let h: Fq = sample_poly().evaluate(&vec![Fq::zero(), Fq::zero(), Fq::zero()]);
    assert_eq!(h, Fq::zero());
    let h: Fq = sample_poly().evaluate(&vec![Fq::one(), Fq::zero(), Fq::zero()]);
    assert_eq!(h, Fq::from(2));
    let h: Fq = sample_poly().evaluate(&vec![Fq::one(), Fq::zero(), Fq::one()]);
    assert_eq!(h, Fq::from(3));
}

#[test]
fn test_multivar_reduction_at_0() {
    let g = sample_poly();
    assert_eq!(g.degree(), 3, "degree of g is not 3");

    let reduced_polynomial = reduce_poly_to_univar_at_x(&g, 0, &vec![]);

    let expected_poly: SparsePolynomial<71> = SparsePolynomial::from_coefficients_slice(
        1,
        &[
            (Fq::from(8), SparseTerm::new(vec![(0, 3)])),
            (Fq::from(2), SparseTerm::new(vec![(0, 1)])),
            (Fq::from(1), SparseTerm::new(vec![])),
        ],
    );

    assert_eq!(reduced_polynomial, expected_poly);
}

#[test]
fn test_multivar_reduction_at_1() {
    let g = sample_poly();
    assert_eq!(g.degree(), 3, "degree of g is not 3");

    let reduced_polynomial = reduce_poly_to_univar_at_x(&g, 1, &vec![Fq::from(2)]);

    let expected_poly: SparsePolynomial<71> = SparsePolynomial::from_coefficients_slice(
        2,
        &[
            (Fq::from(1), SparseTerm::new(vec![(1, 1)])),
            (Fq::from(34), SparseTerm::new(vec![])),
        ],
    );
    let rand_point = vec![Fq::from(2); 3];
    assert_eq!(
        reduced_polynomial.evaluate(&rand_point),
        expected_poly.evaluate(&rand_point)
    );
}

#[test]
fn test_multivar_reduction_at_2() {
    let g = sample_poly();
    assert_eq!(g.degree(), 3, "degree of g is not 3");

    let reduced_polynomial =
        reduce_poly_to_univar_at_x(&g, 2, &vec![Fq::from(2), Fq::from(3)]);

    let expected_poly: SparsePolynomial<71> = SparsePolynomial::from_coefficients_slice(
        3,
        &[
            (Fq::from(5), SparseTerm::new(vec![(2, 1)])),
            (Fq::from(16), SparseTerm::new(vec![])),
        ],
    );
    let rand_point = vec![Fq::from(2); 3];
    assert_eq!(
        reduced_polynomial.evaluate(&rand_point),
        expected_poly.evaluate(&rand_point)
    );
}

#[test]
fn test_protocol() {
    const V: usize = 3usize;
    let g = sample_poly();
    let rng = &mut seeded_rng();
    let claim = get_claim(&g);

    let mut prover: Prover<71> = Prover::init(sample_poly());
    let mut verifier: Verifier<71> = Verifier::init(g, claim);

    assert_eq!(claim, Fq::from(12));
    let mut r: Option<Fq> = None;

    let mut polynomials: Vec<SparsePolynomial<71>> = vec![];
    let mut challenges: Vec<Option<Fq>> = vec![];
    challenges.push(r);

    for _ in 0..V {
        let poly_i = prover.prove_round(r).unwrap();
        polynomials.push(poly_i.clone());
        r = Some(verifier.verify_round(poly_i, rng).unwrap());
        challenges.push(r);
    }
    assert_eq!(verifier.status(), Status::Accept);
    assert_eq!(polynomials.len(), V);
    assert!(challenges.iter().skip(1).all(|c| c.is_some()));
}

#[test]
fn mod_test_protocol() {
    // the gaps of the first test: challenges are field elements, and what
    // comes after the last round is a misuse on both sides
    let g = sample_poly();
    let rng = &mut seeded_rng();
    let mut prover: Prover<71> = Prover::init(sample_poly());
    let mut verifier: Verifier<71> = Verifier::init(g, Fq::from(12));
    let mut r: Option<Fq> = None;
    for round in 0..3 {
        assert_eq!(prover.round(), round);
        assert_eq!(verifier.round(), round);
        assert_eq!(verifier.status(), Status::Active);
        let message = prover.prove_round(r).unwrap();
        assert_eq!(message.num_vars(), 1);
        let challenge = verifier.verify_round(message, rng).unwrap();
        assert!(challenge.value() < 71);
        r = Some(challenge);
    }
    assert_eq!(verifier.status(), Status::Accept);
    assert_eq!(prover.prove_round(r).err(), Some(ProverError::ProtocolMisuse));
    assert_eq!(
        verifier.verify_round(SparsePolynomial::zero(1), rng),
        Err(VerifyError::ProtocolMisuse)
    );
    assert_eq!(verifier.status(), Status::Accept);
}

fn term(factors: &[(usize, usize)]) -> SparseTerm {
    SparseTerm::new(factors.to_vec())
}

fn univariate(coefficients: &[u64]) -> SparsePolynomial<71> {
    let terms: Vec<(Fq, SparseTerm)> = coefficients
        .iter()
        .enumerate()
        .map(|(power, c)| (Fq::from(*c), term(&[(0, power)])))
        .collect();
    SparsePolynomial::from_coefficients_vec(1, terms)
}

#[test]
fn round_zero_message_of_the_sample_polynomial() {
    let mut prover: Prover<71> = Prover::init(sample_poly());
    let h_0 = prover.prove_round(None).unwrap();
    // 8 X^3 + 2 X + 1
    assert_eq!(h_0, univariate(&[1, 2, 0, 8]));
    let at = |x: u64| h_0.evaluate(&vec![Fq::from(x)]);
    assert_eq!(at(0).add(at(1)), Fq::from(12));
    assert_eq!(at(2), Fq::from(69));
}

#[test]
fn tampered_first_message_is_a_claim_mismatch() {
    let rng = &mut seeded_rng();
    let mut verifier: Verifier<71> = Verifier::init(sample_poly(), Fq::from(12));
    // 8 X^3 + 2 X + 2 sums to 14 over 0 and 1
    let tampered = univariate(&[2, 2, 0, 8]);
    assert_eq!(
        verifier.verify_round(tampered, rng),
        Err(VerifyError::ClaimMismatch)
    );
    assert_eq!(verifier.status(), Status::Reject);
    assert_eq!(verifier.round(), 0);
    // rejected for good: the honest message is now a misuse
    assert_eq!(
        verifier.verify_round(univariate(&[1, 2, 0, 8]), rng),
        Err(VerifyError::ProtocolMisuse)
    );
    assert_eq!(verifier.status(), Status::Reject);
}

#[test]
fn wrong_claim_is_a_claim_mismatch() {
    let rng = &mut seeded_rng();
    let mut prover: Prover<71> = Prover::init(sample_poly());
    let mut verifier: Verifier<71> = Verifier::init(sample_poly(), Fq::from(13));
    let message = prover.prove_round(None).unwrap();
    assert_eq!(
        verifier.verify_round(message, rng),
        Err(VerifyError::ClaimMismatch)
    );
}

#[test]
fn message_in_two_variables_is_an_arity_mismatch() {
    let rng = &mut seeded_rng();
    let mut verifier: Verifier<71> = Verifier::init(sample_poly(), Fq::from(12));
    let message = SparsePolynomial::from_coefficients_vec(2, vec![(Fq::from(6), term(&[]))]);
    assert_eq!(
        verifier.verify_round(message, rng),
        Err(VerifyError::ArityMismatch)
    );
    assert_eq!(verifier.status(), Status::Reject);
}

#[test]
fn second_message_must_match_the_first_at_the_challenge() {
    let mut verifier: Verifier<71> = Verifier::init(sample_poly(), Fq::from(12));
    let first = univariate(&[1, 2, 0, 8]);
    assert_eq!(
        verifier.verify_round_with_challenge(first, Fq::from(2)),
        Ok(Fq::from(2))
    );
    // h_0(2) = 69, and X + 33 sums to 67 over 0 and 1
    assert_eq!(
        verifier.verify_round_with_challenge(univariate(&[33, 1]), Fq::from(3)),
        Err(VerifyError::ConsistencyMismatch)
    );
    assert_eq!(verifier.status(), Status::Reject);
    assert_eq!(verifier.round(), 1);
}

#[test]
fn last_message_must_match_the_oracle() {
    let mut verifier: Verifier<71> = Verifier::init(sample_poly(), Fq::from(12));
    assert!(verifier
        .verify_round_with_challenge(univariate(&[1, 2, 0, 8]), Fq::from(2))
        .is_ok());
    // h_1 = X + 34 sums to 69 = h_0(2)
    assert!(verifier
        .verify_round_with_challenge(univariate(&[34, 1]), Fq::from(3))
        .is_ok());
    // the honest h_2 is 5 X + 16, with h_2(0) + h_2(1) = 37 = h_1(3); the
    // message 37 X sums to 37 as well but is 43 at 6, not g(2, 3, 6) = 46
    assert_eq!(
        verifier.verify_round_with_challenge(univariate(&[0, 37]), Fq::from(6)),
        Err(VerifyError::FinalCheckMismatch)
    );
    assert_eq!(verifier.status(), Status::Reject);
    assert_eq!(verifier.round(), 2);
}

#[test]
fn honest_run_with_chosen_challenges_is_accepted() {
    let mut prover: Prover<71> = Prover::init(sample_poly());
    let mut verifier: Verifier<71> = Verifier::init(sample_poly(), Fq::from(12));
    let h_0 = prover.prove_round(None).unwrap();
    assert_eq!(verifier.verify_round_with_challenge(h_0, Fq::from(2)), Ok(Fq::from(2)));
    let h_1 = prover.prove_round(Some(Fq::from(2))).unwrap();
    assert_eq!(h_1, univariate(&[34, 1]));
    assert_eq!(verifier.verify_round_with_challenge(h_1, Fq::from(3)), Ok(Fq::from(3)));
    assert_eq!(verifier.status(), Status::Active);
    let h_2 = prover.prove_round(Some(Fq::from(3))).unwrap();
    assert_eq!(h_2, univariate(&[16, 5]));
    assert_eq!(verifier.verify_round_with_challenge(h_2, Fq::from(6)), Ok(Fq::from(6)));
    assert_eq!(verifier.status(), Status::Accept);
}

#[test]
fn prover_misuse() {
    let mut prover: Prover<71> = Prover::init(sample_poly());
    // a challenge before the first message
    assert_eq!(
        prover.prove_round(Some(Fq::from(1))).err(),
        Some(ProverError::ProtocolMisuse)
    );
    assert_eq!(prover.round(), 0);
    assert!(prover.prove_round(None).is_ok());
    // no challenge after it
    assert_eq!(prover.prove_round(None).err(), Some(ProverError::ProtocolMisuse));
    assert_eq!(prover.round(), 1);
    assert!(prover.prove_round(Some(Fq::from(5))).is_ok());
    assert!(prover.prove_round(Some(Fq::from(6))).is_ok());
    assert_eq!(prover.round(), 3);
    assert_eq!(
        prover.prove_round(Some(Fq::from(7))).err(),
        Some(ProverError::ProtocolMisuse)
    );
}

#[test]
fn polynomial_without_variables_has_no_round() {
    let rng = &mut seeded_rng();
    let constant = || SparsePolynomial::<71>::from_coefficients_vec(0, vec![(Fq::from(5), term(&[]))]);
    assert_eq!(get_claim(&constant()), Fq::from(5));
    let mut prover = Prover::init(constant());
    assert_eq!(prover.prove_round(None).err(), Some(ProverError::ProtocolMisuse));
    let mut verifier = Verifier::init(constant(), Fq::from(5));
    assert_eq!(
        verifier.verify_round(SparsePolynomial::zero(1), rng),
        Err(VerifyError::ProtocolMisuse)
    );
    assert_eq!(verifier.status(), Status::Active);
}

#[test]
fn single_variable_protocol_has_one_round() {
    // 3 X^2 + 4 sums to 11
    let g = || univariate(&[4, 0, 3]);
    assert_eq!(get_claim(&g()), Fq::from(11));
    let mut prover = Prover::init(g());
    let mut verifier = Verifier::init(g(), Fq::from(11));
    let message = prover.prove_round(None).unwrap();
    assert_eq!(message, g());
    assert_eq!(
        verifier.verify_round_with_challenge(message, Fq::from(9)),
        Ok(Fq::from(9))
    );
    assert_eq!(verifier.status(), Status::Accept);
}

#[test]
fn challenges_are_drawn_from_the_field() {
    let rng = &mut seeded_rng();
    let mut seen = std::collections::BTreeSet::new();
    for _ in 0..200 {
        let r: Fp<5> = Fp::rand(rng);
        assert!(r.value() < 5);
        seen.insert(r.value());
    }
    assert_eq!(seen.len(), 5);
}

#[test]
fn claim_over_ten_variables() {
    // x0 + .. + x9: each variable is 1 on half of the 1024 points
    let terms: Vec<(Fq, SparseTerm)> = (0..10).map(|v| (Fq::one(), term(&[(v, 1)]))).collect();
    let g: SparsePolynomial<71> = SparsePolynomial::from_coefficients_vec(10, terms);
    assert_eq!(get_claim(&g), Fq::from(5120));
    // with x0 free: 512 X + 9 * 256
    let message = reduce_poly_to_univar_at_x(&g, 0, &vec![]);
    assert_eq!(message, univariate(&[2304, 512]));
    // with x0 = 3 and x1 free: 256 (3 + X) + 8 * 128
    let message = reduce_poly_to_univar_at_x(&g, 1, &vec![Fq::from(3)]);
    assert_eq!(message, univariate(&[1792, 256]));
}
