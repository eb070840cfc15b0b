use sumcheck::field::Fp;
use sumcheck::polynomial::term::SparseTerm;
use sumcheck::polynomial::SparsePolynomial;

type Fq = Fp<71>;

#[test]
fn field_arithmetic() {
    assert_eq!(Fq::from(71), Fq::zero());
    assert_eq!(Fq::from(72), Fq::one());
    assert_eq!(Fq::from(70).add(Fq::from(3)), Fq::from(2));
    assert_eq!(Fq::from(3).sub(Fq::from(70)), Fq::from(4));
    assert_eq!(Fq::from(3).neg(), Fq::from(68));
    assert_eq!(Fq::zero().neg(), Fq::zero());
    assert_eq!(Fq::from(70).mul(Fq::from(70)), Fq::one());
    assert_eq!(Fq::from(2).pow(10), Fq::from(30));
    assert_eq!(Fq::from(2).pow(0), Fq::one());
    assert_eq!(Fq::from(7).value(), 7);
    assert!(Fq::zero().is_zero());
    assert!(!Fq::one().is_zero());
}

#[test]
fn field_inverse_and_division() {
    assert_eq!(Fq::zero().inverse(), None);
    for x in 1..71u64 {
        let inv = Fq::from(x).inverse().unwrap();
        assert_eq!(Fq::from(x).mul(inv), Fq::one());
    }
    assert_eq!(Fq::from(2).inverse(), Some(Fq::from(36)));
    assert_eq!(Fq::from(6).div(Fq::from(3)), Fq::from(2));
    assert_eq!(Fq::from(1).div(Fq::from(2)), Fq::from(36));
    // a modulus near the top of the machine's range
    type Big = Fp<18446744073709551557>;
    let x = Big::from(18446744073709551556);
    assert_eq!(x.mul(x), Big::one());
    assert_eq!(x.inverse(), Some(x));
    assert_eq!(x.add(x), Big::from(18446744073709551555));
}

#[test]
fn term_is_put_in_normal_form() {
    let term = SparseTerm::new(vec![(2, 1), (1, 2), (1, 3), (3, 0)]);
    assert_eq!(term.factors(), &vec![(1, 5), (2, 1)]);
    assert_eq!(term.degree(), 6);
    assert!(!term.is_constant());
    assert!(SparseTerm::new(vec![(4, 0)]).is_constant());
    assert!(term.same(&SparseTerm::new(vec![(1, 5), (2, 1)])));
    assert!(!term.same(&SparseTerm::new(vec![(1, 5)])));
    assert!(SparseTerm::new(vec![(1, 5)]).precedes(&term));
    assert!(!term.precedes(&term));
    assert!(term.precedes(&SparseTerm::new(vec![(1, 6)])));
    let at: Fq = term.evaluate(&vec![Fq::from(9), Fq::from(2), Fq::from(3)]);
    assert_eq!(at, Fq::from(96));
}

#[test]
fn polynomial_collects_its_terms() {
    let x = || SparseTerm::new(vec![(0, 1)]);
    let y = || SparseTerm::new(vec![(1, 1)]);
    let p: SparsePolynomial<71> = SparsePolynomial::from_coefficients_vec(
        2,
        vec![
            (Fq::from(3), y()),
            (Fq::from(70), x()),
            (Fq::from(0), SparseTerm::new(vec![(0, 9)])),
            (Fq::from(4), y()),
            (Fq::from(1), x()),
        ],
    );
    assert_eq!(
        p,
        SparsePolynomial::from_coefficients_vec(2, vec![(Fq::from(7), y())])
    );
    assert_eq!(p.terms().len(), 1);
    assert_eq!(p.degree(), 1);
    assert_eq!(p.num_vars(), 2);
    assert_eq!(p.evaluate(&vec![Fq::from(5), Fq::from(2)]), Fq::from(14));
    assert_eq!(SparsePolynomial::<71>::zero(2).degree(), 0);
    assert_eq!(
        SparsePolynomial::<71>::zero(2).evaluate(&vec![Fq::from(5), Fq::from(2)]),
        Fq::zero()
    );
}

#[test]
fn polynomial_sum() {
    let x = || SparseTerm::new(vec![(0, 1)]);
    let xy = || SparseTerm::new(vec![(0, 1), (1, 1)]);
    let a: SparsePolynomial<71> =
        SparsePolynomial::from_coefficients_vec(1, vec![(Fq::from(70), x()), (Fq::from(4), SparseTerm::new(vec![]))]);
    let b: SparsePolynomial<71> =
        SparsePolynomial::from_coefficients_vec(2, vec![(Fq::from(1), x()), (Fq::from(2), xy())]);
    let sum = a.add(&b);
    assert_eq!(sum.num_vars(), 2);
    assert_eq!(
        sum,
        SparsePolynomial::from_coefficients_vec(
            2,
            vec![(Fq::from(2), xy()), (Fq::from(4), SparseTerm::new(vec![]))]
        )
    );
    let point = vec![Fq::from(3), Fq::from(5)];
    assert_eq!(sum.evaluate(&point), a.evaluate(&point).add(b.evaluate(&point)));
    assert_eq!(sum.evaluate(&point), Fq::from(34));
}

#[test]
fn partial_evaluation_renumbers_the_free_variables() {
    // 2 x0^3 + x0 x2 + x1 x2 at (x0, 4, x2) is 2 y0^3 + y0 y1 + 4 y1
    let g: SparsePolynomial<71> = SparsePolynomial::from_coefficients_slice(
        3,
        &[
            (Fq::from(2), SparseTerm::new(vec![(0, 3)])),
            (Fq::from(1), SparseTerm::new(vec![(0, 1), (2, 1)])),
            (Fq::from(1), SparseTerm::new(vec![(1, 1), (2, 1)])),
        ],
    );
    let partial = g.partial_evaluate(&vec![None, Some(Fq::from(4)), None]);
    assert_eq!(partial.num_vars(), 2);
    assert_eq!(
        partial,
        SparsePolynomial::from_coefficients_slice(
            2,
            &[
                (Fq::from(2), SparseTerm::new(vec![(0, 3)])),
                (Fq::from(1), SparseTerm::new(vec![(0, 1), (1, 1)])),
                (Fq::from(4), SparseTerm::new(vec![(1, 1)])),
            ],
        )
    );
    assert_eq!(
        partial.evaluate(&vec![Fq::from(2), Fq::from(3)]),
        g.evaluate(&vec![Fq::from(2), Fq::from(4), Fq::from(3)])
    );
    // every slot bound: a constant
    let bound = g.partial_evaluate(&vec![Some(Fq::from(2)), Some(Fq::from(4)), Some(Fq::from(3))]);
    assert_eq!(bound.num_vars(), 0);
    assert_eq!(bound.evaluate(&vec![]), Fq::from(34));
    // no slot bound: the polynomial itself
    assert_eq!(g.partial_evaluate(&vec![None, None, None]), g);
}

#[test]
fn power_by_squaring() {
    // 7 generates the multiplicative group of the field of 71 elements
    assert_eq!(Fq::from(7).pow(70), Fq::one());
    assert_ne!(Fq::from(7).pow(35), Fq::one());
    assert_ne!(Fq::from(7).pow(14), Fq::one());
    assert_ne!(Fq::from(7).pow(10), Fq::one());
    assert_eq!(Fq::from(7).pow(1), Fq::from(7));
    assert_eq!(Fq::from(7).pow(2), Fq::from(49));
    assert_eq!(Fq::from(7).pow(3), Fq::from(59));
    assert_eq!(Fq::zero().pow(0), Fq::one());
    assert_eq!(Fq::zero().pow(5), Fq::zero());
    // 2^64 - 1 = 15 modulo 70, and 7^15 = 20 modulo 71
    assert_eq!(Fq::from(7).pow(usize::MAX), Fq::from(7).pow((usize::MAX % 70) as usize));
}

#[test]
fn primality_by_trial_division() {
    let primes: Vec<u64> = (0..60).filter(|p| sumcheck::prime::is_prime_u64(*p)).collect();
    assert_eq!(
        primes,
        vec![2, 3, 5, 7, 11, 13, 17, 19, 23, 29, 31, 37, 41, 43, 47, 53, 59]
    );
    assert!(sumcheck::prime::is_prime_u64(sumcheck::sumcheck::FqConfig::MODULUS));
    assert!(sumcheck::prime::is_prime_u64(1000003));
    // the square of a prime, and a product of two primes
    assert!(!sumcheck::prime::is_prime_u64(1000003 * 1000003));
    assert!(!sumcheck::prime::is_prime_u64(1000003 * 999983));
    assert!(!sumcheck::prime::is_prime_u64(4294967296));
}

#[test]
fn normal_form_does_not_depend_on_the_order_of_the_terms() {
    let terms = |order: &[usize]| -> Vec<(Fq, SparseTerm)> {
        let all = [
            (Fq::from(3), SparseTerm::new(vec![(2, 1), (0, 2)])),
            (Fq::from(5), SparseTerm::new(vec![])),
            (Fq::from(9), SparseTerm::new(vec![(1, 4)])),
            (Fq::from(8), SparseTerm::new(vec![(0, 2), (2, 1)])),
            (Fq::from(62), SparseTerm::new(vec![(1, 2), (1, 2)])),
            (Fq::from(1), SparseTerm::new(vec![(0, 1)])),
        ];
        order.iter().map(|k| all[*k].clone()).collect()
    };
    let a: SparsePolynomial<71> = SparsePolynomial::from_coefficients_vec(3, terms(&[0, 1, 2, 3, 4, 5]));
    let b: SparsePolynomial<71> = SparsePolynomial::from_coefficients_vec(3, terms(&[5, 4, 3, 2, 1, 0]));
    let c: SparsePolynomial<71> = SparsePolynomial::from_coefficients_vec(3, terms(&[2, 0, 4, 5, 3, 1]));
    assert_eq!(a, b);
    assert_eq!(a, c);
    // 9 x1^4 and 62 x1^4 cancel
    assert_eq!(a.terms().len(), 3);
    assert_eq!(a.degree(), 3);
    let monomials: Vec<Vec<(usize, usize)>> =
        a.terms().iter().map(|(_, t)| t.factors().clone()).collect();
    assert_eq!(monomials, vec![vec![], vec![(0, 1)], vec![(0, 2), (2, 1)]]);
    let coefficients: Vec<u64> = a.terms().iter().map(|(c, _)| c.value()).collect();
    assert_eq!(coefficients, vec![5, 1, 11]);
}
