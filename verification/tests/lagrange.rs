use sumcheck::field::Fp;
use sumcheck::lagrange::multivariate::{MulitvarInterpolation, MultivarBasis};
use sumcheck::lagrange::univariate::{UnivarBasis, UnivarInterpolation};
use sumcheck::lagrange::LagrangeError;

type Fq11 = Fp<11>;
type Fq5 = Fp<5>;

fn univar_basis_over_four_points() {
    let l_0 = UnivarBasis::<11>::new(4, 0).unwrap();
    let l_1 = UnivarBasis::<11>::new(4, 1).unwrap();
    let l_2 = UnivarBasis::<11>::new(4, 2).unwrap();
    let l_3 = UnivarBasis::<11>::new(4, 3).unwrap();

    assert_eq!(l_0.evaluate(0), Ok(Fq11::from(1)));
    assert_eq!(l_0.evaluate(1), Ok(Fq11::from(0)));
    assert_eq!(l_0.evaluate(2), Ok(Fq11::from(0)));
    assert_eq!(l_0.evaluate(3), Ok(Fq11::from(0)));

    assert_eq!(l_1.evaluate(0), Ok(Fq11::from(0)));
    assert_eq!(l_1.evaluate(1), Ok(Fq11::from(1)));
    assert_eq!(l_1.evaluate(2), Ok(Fq11::from(0)));
    assert_eq!(l_1.evaluate(3), Ok(Fq11::from(0)));

    assert_eq!(l_2.evaluate(0), Ok(Fq11::from(0)));
    assert_eq!(l_2.evaluate(1), Ok(Fq11::from(0)));
    assert_eq!(l_2.evaluate(2), Ok(Fq11::from(1)));
    assert_eq!(l_2.evaluate(3), Ok(Fq11::from(0)));

    assert_eq!(l_3.evaluate(0), Ok(Fq11::from(0)));
    assert_eq!(l_3.evaluate(1), Ok(Fq11::from(0)));
    assert_eq!(l_3.evaluate(2), Ok(Fq11::from(0)));
    assert_eq!(l_3.evaluate(3), Ok(Fq11::from(1)));
}

#[test]
fn univariate_lagrange_univar_basis_works() {
    univar_basis_over_four_points();
}

#[test]
fn lib_lagrange_univar_basis_works() {
    univar_basis_over_four_points();
}

fn univar_interpolation_of_three_values() {
    let a = vec![Fq11::from(2), Fq11::from(1), Fq11::from(1)];
    let b = vec![Fq11::from(2), Fq11::from(1), Fq11::from(0)];
    let interpolation_a = UnivarInterpolation::new(a);
    let interpolation_b = UnivarInterpolation::new(b);

    assert_eq!(interpolation_a.interpolate(0), Ok(Fq11::from(2)));
    assert_eq!(interpolation_a.interpolate(1), Ok(Fq11::from(1)));
    assert_eq!(interpolation_a.interpolate(2), Ok(Fq11::from(1)));
    assert_eq!(interpolation_a.interpolate(3), Ok(Fq11::from(2)));
    assert_eq!(interpolation_a.interpolate(4), Ok(Fq11::from(4)));
    assert_eq!(interpolation_a.interpolate(5), Ok(Fq11::from(7)));

    assert_eq!(interpolation_b.interpolate(0), Ok(Fq11::from(2)));
    assert_eq!(interpolation_b.interpolate(1), Ok(Fq11::from(1)));
    assert_eq!(interpolation_b.interpolate(2), Ok(Fq11::from(0)));
    assert_eq!(interpolation_b.interpolate(3), Ok(Fq11::from(10)));
    assert_eq!(interpolation_b.interpolate(4), Ok(Fq11::from(9)));
    assert_eq!(interpolation_b.interpolate(5), Ok(Fq11::from(8)));
}

#[test]
fn univariate_lagrange_univar_works() {
    univar_interpolation_of_three_values();
}

#[test]
fn lib_lagrange_univar_works() {
    univar_interpolation_of_three_values();
}

fn multivar_basis_of_origin() {
    let two_bit_lagrange = MultivarBasis::new(vec![Fq5::zero(), Fq5::zero()]);
    assert_eq!(
        two_bit_lagrange.evaluate(&vec![Fq5::zero(), Fq5::zero()]),
        Fq5::one()
    );
    assert_eq!(
        two_bit_lagrange.evaluate(&vec![Fq5::zero(), Fq5::one()]),
        Fq5::zero()
    );
    assert_eq!(
        two_bit_lagrange.evaluate(&vec![Fq5::one(), Fq5::zero()]),
        Fq5::zero()
    );
    assert_eq!(
        two_bit_lagrange.evaluate(&vec![Fq5::one(), Fq5::one()]),
        Fq5::zero()
    );
}

#[test]
fn multivariate_lagrange_multivar_works() {
    multivar_basis_of_origin();
}

#[test]
fn lib_lagrange_multivar_works() {
    multivar_basis_of_origin();
}

fn example_fn(x: &Vec<u8>) -> Fq5 {
    match x.as_slice() {
        [0, 0] => Fq5::from(1),
        [0, 1] => Fq5::from(2),
        [1, 0] => Fq5::from(1),
        [1, 1] => Fq5::from(4),
        _ => panic!("invalid input"),
    }
}

#[test]
fn multivariate_multilineal_extension() {
    let interpolation = MulitvarInterpolation::<5>::new(2, example_fn);
    assert_eq!(
        interpolation.interpolate(&vec![Fq5::zero(), Fq5::zero()]),
        Fq5::one()
    );
    assert_eq!(
        interpolation.interpolate(&vec![Fq5::zero(), Fq5::one()]),
        Fq5::from(2)
    );
    assert_eq!(
        interpolation.interpolate(&vec![Fq5::one(), Fq5::zero()]),
        Fq5::one()
    );
    assert_eq!(
        interpolation.interpolate(&vec![Fq5::one(), Fq5::one()]),
        Fq5::from(4)
    );
    assert_eq!(
        interpolation.interpolate(&vec![Fq5::from(3), Fq5::from(4)]),
        Fq5::from(4)
    );
    assert_eq!(
        interpolation.interpolate(&vec![Fq5::from(4), Fq5::from(4)]),
        Fq5::from(2)
    );
}

#[test]
fn lib_multilineal_extension() {
    // The extension written out by hand: the sum over the four points of the
    // square of the basis polynomial of the point times the value there.
    let points: [[u8; 2]; 4] = [[0, 0], [0, 1], [1, 0], [1, 1]];
    let x = vec![Fq5::from(3), Fq5::from(4)];
    let mut accumulator = Fq5::zero();
    for w in points {
        let two_bit_lagrange = MultivarBasis::<5>::from(w.to_vec());
        let term = two_bit_lagrange.evaluate(&x).mul(example_fn(&w.to_vec()));
        accumulator = accumulator.add(term);
    }
    let interpolation = MulitvarInterpolation::<5>::new(2, example_fn);
    assert_eq!(interpolation.interpolate(&x), accumulator);
}

#[test]
fn univar_basis_index_must_lie_in_domain() {
    assert_eq!(
        UnivarBasis::<11>::new(4, 4).err(),
        Some(LagrangeError::InvalidDomainIndex)
    );
    assert_eq!(
        UnivarBasis::<11>::new(4, 9).err(),
        Some(LagrangeError::InvalidDomainIndex)
    );
    assert_eq!(
        UnivarBasis::<11>::new(0, 0).err(),
        Some(LagrangeError::InvalidDomainIndex)
    );
    assert!(UnivarBasis::<11>::new(4, 3).is_ok());
}

#[test]
fn univar_basis_over_too_small_a_field_is_degenerate() {
    // 0 and 5 are the same element modulo 5
    let basis = UnivarBasis::<5>::new(6, 0).unwrap();
    assert_eq!(basis.evaluate(1), Err(LagrangeError::DegenerateBasis));
    // the whole field as the domain is still fine
    let basis = UnivarBasis::<5>::new(5, 0).unwrap();
    assert_eq!(basis.evaluate(0), Ok(Fq5::one()));
    assert_eq!(basis.evaluate(3), Ok(Fq5::zero()));
    let values = vec![Fq5::from(1); 6];
    assert_eq!(
        UnivarInterpolation::new(values).interpolate(2),
        Err(LagrangeError::DegenerateBasis)
    );
}

#[test]
fn univar_basis_formula_outside_the_domain() {
    // l_0 over {0, 1, 2} at 4: (4-1)/(0-1) * (4-2)/(0-2) = 3 modulo 11
    let basis = UnivarBasis::<11>::new(3, 0).unwrap();
    assert_eq!(basis.evaluate(4), Ok(Fq11::from(3)));
}

#[test]
fn univar_interpolation_returns_the_values_on_the_domain() {
    let values: Vec<Fq11> = vec![7, 0, 10, 3, 3, 9].into_iter().map(Fq11::from).collect();
    let interpolation = UnivarInterpolation::new(values.clone());
    for (k, value) in values.iter().enumerate() {
        assert_eq!(interpolation.interpolate(k), Ok(*value));
    }
    let empty = UnivarInterpolation::<11>::new(vec![]);
    assert_eq!(empty.interpolate(3), Ok(Fq11::zero()));
}

#[test]
fn multivar_basis_is_one_at_its_point_only() {
    for w in 0..8u8 {
        let w_bits = vec![(w >> 2) & 1, (w >> 1) & 1, w & 1];
        let basis = MultivarBasis::<5>::from(w_bits.clone());
        for x in 0..8u8 {
            let x_bits: Vec<Fq5> = [(x >> 2) & 1, (x >> 1) & 1, x & 1]
                .iter()
                .map(|b| Fq5::from(*b as u64))
                .collect();
            let expected = if w == x { Fq5::one() } else { Fq5::zero() };
            assert_eq!(basis.evaluate(&x_bits), expected);
        }
    }
}

#[test]
fn multivar_basis_formula_off_the_hypercube() {
    // w = (1, 0), x = (3, 4): (1*3 + 0*(-2)) * (0*4 + 1*(1-4)) = 3 * (-3) = 1 modulo 5
    let basis = MultivarBasis::new(vec![Fq5::one(), Fq5::zero()]);
    assert_eq!(basis.evaluate(&vec![Fq5::from(3), Fq5::from(4)]), Fq5::from(1));
    // no coordinate at all: the empty product
    let empty = MultivarBasis::<5>::new(vec![]);
    assert_eq!(empty.evaluate(&vec![]), Fq5::one());
}

fn position(x: &Vec<u8>) -> Fp<71> {
    let mut index: u64 = 0;
    for bit in x {
        index = 2 * index + *bit as u64;
    }
    Fp::from(10 + index)
}

#[test]
fn extension_agrees_with_the_function_on_the_hypercube() {
    let interpolation = MulitvarInterpolation::<71>::new(3, position);
    for x in 0..8u8 {
        let bits = vec![(x >> 2) & 1, (x >> 1) & 1, x & 1];
        let point: Vec<Fp<71>> = bits.iter().map(|b| Fp::from(*b as u64)).collect();
        assert_eq!(interpolation.interpolate(&point), Fp::from(10 + x as u64));
    }
    let constant = MulitvarInterpolation::<71>::new(0, position);
    assert_eq!(constant.interpolate(&vec![]), Fp::from(10));
}
