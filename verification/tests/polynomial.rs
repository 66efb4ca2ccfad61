use ark_poly::multivariate::SparseTerm;
use ark_poly::multivariate::Term;
use ark_serialize::CanonicalDeserialize;
use pazk::error::Error;
use pazk::polynomial::assign_value;
use pazk::polynomial::assign_values;
use pazk::polynomial::cast_mv_to_uv_polynomial;
use pazk::polynomial::reduced_to_univariate;
use pazk::polynomial::MultivariatePolynomial;
use pazk::univariate::UnivariatePolynomial;

type Poly17 = MultivariatePolynomial<17>;

fn from_terms(num_vars: usize, terms: Vec<(u64, Vec<(usize, usize)>)>) -> Poly17 {
    let terms = terms
        .into_iter()
        .map(|(coeff, factors)| (coeff, SparseTerm::new(factors)))
        .collect();
    MultivariatePolynomial::from_coefficients_vec(num_vars, terms).unwrap()
}

/// examples and solutions taken from SumCheck example in
/// Thaler's Chp. 4
fn setup() -> Poly17 {
    // Create a multivariate polynomial in 3 variables, with 3 terms:
    // 2*x_0^3 + x_0*x_2 + x_1*x_2
    MultivariatePolynomial::from_coefficients_vec(
        3,
        vec![
            (2, SparseTerm::new(vec![(0, 3)])),
            (1, SparseTerm::new(vec![(0, 1), (2, 1)])),
            (1, SparseTerm::new(vec![(1, 1), (2, 1)])),
        ],
    )
    .unwrap()
}

#[test]
fn test_assign_first_variable() {
    let poly = setup();
    let should = MultivariatePolynomial::from_coefficients_vec(
        3,
        vec![
            (2, SparseTerm::new(vec![])),
            (1, SparseTerm::new(vec![(2, 1)])),
            (1, SparseTerm::new(vec![(1, 1), (2, 1)])),
        ],
    )
    .unwrap();
    let poly_reduced = assign_value(poly, 0, 1).unwrap();
    assert_eq!(should, poly_reduced);
}

#[test]
fn test_assign_last_variable() {
    let poly = setup();
    let should = MultivariatePolynomial::from_coefficients_vec(
        2,
        vec![
            (2, SparseTerm::new(vec![(0, 3)])),
            (1, SparseTerm::new(vec![(0, 1)])),
            (1, SparseTerm::new(vec![(1, 1)])),
        ],
    )
    .unwrap();
    let poly_reduced = assign_value(poly, 2, 1).unwrap();
    assert_eq!(should, poly_reduced);
}

#[test]
fn test_assign_multiple_variables() {
    // 2*x_0^3 + x_0*x_2 + x_1*x_2
    let poly = setup();
    let should =
        MultivariatePolynomial::from_coefficients_vec(3, vec![(4, SparseTerm::new(vec![]))])
            .unwrap();
    let values = vec![(0, 1), (1, 1), (2, 1)];
    let poly_reduced = assign_values(&poly, values).unwrap();
    assert_eq!(should, poly_reduced);
}

#[test]
fn assign_value_multiplies_by_the_bound_power() {
    // x_0 := 2 turns 2*x_0^3 into 16 and x_0*x_2 into 2*x_2
    let poly_reduced = assign_value(setup(), 0, 2).unwrap();
    let should = from_terms(3, vec![(16, vec![]), (2, vec![(2, 1)]), (1, vec![(1, 1), (2, 1)])]);
    assert_eq!(should, poly_reduced);
    assert_eq!(poly_reduced.num_vars(), 3);
    // a different coefficient is a different polynomial
    let other = from_terms(3, vec![(15, vec![]), (2, vec![(2, 1)]), (1, vec![(1, 1), (2, 1)])]);
    assert_ne!(other, poly_reduced);
}

#[test]
fn assign_value_agrees_with_evaluation() {
    let poly = setup();
    let bound = assign_value(poly.clone(), 1, 3).unwrap();
    for x0 in 0..17u64 {
        for x2 in 0..17u64 {
            assert_eq!(bound.evaluate(&vec![x0, 9, x2]), poly.evaluate(&vec![x0, 3, x2]));
        }
    }
}

#[test]
fn assign_value_reads_the_value_modulo_the_field() {
    let a = assign_value(setup(), 0, 2).unwrap();
    let b = assign_value(setup(), 0, 2 + 17).unwrap();
    assert_eq!(a, b);
}

#[test]
fn assign_value_rejects_an_undeclared_variable() {
    assert_eq!(assign_value(setup(), 3, 1).unwrap_err(), Error::InvalidVariable);
    assert_eq!(assign_values(&setup(), vec![(0, 1), (7, 1)]).unwrap_err(), Error::InvalidVariable);
    assert_eq!(
        reduced_to_univariate(&setup(), vec![(3, 0)]).unwrap_err(),
        Error::InvalidVariable
    );
}

#[test]
fn assign_values_of_nothing_is_the_polynomial() {
    assert_eq!(assign_values(&setup(), vec![]).unwrap(), setup());
}

#[test]
fn evaluate_gives_the_residue_of_the_value() {
    // 2*8 + 2*5 + 3*5 = 41 = 7 mod 17
    assert_eq!(setup().evaluate(&vec![2, 3, 5]), 7);
    // coordinates are read modulo 17
    assert_eq!(setup().evaluate(&vec![19, 20, 22]), 7);
    assert_eq!(Poly17::zero(3).evaluate(&vec![1, 2, 3]), 0);
}

#[test]
fn equality_is_that_of_formal_sums() {
    // order, splitting of a coefficient and zero terms do not matter
    let a = from_terms(2, vec![(3, vec![(0, 1)]), (5, vec![(1, 2)])]);
    let b = from_terms(4, vec![(5, vec![(1, 2)]), (1, vec![(0, 1)]), (2, vec![(0, 1)])]);
    let c = from_terms(2, vec![(3, vec![(0, 1)]), (5, vec![(1, 2)]), (17, vec![(0, 1), (1, 1)])]);
    assert_eq!(a, b);
    assert_eq!(a, c);
    let d = from_terms(2, vec![(3, vec![(0, 1)]), (5, vec![(1, 3)])]);
    assert_ne!(a, d);
    assert_ne!(a, Poly17::zero(2));
}

#[test]
fn from_coefficients_vec_reduces_coefficients() {
    let a = from_terms(1, vec![(20, vec![(0, 1)])]);
    let b = from_terms(1, vec![(3, vec![(0, 1)])]);
    assert_eq!(a, b);
    assert_eq!(a.evaluate(&vec![2]), 6);
}

#[test]
fn from_coefficients_vec_rejects_bad_input() {
    let term = SparseTerm::new(vec![(0, 1)]);
    assert_eq!(
        MultivariatePolynomial::<1>::from_coefficients_vec(1, vec![(0, term.clone())]).unwrap_err(),
        Error::InvalidModulus
    );
    assert_eq!(
        MultivariatePolynomial::<0>::from_coefficients_vec(1, vec![]).unwrap_err(),
        Error::InvalidModulus
    );
    assert_eq!(
        Poly17::from_coefficients_vec(0, vec![(1, term)]).unwrap_err(),
        Error::InvalidVariable
    );
    // a term that was not built by `SparseTerm::new`: one factor, x_0 to the power zero
    let mut bytes = vec![0u8; 24];
    bytes[0] = 1;
    let raw = SparseTerm::deserialize_compressed(&bytes[..]).unwrap();
    assert_eq!(&raw[..], &[(0usize, 0usize)][..]);
    assert_eq!(Poly17::from_coefficients_vec(3, vec![(1, raw)]).unwrap_err(), Error::MalformedTerm);
}

#[test]
fn reduced_to_univariate_leaves_the_free_variable() {
    // x_1 := 1, x_2 := 0 leaves 2*x_0^3
    let reduced = reduced_to_univariate(&setup(), vec![(1, 1), (2, 0)]).unwrap();
    assert_eq!(reduced, from_terms(3, vec![(2, vec![(0, 3)])]));
    let cast = cast_mv_to_uv_polynomial(reduced).unwrap();
    assert_eq!(cast, UnivariatePolynomial::<17>::from_coefficients_vec(vec![(3, 2)]).unwrap());
}

#[test]
fn cast_collects_the_powers_of_the_free_variable() {
    // 3*x_1^2 + 5 + 16*x_1^2 + 4*x_1 = 2*x_1^2 + 4*x_1 + 5
    let poly = from_terms(
        3,
        vec![(3, vec![(1, 2)]), (5, vec![]), (16, vec![(1, 2)]), (4, vec![(1, 1)])],
    );
    let cast = cast_mv_to_uv_polynomial(poly).unwrap();
    assert_eq!(cast.coefficients(), vec![(0, 5), (1, 4), (2, 2)]);
    // coefficients that cancel leave no entry
    let cancels = from_terms(2, vec![(3, vec![(0, 1)]), (14, vec![(0, 1)])]);
    assert_eq!(cast_mv_to_uv_polynomial(cancels).unwrap().coefficients(), vec![]);
}

#[test]
fn cast_rejects_two_variables() {
    assert_eq!(cast_mv_to_uv_polynomial(setup()).unwrap_err(), Error::NotUnivariate);
    let two = from_terms(2, vec![(1, vec![(0, 1)]), (1, vec![(1, 1)])]);
    assert_eq!(cast_mv_to_uv_polynomial(two).unwrap_err(), Error::NotUnivariate);
}

#[test]
fn univariate_is_kept_canonical() {
    let a = UnivariatePolynomial::<17>::from_coefficients_vec(vec![(3, 8), (1, 2), (0, 1)]).unwrap();
    assert_eq!(a.coefficients(), vec![(0, 1), (1, 2), (3, 8)]);
    let b = UnivariatePolynomial::<17>::from_coefficients_vec(vec![
        (1, 19),
        (0, 1),
        (3, 4),
        (2, 17),
        (3, 4),
        (5, 9),
        (5, 8),
    ])
    .unwrap();
    assert_eq!(a, b);
    // 8*8 + 2*2 + 1 = 69 = 1 mod 17
    assert_eq!(a.evaluate(2), 1);
    assert_eq!(a.evaluate(0), 1);
    assert_eq!(a.evaluate(1), 11);
    assert_eq!(a.commitment(), 12);
    assert_eq!(
        UnivariatePolynomial::<1>::from_coefficients_vec(vec![]).unwrap_err(),
        Error::InvalidModulus
    );
}

#[test]
fn univariate_add_term_inserts_merges_and_removes() {
    let mut p = UnivariatePolynomial::<17>::zero();
    p.add_term(2, 5);
    p.add_term(0, 3);
    p.add_term(2, 4);
    assert_eq!(p.coefficients(), vec![(0, 3), (2, 9)]);
    p.add_term(2, 8);
    assert_eq!(p.coefficients(), vec![(0, 3)]);
    p.add_term(1, 34);
    assert_eq!(p.coefficients(), vec![(0, 3)]);
}

#[test]
fn bind_leaves_the_polynomial_and_its_dimension() {
    let poly = setup();
    let bound = poly.bind(2, 4);
    // 2*x_0^3 + 4*x_0 + 4*x_1
    assert_eq!(bound, from_terms(3, vec![(2, vec![(0, 3)]), (4, vec![(0, 1)]), (4, vec![(1, 1)])]));
    assert_eq!(bound.num_vars(), 3);
    assert_eq!(poly, setup());
    // a variable that no term names changes nothing
    assert_eq!(bound.bind(2, 9), bound);
}

#[test]
fn accumulate_adds_terms_and_widens() {
    let mut sum = Poly17::zero(0);
    sum.accumulate(from_terms(2, vec![(3, vec![(0, 1)])]));
    sum.accumulate(from_terms(1, vec![(16, vec![(0, 1)]), (2, vec![])]));
    assert_eq!(sum.num_vars(), 2);
    assert_eq!(sum.terms().len(), 3);
    assert_eq!(sum, from_terms(2, vec![(2, vec![(0, 1)]), (2, vec![])]));
    assert_eq!(sum.evaluate(&vec![5, 0]), 12);
}

#[test]
fn terms_are_kept_as_given() {
    let poly = from_terms(3, vec![(21, vec![(2, 1), (0, 1)]), (1, vec![(1, 2), (1, 1)])]);
    let terms = poly.terms();
    assert_eq!(terms.len(), 2);
    assert_eq!(terms[0].0, 4);
    assert_eq!(&terms[0].1[..], &[(0usize, 1usize), (2, 1)][..]);
    assert_eq!(terms[1].0, 1);
    assert_eq!(&terms[1].1[..], &[(1usize, 3usize)][..]);
}

#[test]
fn bindings_of_distinct_variables_can_be_made_in_any_order() {
    let poly = from_terms(
        4,
        vec![
            (3, vec![(0, 2), (1, 1), (3, 1)]),
            (5, vec![(1, 3), (2, 2)]),
            (7, vec![(0, 1), (2, 1), (3, 4)]),
            (11, vec![]),
        ],
    );
    let values = vec![(0usize, 5u64), (2, 9), (3, 14)];
    let should = assign_values(&poly, values.clone()).unwrap();
    let orders = [[0, 1, 2], [0, 2, 1], [1, 0, 2], [1, 2, 0], [2, 0, 1], [2, 1, 0]];
    for order in orders {
        let mixed: Vec<(usize, u64)> = order.iter().map(|&i| values[i]).collect();
        let bound = assign_values(&poly, mixed).unwrap();
        assert_eq!(bound.terms().len(), should.terms().len());
        for (left, right) in bound.terms().iter().zip(should.terms()) {
            assert_eq!(left.0, right.0);
            assert_eq!(&left.1[..], &right.1[..]);
        }
    }
}

#[test]
fn different_polynomials_agree_at_few_points() {
    // over the field with 17 elements two cubics agree at three points at most
    let cubics = [
        vec![(3usize, 8u64), (1, 2), (0, 1)],
        vec![(3, 8), (1, 2), (0, 2)],
        vec![(3, 7), (2, 5), (0, 1)],
        vec![(2, 1), (0, 16)],
        vec![(3, 1), (1, 16)],
        vec![],
    ];
    for left in &cubics {
        for right in &cubics {
            let a = UnivariatePolynomial::<17>::from_coefficients_vec(left.clone()).unwrap();
            let b = UnivariatePolynomial::<17>::from_coefficients_vec(right.clone()).unwrap();
            let agreements = (0..17u64).filter(|&t| a.evaluate(t) == b.evaluate(t)).count();
            if a == b {
                assert_eq!(agreements, 17);
            } else {
                assert!(agreements <= 3);
            }
        }
    }
    // x^3 - x = x*(x - 1)*(x + 1) meets the zero polynomial at exactly three points
    let a = UnivariatePolynomial::<17>::from_coefficients_vec(vec![(3, 1), (1, 16)]).unwrap();
    assert_eq!((0..17u64).filter(|&t| a.evaluate(t) == 0).count(), 3);
}
