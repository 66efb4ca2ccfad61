use ark_poly::multivariate::SparseTerm;
use ark_poly::multivariate::Term;
use pazk::error::Error;
use pazk::hypercube::number_to_domain;
use pazk::polynomial::MultivariatePolynomial;
use pazk::sumcheck::Prover;
use pazk::sumcheck::Verifier;
use pazk::univariate::UnivariatePolynomial;

type Poly17 = MultivariatePolynomial<17>;
type Uni17 = UnivariatePolynomial<17>;

/// examples and solutions taken from SumCheck example in
/// Thaler's Chp. 4
fn setup() -> Poly17 {
    // Create a multivariate polynomial in 3 variables, with 3 terms:
    // 2*x_0^3 + x_0*x_2 + x_1*x_2
    MultivariatePolynomial::from_coefficients_vec(
        3,
        vec![
            (2, SparseTerm::new(vec![(0, 3)])),
            (1, SparseTerm::new(vec![(0, 1), (2, 1)])),
            (1, SparseTerm::new(vec![(1, 1), (2, 1)])),
        ],
    )
    .unwrap()
}

fn uni(coeffs: Vec<(usize, u64)>) -> Uni17 {
    UnivariatePolynomial::from_coefficients_vec(coeffs).unwrap()
}

#[test]
fn test_prover_calculate_sum() {
    let poly = setup();
    let prover = Prover::new(poly);
    let solution = prover.calculate_sum();
    assert_eq!(solution, 12);

    let round1_poly = prover.calculate_round_poly();
    assert_eq!(
        (round1_poly.evaluate(0) + round1_poly.evaluate(1)) % 17,
        prover.calculate_sum()
    );
}

#[test]
fn test_verifier_verify_round() {
    let poly = setup();
    let prover = Prover::new(poly.clone());
    let mut verifier = Verifier::new(12, poly);
    let round1_poly = prover.calculate_round_poly();
    let should_poly = uni(vec![(3, 8), (1, 2), (0, 1)]);
    assert_eq!(round1_poly, should_poly);
    verifier.verify_round(round1_poly).unwrap();
}

#[test]
fn test_verifier_wrong_poly() {
    let poly = setup();
    let mut verifier = Verifier::new(12, poly);
    let random_poly = uni(vec![(2, 1), (0, 1)]);
    assert_eq!(verifier.verify_round(random_poly), Err(Error::SumMismatch));
}

#[test]
fn test_prover_verifier_interaction_ith_round() {
    let poly = setup();
    let mut prover = Prover::new(poly.clone());

    let rand_field = 2;
    let mut verifier =
        Verifier::resume(12, poly, uni(vec![(3, 8), (1, 2), (0, 1)]), vec![rand_field]).unwrap();
    assert_eq!(verifier.total_rounds(), 3);
    assert_eq!(verifier.actual_round(), 1);
    prover.update_random_vars(rand_field);
    let round2_poly = prover.calculate_round_poly();
    let should_poly = uni(vec![(1, 1)]);
    assert_eq!(round2_poly, should_poly);
    verifier.verify_round(round2_poly).unwrap();
}

#[test]
fn test_verifier_final_round() {
    let poly = setup();
    let rs = vec![2, 3];
    let mut prover = Prover::new(poly.clone());
    prover.update_random_vars(rs[0]);
    let s2 = prover.calculate_round_poly();
    prover.update_random_vars(rs[1]);
    let s3 = prover.calculate_round_poly();

    let mut verifier = Verifier::resume(12, poly, s2, rs).unwrap();
    assert_eq!(verifier.actual_round(), 2);

    verifier.verify_round(s3).unwrap();
    assert_eq!(verifier.actual_round(), 3);
}

#[test]
fn the_final_round_is_checked_against_the_polynomial() {
    // with r0 = 2 and r1 = 3 the last round polynomial is 16 + 5*t = poly(2, 3, t)
    let poly = setup();
    let mut prover = Prover::new(poly.clone());
    prover.update_random_vars(2);
    let s2 = prover.calculate_round_poly();
    prover.update_random_vars(3);
    let s3 = prover.calculate_round_poly();
    assert_eq!(s3, uni(vec![(0, 16), (1, 5)]));
    for r2 in 0..17u64 {
        assert_eq!(s3.evaluate(r2), poly.evaluate(&vec![2, 3, r2]));
        let mut verifier = Verifier::resume(12, poly.clone(), s2.clone(), vec![2, 3]).unwrap();
        assert_eq!(verifier.verify_round_with(s3.clone(), r2), Ok(r2));
    }
    // a last polynomial with the right commitment and the wrong values
    let forged = uni(vec![(0, 16), (2, 5)]);
    assert_eq!(forged.commitment(), s3.commitment());
    let mut verifier = Verifier::resume(12, poly, s2, vec![2, 3]).unwrap();
    assert_eq!(verifier.verify_round_with(forged, 4), Err(Error::FinalOracleMismatch));
    assert_eq!(verifier.actual_round(), 3);
}

#[test]
fn an_honest_run_is_accepted_for_every_challenge() {
    let poly = setup();
    for seed in 0..17u64 {
        let mut prover = Prover::new(poly.clone());
        let mut verifier = Verifier::new(prover.calculate_sum(), poly.clone());
        for round in 0..3u64 {
            let challenge = (seed * 7 + round * 5 + 3) % 17;
            let round_poly = prover.calculate_round_poly();
            assert_eq!(verifier.verify_round_with(round_poly, challenge), Ok(challenge));
            prover.update_random_vars(challenge);
        }
        assert_eq!(verifier.actual_round(), 3);
        assert_eq!(prover.actual_round(), 3);
    }
}

#[test]
fn an_honest_run_is_accepted_with_drawn_challenges() {
    let poly = setup();
    let mut prover = Prover::new(poly.clone());
    let mut verifier = Verifier::new(prover.calculate_sum(), poly);
    for _ in 0..prover.total_rounds() {
        let challenge = verifier.verify_round(prover.calculate_round_poly()).unwrap();
        assert!(challenge < 17);
        prover.update_random_vars(challenge);
    }
    assert_eq!(verifier.actual_round(), verifier.total_rounds());
    // the session is over: a further round is refused
    assert_eq!(verifier.verify_round(uni(vec![(0, 1)])), Err(Error::TooManyRounds));
    assert_eq!(verifier.actual_round(), 3);
}

#[test]
fn a_round_that_does_not_continue_the_last_one_is_refused() {
    let poly = setup();
    let prover = Prover::new(poly.clone());
    let mut verifier = Verifier::new(12, poly);
    assert_eq!(verifier.verify_round_with(prover.calculate_round_poly(), 2), Ok(2));
    // the honest next polynomial is t, with commitment 1 = s1(2)
    assert_eq!(verifier.verify_round_with(uni(vec![(1, 2)]), 3), Err(Error::RoundInconsistency));
    // a refused round leaves the state as it was
    assert_eq!(verifier.actual_round(), 1);
    assert_eq!(verifier.verify_round_with(uni(vec![(1, 1)]), 3), Ok(3));
}

#[test]
fn a_wrong_claim_is_refused_in_the_first_round() {
    let poly = setup();
    let prover = Prover::new(poly.clone());
    let mut verifier = Verifier::new(11, poly);
    assert_eq!(verifier.verify_round(prover.calculate_round_poly()), Err(Error::SumMismatch));
    assert_eq!(verifier.actual_round(), 0);
}

#[test]
fn the_claimed_sum_is_read_modulo_the_field() {
    let poly = setup();
    let prover = Prover::new(poly.clone());
    let mut verifier = Verifier::new(12 + 17, poly);
    assert_eq!(verifier.verify_round_with(prover.calculate_round_poly(), 5 + 17), Ok(5));
}

#[test]
fn the_sum_does_not_depend_on_the_order_of_the_points() {
    let poly = setup();
    let prover = Prover::new(poly.clone());
    let order = [5usize, 2, 7, 0, 3, 6, 1, 4];
    let mut total = 0;
    for index in order {
        total = (total + poly.evaluate(&number_to_domain(index, 3))) % 17;
    }
    assert_eq!(total, prover.calculate_sum());
    let mut reversed = 0;
    for index in (0..8).rev() {
        reversed = (reversed + poly.evaluate(&number_to_domain(index, 3))) % 17;
    }
    assert_eq!(reversed, 12);
}

#[test]
fn the_first_commitment_is_the_claimed_sum() {
    let polys = vec![
        setup(),
        MultivariatePolynomial::from_coefficients_vec(
            2,
            vec![
                (5, SparseTerm::new(vec![(0, 2), (1, 1)])),
                (16, SparseTerm::new(vec![(1, 4)])),
                (3, SparseTerm::new(vec![])),
            ],
        )
        .unwrap(),
        MultivariatePolynomial::from_coefficients_vec(1, vec![(9, SparseTerm::new(vec![(0, 5)]))])
            .unwrap(),
    ];
    for poly in polys {
        let prover = Prover::new(poly);
        assert_eq!(prover.calculate_round_poly().commitment(), prover.calculate_sum());
    }
}

#[test]
fn a_round_polynomial_sums_over_the_later_variables() {
    // round 2 after r0 = 2: the sum over x_2 of 16 + 2*x_2 + t*x_2 is 34 + t = t
    let poly = setup();
    let mut prover = Prover::new(poly.clone());
    prover.update_random_vars(2);
    let round2 = prover.calculate_round_poly();
    for t in 0..17u64 {
        let direct = (poly.evaluate(&vec![2, t, 0]) + poly.evaluate(&vec![2, t, 1])) % 17;
        assert_eq!(round2.evaluate(t), direct);
    }
}

#[test]
fn a_polynomial_without_variables_has_no_rounds() {
    let constant =
        MultivariatePolynomial::<17>::from_coefficients_vec(0, vec![(5, SparseTerm::new(vec![]))])
            .unwrap();
    let prover = Prover::new(constant.clone());
    assert_eq!(prover.total_rounds(), 0);
    assert_eq!(prover.calculate_sum(), 5);
    let mut verifier = Verifier::new(5, constant);
    assert_eq!(verifier.verify_round(uni(vec![(0, 5)])), Err(Error::TooManyRounds));
}

#[test]
fn resume_refuses_more_challenges_than_rounds() {
    assert!(Verifier::resume(12, setup(), uni(vec![]), vec![1, 2, 3]).is_ok());
    assert_eq!(
        Verifier::resume(12, setup(), uni(vec![]), vec![1, 2, 3, 4]).err(),
        Some(Error::TooManyRounds)
    );
}

#[test]
fn a_forgery_passes_at_few_challenges() {
    // a forged first polynomial with the right commitment: 8*t^3 + 3*t + 9
    // against the honest 8*t^3 + 2*t + 1; they agree where t = 9
    let poly = setup();
    let honest = Prover::new(poly.clone()).calculate_round_poly();
    let forged = uni(vec![(3, 8), (1, 3), (0, 9)]);
    assert_eq!(forged.commitment(), honest.commitment());
    let mut passed = 0;
    for challenge in 0..17u64 {
        let mut verifier = Verifier::new(12, poly.clone());
        assert_eq!(verifier.verify_round_with(forged.clone(), challenge), Ok(challenge));
        let mut prover = Prover::new(poly.clone());
        prover.update_random_vars(challenge);
        let next = verifier.verify_round_with(prover.calculate_round_poly(), 5);
        if forged.evaluate(challenge) == honest.evaluate(challenge) {
            assert_eq!(next, Ok(5));
            passed += 1;
        } else {
            assert_eq!(next, Err(Error::RoundInconsistency));
        }
    }
    assert_eq!(passed, 1);
}
