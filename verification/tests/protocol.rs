use ark_poly::multivariate::SparseTerm;
use ark_poly::multivariate::Term;
use pazk::error::Error;
use pazk::polynomial::MultivariatePolynomial;
use pazk::sumcheck::protocol::Prover;
use pazk::sumcheck::protocol::ProverAction;
use pazk::sumcheck::protocol::ProverMessage;
use pazk::sumcheck::protocol::Verifier;
use pazk::sumcheck::protocol::VerifierAction;
use pazk::sumcheck::protocol::VerifierMessage;
use pazk::univariate::UnivariatePolynomial;

fn setup() -> MultivariatePolynomial<17> {
    // 2*x_0^3 + x_0*x_2 + x_1*x_2
    MultivariatePolynomial::from_coefficients_vec(
        3,
        vec![
            (2, SparseTerm::new(vec![(0, 3)])),
            (1, SparseTerm::new(vec![(0, 1), (2, 1)])),
            (1, SparseTerm::new(vec![(1, 1), (2, 1)])),
        ],
    )
    .unwrap()
}

fn argument(action: ProverAction<17>) -> UnivariatePolynomial<17> {
    match action {
        ProverAction::Send(ProverMessage::Argument(round_poly)) => round_poly,
        _ => panic!("the prover should send an argument"),
    }
}

#[test]
fn the_actors_run_a_session_to_success() {
    let (mut prover, statement) = Prover::new(setup());
    match &statement {
        ProverMessage::Statement(poly, solution) => {
            assert_eq!(poly, &setup());
            assert_eq!(*solution, 12);
        }
        ProverMessage::Argument(_) => panic!("the first message is the statement"),
    }
    let mut verifier = Verifier::new();
    assert!(!verifier.is_active());
    let mut action = verifier.listen(Some(statement));
    assert_eq!(action, VerifierAction::Open(VerifierMessage::Confirmation));
    assert!(verifier.is_active());
    let mut arguments = 0;
    loop {
        let message = match action {
            VerifierAction::Open(message) | VerifierAction::Send(message) => message,
            VerifierAction::Finish(message) => {
                assert_eq!(message, VerifierMessage::Success);
                assert!(matches!(prover.prove(Some(message)), ProverAction::Accepted));
                break;
            }
            _ => panic!("the verifier should reply"),
        };
        let round_poly = argument(prover.prove(Some(message)));
        arguments += 1;
        action = verifier.listen(Some(ProverMessage::Argument(round_poly)));
    }
    assert_eq!(arguments, 3);
    assert!(!verifier.is_active());
}

#[test]
fn a_second_statement_is_refused_and_the_session_goes_on() {
    let (mut prover, statement) = Prover::new(setup());
    let mut verifier = Verifier::new();
    assert_eq!(
        verifier.listen(Some(statement)),
        VerifierAction::Open(VerifierMessage::Confirmation)
    );
    let first = argument(prover.prove(Some(VerifierMessage::Confirmation)));
    assert_eq!(
        verifier.verify_step_with(first, 2),
        VerifierAction::Send(VerifierMessage::Challenge(2))
    );
    // another prover asks for a session
    let (_, second) = Prover::new(setup());
    assert_eq!(
        verifier.listen(Some(second)),
        VerifierAction::Refuse(VerifierMessage::Failure(Error::SessionConflict))
    );
    assert_eq!(
        verifier.registration(setup(), 12),
        VerifierAction::Refuse(VerifierMessage::Failure(Error::SessionConflict))
    );
    assert!(verifier.is_active());
    // the first session is where it was: round two, after the challenge 2
    let next = argument(prover.prove(Some(VerifierMessage::Challenge(2))));
    assert_eq!(next, UnivariatePolynomial::from_coefficients_vec(vec![(1, 1)]).unwrap());
    assert_eq!(
        verifier.verify_step_with(next, 3),
        VerifierAction::Send(VerifierMessage::Challenge(3))
    );
    let last = argument(prover.prove(Some(VerifierMessage::Challenge(3))));
    assert_eq!(
        verifier.verify_step_with(last, 5),
        VerifierAction::Finish(VerifierMessage::Success)
    );
    assert!(!verifier.is_active());
    // the verifier is free for a new session
    assert_eq!(
        verifier.registration(setup(), 12),
        VerifierAction::Open(VerifierMessage::Confirmation)
    );
}

#[test]
fn a_rejected_round_ends_the_session_with_a_failure() {
    let mut verifier = Verifier::new();
    verifier.registration(setup(), 11);
    let (mut prover, _) = Prover::new(setup());
    let first = argument(prover.prove(Some(VerifierMessage::Confirmation)));
    let action = verifier.listen(Some(ProverMessage::Argument(first)));
    assert_eq!(action, VerifierAction::Finish(VerifierMessage::Failure(Error::SumMismatch)));
    assert!(!verifier.is_active());
    assert!(matches!(
        prover.prove(Some(VerifierMessage::Failure(Error::SumMismatch))),
        ProverAction::Rejected(Error::SumMismatch)
    ));
}

#[test]
fn an_argument_outside_a_session_is_ignored() {
    let mut verifier = Verifier::<17>::new();
    let round_poly = UnivariatePolynomial::from_coefficients_vec(vec![(1, 1)]).unwrap();
    assert_eq!(
        verifier.listen(Some(ProverMessage::Argument(round_poly.clone()))),
        VerifierAction::Ignore
    );
    assert_eq!(verifier.verify_step(round_poly.clone()), VerifierAction::Ignore);
    assert_eq!(verifier.verify_step_with(round_poly, 1), VerifierAction::Ignore);
    assert!(!verifier.is_active());
}

#[test]
fn a_closed_channel_resets_the_verifier_and_stops_the_prover() {
    let mut verifier = Verifier::new();
    verifier.registration(setup(), 12);
    assert!(verifier.is_active());
    assert_eq!(verifier.listen(None), VerifierAction::Reset);
    assert!(!verifier.is_active());
    assert_eq!(verifier.listen(None), VerifierAction::Reset);
    let (mut prover, _) = Prover::new(setup());
    assert!(matches!(prover.prove(None), ProverAction::Closed));
}

#[test]
fn the_prover_awaits_the_verdict_after_its_last_round() {
    let (mut prover, _) = Prover::new(setup());
    argument(prover.prove(Some(VerifierMessage::Confirmation)));
    argument(prover.prove(Some(VerifierMessage::Challenge(2))));
    argument(prover.prove(Some(VerifierMessage::Challenge(3))));
    // all three rounds were sent: a further challenge is applied, no argument follows
    assert!(matches!(prover.prove(Some(VerifierMessage::Challenge(4))), ProverAction::Await));
    assert!(matches!(prover.prove(Some(VerifierMessage::Challenge(5))), ProverAction::Await));
    assert!(matches!(prover.prove(Some(VerifierMessage::Success)), ProverAction::Accepted));
}
