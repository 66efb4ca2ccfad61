//! The interactive protocol as two actors that only exchange messages.
//!
//! Each actor is a state machine from a received message to the next state and the
//! action to take. Whoever runs an actor owns the channels: it hands each received
//! message to the actor and carries out the action that comes back.

use crate::error::Error;
use crate::field::residue;
use crate::polynomial::MultivariatePolynomial;
use crate::polynomial::PolyModel;
use crate::sumcheck::completeness::honest_round_poly;
use crate::sumcheck::completeness::lemma_completeness;
use crate::sumcheck::completeness::lemma_verifier_rounds;
use crate::sumcheck::completeness::prover_after;
use crate::sumcheck::completeness::verifier_after;
use crate::sumcheck::Prover as ProverState;
use crate::sumcheck::ProverModel;
use crate::sumcheck::Verifier as VerifierState;
use crate::sumcheck::VerifierModel;
use crate::univariate::UniModel;
use crate::univariate::UnivariatePolynomial;
use vstd::arithmetic::power2::*;
use vstd::prelude::*;

verus! {

/// What the prover sends to the verifier.
pub enum ProverMessage<const P: u64> {
    /// Opens a session: the polynomial and the sum that is claimed for it. The channel for
    /// the replies travels beside this message.
    Statement(MultivariatePolynomial<P>, u64),
    /// One round's polynomial.
    Argument(UnivariatePolynomial<P>),
}

/// What the verifier sends to the prover.
#[derive(Clone, Copy, Debug, PartialEq, Eq, Structural)]
pub enum VerifierMessage {
    /// The session was opened.
    Confirmation,
    /// The round was accepted; the challenge for the next round.
    Challenge(u64),
    /// The session was refused or a round was rejected, and why.
    Failure(Error),
    /// The last round was accepted.
    Success,
}

/// What the runner of the prover does after a message was handled.
pub enum ProverAction<const P: u64> {
    /// Send this message to the verifier and await the reply.
    Send(ProverMessage<P>),
    /// Await the next message without sending anything.
    Await,
    /// The verifier accepted the proof: stop.
    Accepted,
    /// The verifier reported a failure: stop.
    Rejected(Error),
    /// The channel was closed: stop.
    Closed,
}

/// What the runner of the verifier does after a message was handled.
#[derive(Clone, Copy, Debug, PartialEq, Eq, Structural)]
pub enum VerifierAction {
    /// Reply on the channel that came with the statement and keep it for the session.
    Open(VerifierMessage),
    /// Reply on the channel that came with the statement and let it go.
    Refuse(VerifierMessage),
    /// Send on the session's channel.
    Send(VerifierMessage),
    /// Send on the session's channel, then let it go: the session is over.
    Finish(VerifierMessage),
    /// Let the session's channel go, if there is one.
    Reset,
    /// Do nothing.
    Ignore,
}

/// The proving actor: the prover's state, driven by the verifier's messages.
pub struct Prover<const P: u64> {
    state: ProverState<P>,
}

impl<const P: u64> View for Prover<P> {
    type V = ProverModel;

    closed spec fn view(&self) -> ProverModel {
        self.state@
    }
}

/// What the proving actor does on `message` in state `prover`, as contracts see it:
/// whether it sends an argument.
pub open spec fn prover_sends(prover: ProverModel, message: Option<VerifierMessage>) -> bool {
    match message {
        Some(VerifierMessage::Confirmation) => prover.actual_round < prover.total_rounds,
        Some(VerifierMessage::Challenge(_)) => prover.actual_round + 1 < prover.total_rounds,
        _ => false,
    }
}

/// The proving actor's state after `message`.
pub open spec fn prover_next(prover: ProverModel, message: Option<VerifierMessage>) -> ProverModel {
    match message {
        Some(VerifierMessage::Challenge(r)) => if prover.actual_round < prover.total_rounds {
            prover.advance(r)
        } else {
            prover
        },
        _ => prover,
    }
}

impl<const P: u64> Prover<P> {
    /// Well-formedness of the prover's state.
    pub open spec fn wf(&self) -> bool {
        self@.wf() && self@.poly.modulus == P
    }

    /// Starts a proving actor for `poly`. The message that comes with it opens the
    /// session: it holds the polynomial and its sum over the hypercube.
    pub fn new(poly: MultivariatePolynomial<P>) -> (r: (Self, ProverMessage<P>))
        requires
            poly.wf(),
            pow2(poly@.num_vars as nat) <= usize::MAX,
        ensures
            r.0.wf(),
            r.0@ == (ProverModel {
                poly: poly@,
                total_rounds: poly@.num_vars,
                actual_round: 0,
                challenges: Seq::empty(),
            }),
            match r.1 {
                ProverMessage::Statement(sent, solution) => sent@ == poly@ && sent.wf() && solution
                    == r.0@.claimed_sum(),
                ProverMessage::Argument(_) => false,
            },
    {
        let state = ProverState::<P>::new(poly.clone());
        let solution = state.calculate_sum();
        let message = ProverMessage::Statement(poly, solution);
        (Prover { state }, message)
    }

    /// Handles one message of the verifier, `None` standing for a closed channel.
    ///
    /// On a confirmation the first round's polynomial is sent. On a challenge the
    /// challenge is applied and the next round's polynomial is sent, unless all rounds
    /// have been sent already: then the actor awaits the verdict. A verdict or a closed
    /// channel ends the run.
    pub fn prove(&mut self, message: Option<VerifierMessage>) -> (r: ProverAction<P>)
        requires
            old(self).wf(),
        ensures
            final(self).wf(),
            final(self)@ == prover_next(old(self)@, message),
            match r {
                ProverAction::Send(ProverMessage::Argument(round_poly)) => {
                    &&& prover_sends(old(self)@, message)
                    &&& final(self)@.is_round_poly(round_poly@)
                    &&& round_poly.wf()
                    &&& forall|t: int| #[trigger] round_poly@.eval(t) == final(self)@.round_value(t)
                },
                ProverAction::Send(ProverMessage::Statement(_, _)) => false,
                ProverAction::Await => {
                    &&& !prover_sends(old(self)@, message)
                    &&& (message is Some && (message->Some_0 is Confirmation
                        || message->Some_0 is Challenge))
                },
                ProverAction::Accepted => message == Some(VerifierMessage::Success),
                ProverAction::Rejected(e) => message == Some(VerifierMessage::Failure(e)),
                ProverAction::Closed => message is None,
            },
    {
        match message {
            Some(VerifierMessage::Confirmation) => {
                if self.state.actual_round() < self.state.total_rounds() {
                    let univariate_poly = self.state.calculate_round_poly();
                    ProverAction::Send(ProverMessage::Argument(univariate_poly))
                } else {
                    ProverAction::Await
                }
            },
            Some(VerifierMessage::Challenge(random_challenge)) => {
                if self.state.actual_round() < self.state.total_rounds() {
                    self.state.update_random_vars(random_challenge);
                    if self.state.actual_round() < self.state.total_rounds() {
                        let univariate_poly = self.state.calculate_round_poly();
                        ProverAction::Send(ProverMessage::Argument(univariate_poly))
                    } else {
                        ProverAction::Await
                    }
                } else {
                    ProverAction::Await
                }
            },
            Some(VerifierMessage::Success) => ProverAction::Accepted,
            Some(VerifierMessage::Failure(reason)) => ProverAction::Rejected(reason),
            None => ProverAction::Closed,
        }
    }
}

/// The verifying actor: idle, or active with the state of one session.
pub struct Verifier<const P: u64> {
    state: Option<VerifierState<P>>,
}

impl<const P: u64> View for Verifier<P> {
    type V = Option<VerifierModel>;

    closed spec fn view(&self) -> Option<VerifierModel> {
        match self.state {
            Some(state) => Some(state@),
            None => None,
        }
    }
}

/// The verifying actor's reply to an argument in an active session, for the challenge
/// that was drawn.
pub open spec fn step_action(
    session: VerifierModel,
    round_poly: UniModel,
    challenge: u64,
) -> VerifierAction {
    match session.round_outcome(round_poly, challenge) {
        Ok(r) => if session.actual_round + 1 == session.total_rounds {
            VerifierAction::Finish(VerifierMessage::Success)
        } else {
            VerifierAction::Send(VerifierMessage::Challenge(r))
        },
        Err(e) => VerifierAction::Finish(VerifierMessage::Failure(e)),
    }
}

/// The verifying actor's state after an argument in an active session: the session
/// goes on where the round was accepted and was not the last, and is over otherwise.
pub open spec fn step_state(session: VerifierModel, round_poly: UniModel, challenge: u64) -> Option<
    VerifierModel,
> {
    if session.round_outcome(round_poly, challenge) is Ok && session.actual_round + 1
        != session.total_rounds {
        Some(session.after_round(round_poly, challenge))
    } else {
        None
    }
}

impl<const P: u64> Verifier<P> {
    /// Well-formedness of the session's state, where one is active.
    pub open spec fn wf(&self) -> bool {
        self@ is Some ==> self@->Some_0.wf() && self@->Some_0.poly.modulus == P
    }

    /// An idle verifying actor.
    pub fn new() -> (r: Self)
        ensures
            r@ is None,
            r.wf(),
    {
        Verifier { state: None }
    }

    /// Whether a session is active.
    pub fn is_active(&self) -> (r: bool)
        ensures
            r == (self@ is Some),
    {
        self.state.is_some()
    }

    /// Handles one message of the prover, `None` standing for a closed channel, with a
    /// freshly drawn challenge where one is needed.
    ///
    /// A statement is registered, an argument is verified, and a closed channel ends the
    /// session that may be active.
    pub fn listen(&mut self, message: Option<ProverMessage<P>>) -> (r: VerifierAction)
        requires
            old(self).wf(),
            match message {
                Some(ProverMessage::Statement(poly, _)) => poly.wf(),
                Some(ProverMessage::Argument(round_poly)) => round_poly.wf(),
                None => true,
            },
        ensures
            final(self).wf(),
            match message {
                Some(ProverMessage::Statement(poly, solution)) => {
                    &&& r == registration_action(old(self)@)
                    &&& final(self)@ == registration_state(old(self)@, poly@, solution)
                },
                Some(ProverMessage::Argument(round_poly)) => match old(self)@ {
                    Some(session) => exists|challenge: u64|
                        challenge < P && r == step_action(session, round_poly@, challenge)
                            && final(self)@ == step_state(session, round_poly@, challenge),
                    None => r == VerifierAction::Ignore && final(self)@ is None,
                },
                None => r == VerifierAction::Reset && final(self)@ is None,
            },
    {
        match message {
            Some(message) => match message {
                ProverMessage::Statement(poly, solution) => self.registration(poly, solution),
                ProverMessage::Argument(univariate_poly) => self.verify_step(univariate_poly),
            },
            None => {
                if self.state.is_some() {
                    self.state = None;
                }
                VerifierAction::Reset
            },
        }
    }

    /// Registers a statement. While a session is active the statement is refused with
    /// `SessionConflict` and the session stays as it is; otherwise a session is opened
    /// for the polynomial and the claimed sum.
    pub fn registration(&mut self, poly: MultivariatePolynomial<P>, solution: u64) -> (r:
        VerifierAction)
        requires
            old(self).wf(),
            poly.wf(),
        ensures
            final(self).wf(),
            r == registration_action(old(self)@),
            final(self)@ == registration_state(old(self)@, poly@, solution),
    {
        if self.state.is_some() {
            VerifierAction::Refuse(VerifierMessage::Failure(Error::SessionConflict))
        } else {
            self.state = Some(VerifierState::new(solution, poly));
            VerifierAction::Open(VerifierMessage::Confirmation)
        }
    }

    /// Verifies one argument with a freshly drawn challenge, which is drawn only where
    /// the argument is not refused for its round or its commitment. Outside a session
    /// the argument is ignored.
    pub fn verify_step(&mut self, univariate_poly: UnivariatePolynomial<P>) -> (r: VerifierAction)
        requires
            old(self).wf(),
            univariate_poly.wf(),
        ensures
            final(self).wf(),
            match old(self)@ {
                Some(session) => exists|challenge: u64|
                    challenge < P && r == step_action(session, univariate_poly@, challenge)
                        && final(self)@ == step_state(session, univariate_poly@, challenge),
                None => r == VerifierAction::Ignore && final(self)@ is None,
            },
    {
        let mut taken: Option<VerifierState<P>> = None;
        core::mem::swap(&mut self.state, &mut taken);
        match taken {
            Some(mut state) => {
                let ghost session = state@;
                let outcome = state.verify_round(univariate_poly);
                let ghost challenge: u64 = if session.refusal(univariate_poly@) is Some {
                    0
                } else {
                    choose|challenge: u64|
                        challenge < P && outcome == session.round_outcome(
                            univariate_poly@,
                            challenge,
                        ) && state@ == session.after_round(univariate_poly@, challenge)
                };
                let r = match outcome {
                    Ok(random_challenge) => {
                        if state.actual_round() == state.total_rounds() {
                            VerifierAction::Finish(VerifierMessage::Success)
                        } else {
                            self.state = Some(state);
                            VerifierAction::Send(VerifierMessage::Challenge(random_challenge))
                        }
                    },
                    Err(reason) => VerifierAction::Finish(VerifierMessage::Failure(reason)),
                };
                proof {
                    assert(r == step_action(session, univariate_poly@, challenge));
                    assert(self@ == step_state(session, univariate_poly@, challenge));
                }
                r
            },
            None => VerifierAction::Ignore,
        }
    }

    /// Verifies one argument with `challenge` as the round's challenge. Outside a session
    /// the argument is ignored.
    ///
    /// An accepted round is answered with the challenge, the last one with `Success`; a
    /// rejected round is answered with the failure. After a failure or the last round the
    /// actor is idle again.
    pub fn verify_step_with(&mut self, univariate_poly: UnivariatePolynomial<P>, challenge: u64) -> (r:
        VerifierAction)
        requires
            old(self).wf(),
            univariate_poly.wf(),
        ensures
            final(self).wf(),
            match old(self)@ {
                Some(session) => r == step_action(session, univariate_poly@, challenge)
                    && final(self)@ == step_state(session, univariate_poly@, challenge),
                None => r == VerifierAction::Ignore && final(self)@ is None,
            },
    {
        let mut taken: Option<VerifierState<P>> = None;
        core::mem::swap(&mut self.state, &mut taken);
        match taken {
            Some(mut state) => {
                let outcome = state.verify_round_with(univariate_poly, challenge);
                match outcome {
                    Ok(random_challenge) => {
                        if state.actual_round() == state.total_rounds() {
                            VerifierAction::Finish(VerifierMessage::Success)
                        } else {
                            self.state = Some(state);
                            VerifierAction::Send(VerifierMessage::Challenge(random_challenge))
                        }
                    },
                    Err(reason) => VerifierAction::Finish(VerifierMessage::Failure(reason)),
                }
            },
            None => VerifierAction::Ignore,
        }
    }
}

/// The verifying actor's reply to a statement: a refusal while a session is active, a
/// confirmation otherwise.
pub open spec fn registration_action(state: Option<VerifierModel>) -> VerifierAction {
    if state is Some {
        VerifierAction::Refuse(VerifierMessage::Failure(Error::SessionConflict))
    } else {
        VerifierAction::Open(VerifierMessage::Confirmation)
    }
}

/// The verifying actor's state after a statement: the active session untouched, or a
/// new session for the statement.
pub open spec fn registration_state(state: Option<VerifierModel>, poly: PolyModel, solution: u64) -> Option<
    VerifierModel,
> {
    if state is Some {
        state
    } else {
        Some(VerifierModel::start(solution as int, poly))
    }
}

/// An honest session runs to success. A verifying actor that is sent the polynomials of
/// an honest prover answers every round but the last with the challenge it drew and the
/// last one with `Success`, whatever the challenges are.
pub proof fn lemma_honest_session(
    poly: PolyModel,
    round_polys: Seq<UniModel>,
    challenges: Seq<u64>,
    round: nat,
)
    requires
        poly.wf(),
        pow2(poly.num_vars as nat) <= usize::MAX,
        round_polys.len() == poly.num_vars,
        challenges.len() == poly.num_vars,
        round < poly.num_vars,
        forall|j: int|
            0 <= j < poly.num_vars ==> honest_round_poly(
                prover_after(poly, challenges, j as nat),
                #[trigger] round_polys[j],
            ),
    ensures
        step_action(
            verifier_after(poly, round_polys, challenges, round),
            round_polys[round as int],
            challenges[round as int],
        ) == if round + 1 == poly.num_vars {
            VerifierAction::Finish(VerifierMessage::Success)
        } else {
            VerifierAction::Send(
                VerifierMessage::Challenge(residue(challenges[round as int], poly.modulus)),
            )
        },
        step_state(
            verifier_after(poly, round_polys, challenges, round),
            round_polys[round as int],
            challenges[round as int],
        ) == if round + 1 == poly.num_vars {
            None::<VerifierModel>
        } else {
            Some(verifier_after(poly, round_polys, challenges, round + 1))
        },
{
    lemma_completeness(poly, round_polys, challenges, round);
    lemma_verifier_rounds(poly, round_polys, challenges, round);
}

} // verus!
