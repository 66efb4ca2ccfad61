//! The round trip of a non-interactive proof: what `prove` makes, `verify` accepts, and
//! a proof whose recorded bytes were changed is refused.

use crate::error::Error;
use crate::field::lemma_residue;
use crate::field::residue;
use crate::polynomial::PolyModel;
use crate::sumcheck::completeness::honest_round_poly;
use crate::sumcheck::completeness::lemma_completeness;
use crate::sumcheck::completeness::prover_after;
use crate::sumcheck::completeness::verifier_after;
use crate::sumcheck::fiat_shamir::challenge_width;
use crate::sumcheck::fiat_shamir::scalar_width;
use crate::sumcheck::non_interactive::be_value;
use crate::sumcheck::non_interactive::challenge_of;
use crate::sumcheck::non_interactive::commitment_of;
use crate::sumcheck::non_interactive::encode_scalar;
use crate::sumcheck::non_interactive::is_proof_of;
use crate::sumcheck::non_interactive::lemma_admitted_prefix;
use crate::sumcheck::non_interactive::lemma_failure_stays;
use crate::sumcheck::non_interactive::prover_run;
use crate::sumcheck::non_interactive::verifier_run;
use crate::sumcheck::non_interactive::verify_outcome;
use crate::sumcheck::non_interactive::ProofModel;
use crate::sumcheck::transcript::sponge_output;
use crate::sumcheck::transcript::Step;
use crate::univariate::coeff_sum;
use crate::univariate::entries_value;
use crate::univariate::lemma_canonical_coeff;
use crate::univariate::lemma_single_coefficient;
use crate::univariate::UniModel;
use vstd::arithmetic::div_mod::*;
use vstd::arithmetic::mul::*;
use vstd::arithmetic::power::*;
use vstd::arithmetic::power2::*;
use vstd::prelude::*;

verus! {

/// The sizes of what a run has produced, and that every challenge is a residue.
pub proof fn lemma_run_sizes(pattern: Seq<u8>, start: Seq<Step>, poly: PolyModel, rounds: nat)
    requires
        poly.modulus > 0,
    ensures
        prover_run(pattern, start, poly, rounds).bytes.len() == rounds * scalar_width(
            poly.modulus,
        ),
        prover_run(pattern, start, poly, rounds).challenges.len() == rounds,
        forall|j: int|
            0 <= j < rounds ==> residue(
                #[trigger] prover_run(pattern, start, poly, rounds).challenges[j],
                poly.modulus,
            ) == prover_run(pattern, start, poly, rounds).challenges[j],
    decreases rounds,
{
    if rounds == 0 {
        assert(rounds * scalar_width(poly.modulus) == 0) by (nonlinear_arith)
            requires
                rounds == 0,
        ;
    } else {
        let less = (rounds - 1) as nat;
        lemma_run_sizes(pattern, start, poly, less);
        let before = prover_run(pattern, start, poly, less);
        let now = prover_run(pattern, start, poly, rounds);
        let width = scalar_width(poly.modulus);
        assert(encode_scalar(commitment_of(before.prover) as nat, width).len() == width);
        assert(rounds * width == less * width + width) by (nonlinear_arith)
            requires
                rounds == less + 1,
        ;
        let last = now.challenges[rounds - 1];
        let sent = encode_scalar(commitment_of(before.prover) as nat, width);
        let squeezed = sponge_output(
            pattern,
            before.trace.push((true, sent)),
            challenge_width(poly.modulus),
        );
        lemma_mod_bound(be_value(squeezed) as int, poly.modulus);
        assert forall|j: int| 0 <= j < rounds implies residue(
            #[trigger] now.challenges[j],
            poly.modulus,
        ) == now.challenges[j] by {
            if j < less {
                assert(now.challenges[j] == before.challenges[j]);
            } else {
                lemma_residue(last, poly.modulus);
                lemma_small_mod(last as nat, poly.modulus as nat);
            }
        }
    }
}

/// An earlier stage of a run is a prefix of a later one.
pub proof fn lemma_run_prefix(
    pattern: Seq<u8>,
    start: Seq<Step>,
    poly: PolyModel,
    rounds: nat,
    total: nat,
)
    requires
        poly.modulus > 0,
        rounds <= total,
    ensures
        prover_run(pattern, start, poly, rounds).challenges == prover_run(
            pattern,
            start,
            poly,
            total,
        ).challenges.take(rounds as int),
        prover_run(pattern, start, poly, rounds).bytes == prover_run(
            pattern,
            start,
            poly,
            total,
        ).bytes.take((rounds * scalar_width(poly.modulus)) as int),
    decreases total - rounds,
{
    lemma_run_sizes(pattern, start, poly, rounds);
    lemma_run_sizes(pattern, start, poly, total);
    let here = prover_run(pattern, start, poly, rounds);
    let end = prover_run(pattern, start, poly, total);
    if rounds == total {
        assert(end.challenges.take(rounds as int) =~= end.challenges);
        assert(end.bytes.take((rounds * scalar_width(poly.modulus)) as int) =~= end.bytes);
    } else {
        let less = (total - 1) as nat;
        let before = prover_run(pattern, start, poly, less);
        lemma_run_prefix(pattern, start, poly, rounds, less);
        lemma_run_sizes(pattern, start, poly, less);
        let width = scalar_width(poly.modulus);
        assert(rounds * width <= less * width) by (nonlinear_arith)
            requires
                rounds <= less,
        ;
        assert(end.challenges.take(rounds as int) =~= before.challenges.take(rounds as int));
        assert(end.bytes.take((rounds * width) as int) =~= before.bytes.take((rounds * width) as int));
    }
}

/// The prover of a run is the honest prover for the run's challenges.
pub proof fn lemma_run_prover(
    pattern: Seq<u8>,
    start: Seq<Step>,
    poly: PolyModel,
    rounds: nat,
    total: nat,
)
    requires
        poly.modulus > 0,
        rounds <= total,
    ensures
        prover_run(pattern, start, poly, rounds).prover == prover_after(
            poly,
            prover_run(pattern, start, poly, total).challenges,
            rounds,
        ),
    decreases rounds,
{
    if rounds > 0 {
        let less = (rounds - 1) as nat;
        lemma_run_prover(pattern, start, poly, less, total);
        lemma_run_prefix(pattern, start, poly, rounds, total);
        lemma_run_sizes(pattern, start, poly, rounds);
        lemma_run_sizes(pattern, start, poly, total);
        let now = prover_run(pattern, start, poly, rounds);
        let end = prover_run(pattern, start, poly, total);
        assert(now.challenges[rounds - 1] == end.challenges.take(rounds as int)[rounds - 1]);
    }
}

/// What the verifier's side of a run has reached after some rounds of a proof that an
/// honest prover made on a fresh transcript of the same pattern: no failure, the
/// prover's sponge operations, and the honest verifier's state.
pub proof fn lemma_round_trip_rounds(
    pattern: Seq<u8>,
    poly: PolyModel,
    proof: ProofModel,
    rounds: nat,
)
    requires
        poly.wf(),
        pow2(poly.num_vars as nat) <= usize::MAX,
        prover_run(pattern, Seq::empty(), poly, poly.num_vars as nat).admitted,
        is_proof_of(proof, pattern, Seq::empty(), Seq::empty(), poly),
        rounds <= poly.num_vars,
    ensures
        verifier_run(pattern, proof, rounds).outcome is Ok,
        verifier_run(pattern, proof, rounds).trace == prover_run(
            pattern,
            Seq::empty(),
            poly,
            rounds,
        ).trace,
        verifier_run(pattern, proof, rounds).unread == proof.transcript.skip(
            (rounds * scalar_width(poly.modulus)) as int,
        ),
        verifier_run(pattern, proof, rounds).verifier == verifier_after(
            poly,
            proof.round_polys,
            prover_run(pattern, Seq::empty(), poly, poly.num_vars as nat).challenges,
            rounds,
        ),
    decreases rounds,
{
    let total = poly.num_vars as nat;
    let start = Seq::<Step>::empty();
    let end = prover_run(pattern, start, poly, total);
    let width = scalar_width(poly.modulus);
    lemma_run_sizes(pattern, start, poly, total);
    assert(proof.transcript =~= end.bytes);
    if rounds == 0 {
        assert(rounds * width == 0) by (nonlinear_arith)
            requires
                rounds == 0,
        ;
        assert(proof.transcript.skip(0) =~= proof.transcript);
    } else {
        let less = (rounds - 1) as nat;
        lemma_round_trip_rounds(pattern, poly, proof, less);
        let before = verifier_run(pattern, proof, less);
        let here = prover_run(pattern, start, poly, less);
        let next = prover_run(pattern, start, poly, rounds);
        let sent = proof.round_polys[less as int];
        lemma_admitted_prefix(pattern, start, poly, rounds, total);
        lemma_run_prefix(pattern, start, poly, less, total);
        lemma_run_prefix(pattern, start, poly, rounds, total);
        lemma_run_sizes(pattern, start, poly, less);
        lemma_run_sizes(pattern, start, poly, rounds);
        assert(rounds * width == less * width + width) by (nonlinear_arith)
            requires
                rounds == less + 1,
        ;
        assert(rounds * width <= total * width) by (nonlinear_arith)
            requires
                rounds <= total,
        ;
        // the commitment that was recorded is the commitment of the polynomial sent
        assert(honest_round_poly(here.prover, sent));
        assert(sent.eval(0) == here.prover.round_value(0));
        assert(sent.eval(1) == here.prover.round_value(1));
        assert(sent.commitment() == commitment_of(here.prover));
        let recorded = encode_scalar(commitment_of(here.prover) as nat, width);
        assert(next.bytes == here.bytes + recorded);
        let chunk = before.unread.take(width as int);
        assert(chunk =~= recorded) by {
            assert(recorded.len() == width);
            assert forall|k: int| 0 <= k < width implies chunk[k] == recorded[k] by {
                assert(chunk[k] == proof.transcript[less * width + k]);
                assert(end.bytes.take((rounds * width) as int)[less * width + k] == next.bytes[less * width
                    + k]);
                assert(next.bytes[less * width + k] == recorded[k]);
            }
        }
        // the round is one that the honest verifier accepts
        let challenges = end.challenges;
        assert forall|j: int| 0 <= j < poly.num_vars implies honest_round_poly(
            prover_after(poly, challenges, j as nat),
            #[trigger] proof.round_polys[j],
        ) by {
            lemma_run_prover(pattern, start, poly, j as nat, total);
        }
        lemma_completeness(poly, proof.round_polys, challenges, less);
        let challenge = next.challenges[less as int];
        assert(challenge == challenges.take(rounds as int)[less as int]);
        assert(before.unread.skip(width as int) =~= proof.transcript.skip((rounds * width) as int));
    }
}

/// The round trip. A proof that `prove` has made on a fresh transcript is accepted by
/// `verify` under the schedule that the transcript was made from.
pub proof fn lemma_round_trip(pattern: Seq<u8>, poly: PolyModel, proof: ProofModel)
    requires
        poly.wf(),
        pow2(poly.num_vars as nat) <= usize::MAX,
        prover_run(pattern, Seq::empty(), poly, poly.num_vars as nat).admitted,
        is_proof_of(proof, pattern, Seq::empty(), Seq::empty(), poly),
    ensures
        verify_outcome(pattern, proof) == Ok::<(), Error>(()),
{
    lemma_round_trip_rounds(pattern, poly, proof, poly.num_vars as nat);
}

/// The bytes that a transcript has to hold for the first `rounds` rounds of a proof:
/// the commitments of the round polynomials, one after the other.
pub open spec fn expected_bytes(proof: ProofModel, rounds: nat) -> Seq<u8>
    decreases rounds,
{
    if rounds == 0 {
        Seq::empty()
    } else {
        expected_bytes(proof, (rounds - 1) as nat) + encode_scalar(
            proof.round_polys[rounds - 1].commitment() as nat,
            scalar_width(proof.poly.modulus),
        )
    }
}

/// A run without a failure has read exactly the commitments of the round polynomials.
pub proof fn lemma_accepted_bytes(pattern: Seq<u8>, proof: ProofModel, rounds: nat)
    requires
        verifier_run(pattern, proof, rounds).outcome is Ok,
    ensures
        rounds * scalar_width(proof.poly.modulus) <= proof.transcript.len(),
        proof.transcript.take((rounds * scalar_width(proof.poly.modulus)) as int) == expected_bytes(
            proof,
            rounds,
        ),
        verifier_run(pattern, proof, rounds).unread == proof.transcript.skip(
            (rounds * scalar_width(proof.poly.modulus)) as int,
        ),
    decreases rounds,
{
    let width = scalar_width(proof.poly.modulus);
    if rounds == 0 {
        assert(rounds * width == 0) by (nonlinear_arith)
            requires
                rounds == 0,
        ;
        assert(proof.transcript.take(0) =~= Seq::<u8>::empty());
        assert(proof.transcript.skip(0) =~= proof.transcript);
    } else {
        let less = (rounds - 1) as nat;
        let before = verifier_run(pattern, proof, less);
        if before.outcome is Err {
            assert(verifier_run(pattern, proof, rounds) == before);
        }
        lemma_accepted_bytes(pattern, proof, less);
        assert(rounds * width == less * width + width) by (nonlinear_arith)
            requires
                rounds == less + 1,
        ;
        let chunk = before.unread.take(width as int);
        assert(proof.transcript.take((rounds * width) as int) =~= proof.transcript.take((less * width) as int)
            + chunk);
        assert(before.unread.skip(width as int) =~= proof.transcript.skip((rounds * width) as int));
    }
}

/// A changed transcript is refused. Where `verify` accepts a proof whose transcript
/// holds the commitments and nothing else, it refuses the proof with any other
/// transcript of that length: with any byte flipped.
pub proof fn lemma_changed_transcript_refused(pattern: Seq<u8>, proof: ProofModel, changed: Seq<u8>)
    requires
        verify_outcome(pattern, proof) is Ok,
        proof.transcript.len() == proof.poly.num_vars * scalar_width(proof.poly.modulus),
        changed.len() == proof.transcript.len(),
        changed != proof.transcript,
    ensures
        verify_outcome(
            pattern,
            ProofModel {
                solution: proof.solution,
                poly: proof.poly,
                round_polys: proof.round_polys,
                transcript: changed,
            },
        ) is Err,
{
    let other = ProofModel {
        solution: proof.solution,
        poly: proof.poly,
        round_polys: proof.round_polys,
        transcript: changed,
    };
    let total = proof.poly.num_vars as nat;
    let width = scalar_width(proof.poly.modulus);
    if verify_outcome(pattern, other) is Ok {
        lemma_accepted_bytes(pattern, proof, total);
        lemma_accepted_bytes(pattern, other, total);
        lemma_expected_bytes_same(proof, other, total);
        assert(proof.transcript.take((total * width) as int) =~= proof.transcript);
        assert(changed.take((total * width) as int) =~= changed);
        assert(false);
    }
}

/// The expected bytes depend on the polynomials only.
proof fn lemma_expected_bytes_same(a: ProofModel, b: ProofModel, rounds: nat)
    requires
        a.poly == b.poly,
        a.round_polys == b.round_polys,
    ensures
        expected_bytes(a, rounds) == expected_bytes(b, rounds),
    decreases rounds,
{
    if rounds > 0 {
        lemma_expected_bytes_same(a, b, (rounds - 1) as nat);
    }
}

/// The rounds of a run depend on the polynomials of those rounds only.
pub proof fn lemma_run_same_prefix(pattern: Seq<u8>, a: ProofModel, b: ProofModel, rounds: nat)
    requires
        a.solution == b.solution,
        a.poly == b.poly,
        a.transcript == b.transcript,
        forall|j: int| 0 <= j < rounds ==> a.round_polys[j] == b.round_polys[j],
    ensures
        verifier_run(pattern, a, rounds) == verifier_run(pattern, b, rounds),
    decreases rounds,
{
    if rounds > 0 {
        lemma_run_same_prefix(pattern, a, b, (rounds - 1) as nat);
    }
}

/// A run without a failure had none in its earlier rounds.
pub proof fn lemma_accepted_prefix(pattern: Seq<u8>, proof: ProofModel, rounds: nat, total: nat)
    requires
        rounds <= total,
        verifier_run(pattern, proof, total).outcome is Ok,
    ensures
        verifier_run(pattern, proof, rounds).outcome is Ok,
{
    if verifier_run(pattern, proof, rounds).outcome is Err {
        lemma_failure_stays(pattern, proof, rounds, total);
    }
}

/// What the verifier holds after rounds without a failure: it has advanced once per
/// round and holds the polynomial of the last one.
pub proof fn lemma_run_state(pattern: Seq<u8>, proof: ProofModel, rounds: nat)
    requires
        proof.poly.wf(),
        rounds <= proof.poly.num_vars,
        verifier_run(pattern, proof, rounds).outcome is Ok,
    ensures
        verifier_run(pattern, proof, rounds).verifier.poly == proof.poly,
        verifier_run(pattern, proof, rounds).verifier.total_rounds == proof.poly.num_vars,
        verifier_run(pattern, proof, rounds).verifier.actual_round == rounds,
        verifier_run(pattern, proof, rounds).verifier.challenges.len() == rounds,
        rounds > 0 ==> verifier_run(pattern, proof, rounds).verifier.running_poly
            == proof.round_polys[rounds - 1],
    decreases rounds,
{
    if rounds > 0 {
        let less = (rounds - 1) as nat;
        lemma_accepted_prefix(pattern, proof, less, rounds);
        lemma_run_state(pattern, proof, less);
    }
}

/// The failure that a changed round polynomial meets. Where the change shows in the
/// commitment, the round itself is refused: with `SumMismatch` in the first round and
/// with `RoundInconsistency` later. Where it does not, the last round fails its check
/// against the polynomial of the claim, and an earlier round is found out by the next.
pub open spec fn changed_round_error(
    round: nat,
    total: nat,
    honest: UniModel,
    changed: UniModel,
) -> Error {
    if changed.commitment() != honest.commitment() {
        if round == 0 {
            Error::SumMismatch
        } else {
            Error::RoundInconsistency
        }
    } else if round + 1 == total {
        Error::FinalOracleMismatch
    } else {
        Error::RoundInconsistency
    }
}

/// A changed coefficient is refused, and with which error. Where `verify` accepts a
/// proof, it refuses the proof in which one round polynomial has one of its coefficients
/// changed, with the round's own error where the commitment has changed. The commitment
/// stays the same only where the constant coefficient was changed by half the modulus:
/// never where the modulus is odd.
pub proof fn lemma_changed_coefficient_refused(
    pattern: Seq<u8>,
    proof: ProofModel,
    round: nat,
    changed: UniModel,
    power: usize,
)
    requires
        proof.wf(),
        verify_outcome(pattern, proof) is Ok,
        round < proof.poly.num_vars,
        changed.wf(),
        changed.modulus == proof.poly.modulus,
        changed.coeff(power) != proof.round_polys[round as int].coeff(power),
        forall|k: usize|
            k != power ==> changed.coeff(k) == proof.round_polys[round as int].coeff(k),
    ensures
        verify_outcome(
            pattern,
            ProofModel {
                solution: proof.solution,
                poly: proof.poly,
                round_polys: proof.round_polys.update(round as int, changed),
                transcript: proof.transcript,
            },
        ) == Err::<(), Error>(
            changed_round_error(
                round,
                proof.poly.num_vars as nat,
                proof.round_polys[round as int],
                changed,
            ),
        ),
        changed.commitment() == proof.round_polys[round as int].commitment() <==> power == 0 && (2
            * (changed.coeff(power) - proof.round_polys[round as int].coeff(power)))
            % proof.poly.modulus == 0,
        proof.poly.modulus % 2 == 1 ==> changed.commitment()
            != proof.round_polys[round as int].commitment(),
{
    let other = ProofModel {
        solution: proof.solution,
        poly: proof.poly,
        round_polys: proof.round_polys.update(round as int, changed),
        transcript: proof.transcript,
    };
    let total = proof.poly.num_vars as nat;
    let m = proof.poly.modulus;
    let width = scalar_width(m);
    let honest = proof.round_polys[round as int];
    let delta = changed.coeff(power) - honest.coeff(power);
    // the two runs are the same up to the changed round
    lemma_run_same_prefix(pattern, proof, other, round);
    lemma_accepted_prefix(pattern, proof, round, total);
    lemma_accepted_prefix(pattern, proof, round + 1, total);
    lemma_run_state(pattern, proof, round);
    lemma_run_state(pattern, proof, round + 1);
    let before = verifier_run(pattern, proof, round);
    let good = verifier_run(pattern, proof, round + 1);
    let bad = verifier_run(pattern, other, round + 1);
    assert(other.round_polys[round as int] == changed);
    // the values of the two polynomials differ by the changed monomial
    lemma_canonical_coeff(changed.coeffs, m, power);
    lemma_canonical_coeff(honest.coeffs, m, power);
    assert(-m < delta < m && delta != 0);
    assert(delta % m != 0) by {
        if delta > 0 {
            lemma_small_mod(delta as nat, m as nat);
        } else {
            lemma_small_mod((delta + m) as nat, m as nat);
            lemma_mod_add_multiples_vanish(delta, m);
        }
    }
    assert forall|t: int| #[trigger]
        changed.eval(t) == (honest.eval(t) + delta * pow(t, power as nat)) % m by {
        assert forall|k: usize| k != power implies coeff_sum(honest.coeffs, k) == coeff_sum(
            changed.coeffs,
            k,
        ) by {
            assert(changed.coeff(k) == honest.coeff(k));
        }
        lemma_single_coefficient(honest.coeffs, changed.coeffs, power, t);
        lemma_add_mod_noop_left_side(entries_value(honest.coeffs, t), delta * pow(t, power as nat), m);
    }
    // what the change does to the commitment
    let sum = honest.eval(0) + honest.eval(1);
    lemma_mod_bound(entries_value(honest.coeffs, 0), m);
    lemma_mod_bound(entries_value(honest.coeffs, 1), m);
    lemma1_pow(power as nat);
    assert(delta * pow(1, power as nat) == delta);
    if power > 0 {
        lemma0_pow(power as nat);
        assert(delta * pow(0, power as nat) == 0);
        lemma_small_mod(honest.eval(0) as nat, m as nat);
        assert(changed.eval(0) == honest.eval(0));
        lemma_add_mod_noop_right(honest.eval(0), honest.eval(1) + delta, m);
        lemma_shifted_differs(sum, delta, m);
        assert(changed.commitment() != honest.commitment());
    } else {
        lemma_pow0(0);
        assert(delta * pow(0, 0) == delta);
        lemma_add_mod_noop(honest.eval(0) + delta, honest.eval(1) + delta, m);
        assert(changed.commitment() == (sum + 2 * delta) % m);
        if (2 * delta) % m != 0 {
            lemma_shifted_differs(sum, 2 * delta, m);
        } else {
            lemma_add_mod_noop_right(sum, 2 * delta, m);
            assert(changed.commitment() == honest.commitment());
        }
    }
    if m % 2 == 1 {
        lemma_double_of_residue(delta, m);
    }
    let chunk = before.unread.take(width as int);
    let challenge = challenge_of(
        sponge_output(pattern, before.trace.push((true, chunk)), challenge_width(m)),
        m,
    );
    assert(before.verifier.round_outcome(honest, challenge) is Ok);
    assert(before.verifier.refusal(honest) is None);
    if changed.commitment() != honest.commitment() {
        // the round itself is refused
        assert(bad.outcome == Err::<(), Error>(changed_round_error(round, total, honest, changed)));
        lemma_failure_stays(pattern, other, round + 1, total);
    } else {
        // the constant coefficient was changed: the values differ everywhere
        assert forall|t: int| #[trigger] changed.eval(t) != honest.eval(t) by {
            lemma_pow0(t);
            assert(delta * pow(t, 0) == delta);
            lemma_mod_bound(entries_value(honest.coeffs, t), m);
            lemma_shifted_differs(honest.eval(t), delta, m);
            lemma_small_mod(honest.eval(t) as nat, m as nat);
        }
        let r = before.verifier.residue(challenge);
        assert(changed.eval(r as int) != honest.eval(r as int));
        if round + 1 == total {
            // the last round: the check against the polynomial fails
            assert(bad.outcome == Err::<(), Error>(Error::FinalOracleMismatch));
            lemma_failure_stays(pattern, other, round + 1, total);
        } else {
            // an earlier round: the next polynomial does not continue the changed one
            lemma_accepted_prefix(pattern, proof, round + 2, total);
            lemma_run_state(pattern, proof, round + 2);
            let next = proof.round_polys[round as int + 1];
            assert(other.round_polys[round as int + 1] == next);
            let worse = verifier_run(pattern, other, round + 2);
            assert(bad.outcome is Ok);
            assert(bad.verifier.expected() == changed.eval(r as int));
            assert(good.verifier.expected() == honest.eval(r as int));
            assert(bad.trace == good.trace);
            assert(bad.unread == good.unread);
            assert(good.verifier.refusal(next) is None);
            assert(bad.verifier.refusal(next) == Some(Error::RoundInconsistency));
            assert(worse.outcome == Err::<(), Error>(Error::RoundInconsistency));
            lemma_failure_stays(pattern, other, round + 2, total);
        }
    }
}

/// The double of a number that is no multiple of an odd modulus, and smaller than it in
/// size, is no multiple of the modulus either.
proof fn lemma_double_of_residue(delta: int, m: int)
    requires
        m > 0,
        m % 2 == 1,
        -m < delta < m,
        delta != 0,
    ensures
        (2 * delta) % m != 0,
{
    if (2 * delta) % m == 0 {
        let k = (2 * delta) / m;
        lemma_fundamental_div_mod(2 * delta, m);
        assert(2 * delta == m * k);
        assert(-2 < k < 2) by (nonlinear_arith)
            requires
                2 * delta == m * k,
                -m < delta < m,
                m > 0,
        ;
        assert(m * k == if k == 1 {
            m
        } else if k == -1 {
            -m
        } else {
            0
        }) by (nonlinear_arith)
            requires
                -2 < k < 2,
        ;
        assert(false);
    }
}

/// A residue changes where a number that is no multiple of the modulus is added.
proof fn lemma_shifted_differs(x: int, delta: int, m: int)
    requires
        m > 0,
        delta % m != 0,
    ensures
        (x + delta) % m != x % m,
{
    if (x + delta) % m == x % m {
        lemma_mod_equivalence(x + delta, x, m);
        assert(x + delta - x == delta);
    }
}

/// Reducing the first summand does not change the residue of a sum.
proof fn lemma_add_mod_noop_left_side(x: int, y: int, m: int)
    requires
        m > 0,
    ensures
        (x + y) % m == ((x % m) + y) % m,
{
    lemma_add_mod_noop_right(y, x, m);
}

} // verus!
