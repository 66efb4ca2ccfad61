//! The non-interactive protocol: the verifier's challenges are squeezed from a
//! transcript of everything the prover has sent.
//!
//! In each round the prover absorbs the round's commitment, the round polynomial at
//! zero plus the round polynomial at one, and squeezes the round's challenge. The
//! verifier reads the commitments back from the recorded bytes, holds them against the
//! round polynomials of the proof, and squeezes the same challenges.

use crate::error::Error;
use crate::polynomial::MultivariatePolynomial;
use crate::polynomial::PolyModel;
use crate::sumcheck::completeness::honest_round_poly;
use crate::sumcheck::completeness::prover_start;
use crate::sumcheck::fiat_shamir::challenge_width;
use crate::sumcheck::fiat_shamir::challenge_width_of;
use crate::sumcheck::fiat_shamir::scalar_width;
use crate::sumcheck::fiat_shamir::scalar_width_of;
use crate::sumcheck::transcript::absorb_admitted;
use crate::sumcheck::transcript::reader_challenge_bytes;
use crate::sumcheck::transcript::reader_next_bytes;
use crate::sumcheck::transcript::reader_pattern;
use crate::sumcheck::transcript::reader_trace;
use crate::sumcheck::transcript::reader_unread;
use crate::sumcheck::transcript::schedule_bytes;
use crate::sumcheck::transcript::sponge_output;
use crate::sumcheck::transcript::squeeze_admitted;
use crate::sumcheck::transcript::writer_add_bytes;
use crate::sumcheck::transcript::writer_bytes;
use crate::sumcheck::transcript::writer_challenge_bytes;
use crate::sumcheck::transcript::writer_pattern;
use crate::sumcheck::transcript::writer_trace;
use crate::sumcheck::transcript::writer_transcript;
use crate::sumcheck::transcript::ProverTranscript;
use crate::sumcheck::transcript::Schedule;
use crate::sumcheck::transcript::Step;
use crate::sumcheck::Prover;
use crate::sumcheck::ProverModel;
use crate::sumcheck::Verifier;
use crate::sumcheck::VerifierModel;
use crate::univariate::UniModel;
use crate::univariate::UnivariatePolynomial;
use vstd::arithmetic::div_mod::*;
use vstd::arithmetic::mul::*;
use vstd::arithmetic::power::*;
use vstd::arithmetic::power2::pow2;
use vstd::prelude::*;

verus! {

/// The little-endian encoding of `value` in `width` bytes: byte `i` is digit `i` of the
/// value in base 256.
pub open spec fn encode_scalar(value: nat, width: nat) -> Seq<u8> {
    Seq::new(width, |i: int| ((value / pow(256, i as nat) as nat) % 256) as u8)
}

/// The number that `bytes` spell in base 256, most significant byte first.
pub open spec fn be_value(bytes: Seq<u8>) -> nat
    decreases bytes.len(),
{
    if bytes.len() == 0 {
        0
    } else {
        be_value(bytes.drop_last()) * 256 + bytes.last() as nat
    }
}

/// The challenge that squeezed bytes stand for: their big-endian value as a residue.
pub open spec fn challenge_of(bytes: Seq<u8>, modulus: int) -> u64 {
    (be_value(bytes) as int % modulus) as u64
}

/// The commitment that an honest prover sends in its current round.
pub open spec fn commitment_of(prover: ProverModel) -> int {
    (prover.round_value(0) + prover.round_value(1)) % prover.poly.modulus
}

/// The little-endian encoding of `value` in `width` bytes.
pub fn encode_scalar_bytes(value: u64, width: usize) -> (r: Vec<u8>)
    ensures
        r@ == encode_scalar(value as nat, width as nat),
{
    let mut bytes: Vec<u8> = Vec::new();
    let mut rest: u64 = value;
    let mut i: usize = 0;
    proof {
        lemma_pow0(256);
        assert(pow(256, 0nat) as nat == 1);
        assert(value as nat / 1 == value);
    }
    while i < width
        invariant
            i <= width,
            bytes@.len() == i,
            rest == value as nat / pow(256, i as nat) as nat,
            pow(256, i as nat) > 0,
            forall|k: int|
                0 <= k < i ==> #[trigger] bytes@[k] == ((value as nat / pow(256, k as nat) as nat)
                    % 256) as u8,
        decreases width - i,
    {
        bytes.push((rest % 256) as u8);
        proof {
            lemma_pow_adds(256, i as nat, 1);
            lemma_pow1(256);
            lemma_pow_positive(256, (i + 1) as nat);
            lemma_div_denominator(value as int, pow(256, i as nat), 256);
        }
        rest = rest / 256;
        i += 1;
    }
    proof {
        assert(bytes@ =~= encode_scalar(value as nat, width as nat));
    }
    bytes
}

/// The challenge that squeezed bytes stand for: their big-endian value modulo `P`.
pub fn challenge_from_bytes<const P: u64>(bytes: &Vec<u8>) -> (r: u64)
    requires
        P >= 2,
    ensures
        r == challenge_of(bytes@, P as int),
        r < P,
{
    let mut value: u64 = 0;
    let mut i: usize = 0;
    proof {
        lemma_small_mod(0, P as nat);
        assert(bytes@.take(0).len() == 0);
    }
    while i < bytes.len()
        invariant
            P >= 2,
            i <= bytes.len(),
            value == be_value(bytes@.take(i as int)) as int % (P as int),
            value < P,
        decreases bytes.len() - i,
    {
        let wide: u128 = (value as u128) * 256 + (bytes[i] as u128);
        proof {
            let head = bytes@.take(i as int);
            let next = bytes@.take(i + 1);
            assert(next.drop_last() =~= head);
            assert(next.last() == bytes@[i as int]);
            lemma_mul_mod_noop_left(be_value(head) as int, 256, P as int);
            lemma_add_mod_noop_right(bytes@[i as int] as int, be_value(head) as int * 256, P as int);
            lemma_add_mod_noop_right(bytes@[i as int] as int, value as int * 256, P as int);
        }
        value = (wide % (P as u128)) as u64;
        i += 1;
    }
    proof {
        assert(bytes@.take(i as int) =~= bytes@);
    }
    value
}

/// A proof as contracts see it.
pub struct ProofModel {
    pub solution: int,
    pub poly: PolyModel,
    pub round_polys: Seq<UniModel>,
    pub transcript: Seq<u8>,
}

impl ProofModel {
    /// The polynomials are well formed over one modulus.
    pub open spec fn wf(self) -> bool {
        &&& self.poly.wf()
        &&& forall|j: int|
            0 <= j < self.round_polys.len() ==> (#[trigger] self.round_polys[j]).wf()
                && self.round_polys[j].modulus == self.poly.modulus
    }
}

/// A non-interactive proof: the claimed sum, the polynomial it is claimed for, one
/// polynomial for each round, and the bytes that the prover's transcript recorded.
pub struct SumCheckProof<const P: u64> {
    solution: u64,
    poly: MultivariatePolynomial<P>,
    round_polys: Vec<UnivariatePolynomial<P>>,
    transcript: Vec<u8>,
}

/// How contracts see a list of round polynomials.
pub open spec fn round_polys_model<const P: u64>(round_polys: Seq<UnivariatePolynomial<P>>) -> Seq<
    UniModel,
> {
    Seq::new(round_polys.len(), |j: int| round_polys[j]@)
}

impl<const P: u64> View for SumCheckProof<P> {
    type V = ProofModel;

    closed spec fn view(&self) -> ProofModel {
        ProofModel {
            solution: self.solution as int,
            poly: self.poly@,
            round_polys: round_polys_model(self.round_polys@),
            transcript: self.transcript@,
        }
    }
}

impl<const P: u64> SumCheckProof<P> {
    /// Well-formedness of the stored proof, over the residues modulo `P`.
    pub open spec fn wf(&self) -> bool {
        self@.wf() && self@.poly.modulus == P
    }

    /// A proof made of the given parts.
    pub fn new(
        solution: u64,
        poly: MultivariatePolynomial<P>,
        round_polys: Vec<UnivariatePolynomial<P>>,
        transcript: Vec<u8>,
    ) -> (r: Self)
        requires
            poly.wf(),
            forall|j: int| 0 <= j < round_polys@.len() ==> (#[trigger] round_polys@[j]).wf(),
        ensures
            r.wf(),
            r@ == (ProofModel {
                solution: solution as int,
                poly: poly@,
                round_polys: round_polys_model(round_polys@),
                transcript: transcript@,
            }),
    {
        SumCheckProof { solution, poly, round_polys, transcript }
    }

    /// The claimed sum.
    pub fn solution(&self) -> (r: u64)
        ensures
            r == self@.solution,
    {
        self.solution
    }

    /// The polynomial that the sum is claimed for.
    pub fn poly(&self) -> (r: &MultivariatePolynomial<P>)
        ensures
            r@ == self@.poly,
    {
        &self.poly
    }

    /// The round polynomials, first round first.
    pub fn round_polys(&self) -> (r: &Vec<UnivariatePolynomial<P>>)
        ensures
            round_polys_model(r@) == self@.round_polys,
    {
        &self.round_polys
    }

    /// The bytes that the prover's transcript recorded.
    pub fn transcript(&self) -> (r: &Vec<u8>)
        ensures
            r@ == self@.transcript,
    {
        &self.transcript
    }
}

/// The prover's side of a run after some rounds: whether the schedule admitted every
/// operation, the prover's state, the sponge's operations, the bytes recorded and the
/// challenges squeezed.
pub struct ProverRun {
    pub admitted: bool,
    pub prover: ProverModel,
    pub trace: Seq<Step>,
    pub bytes: Seq<u8>,
    pub challenges: Seq<u64>,
}

/// The prover's side of the first `rounds` rounds of a run for `poly`, on a sponge made
/// from `pattern` that has carried out `start` before.
pub open spec fn prover_run(pattern: Seq<u8>, start: Seq<Step>, poly: PolyModel, rounds: nat) -> ProverRun
    decreases rounds,
{
    if rounds == 0 {
        ProverRun {
            admitted: true,
            prover: prover_start(poly),
            trace: start,
            bytes: Seq::empty(),
            challenges: Seq::empty(),
        }
    } else {
        let before = prover_run(pattern, start, poly, (rounds - 1) as nat);
        let sent = encode_scalar(commitment_of(before.prover) as nat, scalar_width(poly.modulus));
        let absorbed = before.trace.push((true, sent));
        let squeezed = sponge_output(pattern, absorbed, challenge_width(poly.modulus));
        let challenge = challenge_of(squeezed, poly.modulus);
        ProverRun {
            admitted: before.admitted && absorb_admitted(
                pattern,
                before.trace,
                scalar_width(poly.modulus),
            ) && squeeze_admitted(pattern, absorbed, challenge_width(poly.modulus)),
            prover: before.prover.advance(challenge),
            trace: absorbed.push((false, squeezed)),
            bytes: before.bytes + sent,
            challenges: before.challenges.push(challenge),
        }
    }
}

/// The verifier's side of a run after some rounds: the first failure if there was one,
/// the verifier's state, the sponge's operations and the bytes still to read.
pub struct VerifierRun {
    pub outcome: Result<(), Error>,
    pub verifier: VerifierModel,
    pub trace: Seq<Step>,
    pub unread: Seq<u8>,
}

/// The verifier's side of the first `rounds` rounds of checking `proof`, on a sponge
/// made from `pattern`.
///
/// In each round the recorded commitment is read and absorbed, the challenge is
/// squeezed, the verifier checks the round polynomial with that challenge, and the bytes
/// that were read are held against the polynomial's commitment. The round fails with
/// `TranscriptScheduleMismatch` where the recorded bytes end early or the schedule does
/// not admit the operations; with the verifier's error where the verifier refuses the
/// polynomial; and with `TranscriptScheduleMismatch` again where the verifier accepts the
/// polynomial but the recorded bytes are not its commitment. After a failure nothing
/// more is done.
pub open spec fn verifier_run(pattern: Seq<u8>, proof: ProofModel, rounds: nat) -> VerifierRun
    decreases rounds,
{
    if rounds == 0 {
        VerifierRun {
            outcome: Ok(()),
            verifier: VerifierModel::start(proof.solution, proof.poly),
            trace: Seq::empty(),
            unread: proof.transcript,
        }
    } else {
        let before = verifier_run(pattern, proof, (rounds - 1) as nat);
        let modulus = proof.poly.modulus;
        let width = scalar_width(modulus);
        let sent = proof.round_polys[rounds - 1];
        let chunk = before.unread.take(width as int);
        let absorbed = before.trace.push((true, chunk));
        let squeezed = sponge_output(pattern, absorbed, challenge_width(modulus));
        let challenge = challenge_of(squeezed, modulus);
        if before.outcome is Err {
            before
        } else if before.unread.len() < width || !absorb_admitted(pattern, before.trace, width)
            || !squeeze_admitted(pattern, absorbed, challenge_width(modulus)) {
            VerifierRun {
                outcome: Err(Error::TranscriptScheduleMismatch),
                verifier: before.verifier,
                trace: before.trace,
                unread: before.unread,
            }
        } else {
            VerifierRun {
                outcome: match before.verifier.round_outcome(sent, challenge) {
                    Err(e) => Err(e),
                    Ok(_) => if chunk != encode_scalar(sent.commitment() as nat, width) {
                        Err(Error::TranscriptScheduleMismatch)
                    } else {
                        Ok(())
                    },
                },
                verifier: before.verifier.after_round(sent, challenge),
                trace: absorbed.push((false, squeezed)),
                unread: before.unread.skip(width as int),
            }
        }
    }
}

/// The outcome of checking `proof` on a sponge made from `pattern`: a mismatch where the
/// proof does not hold one polynomial for each round, the outcome of the rounds
/// otherwise.
pub open spec fn verify_outcome(pattern: Seq<u8>, proof: ProofModel) -> Result<(), Error> {
    if proof.round_polys.len() != proof.poly.num_vars {
        Err(Error::TranscriptScheduleMismatch)
    } else {
        verifier_run(pattern, proof, proof.poly.num_vars as nat).outcome
    }
}

/// A run that the schedule admits to the end was admitted all the way.
pub proof fn lemma_admitted_prefix(
    pattern: Seq<u8>,
    start: Seq<Step>,
    poly: PolyModel,
    rounds: nat,
    total: nat,
)
    requires
        rounds <= total,
        prover_run(pattern, start, poly, total).admitted,
    ensures
        prover_run(pattern, start, poly, rounds).admitted,
    decreases total - rounds,
{
    if rounds < total {
        lemma_admitted_prefix(pattern, start, poly, rounds + 1, total);
    }
}

/// Proves the claim about `poly`'s sum over the hypercube, with the challenges squeezed
/// from `writer`.
///
/// The prover runs all of its rounds. In each it computes the round polynomial, absorbs
/// its commitment as one field element, squeezes the challenge and applies it. The
/// proof holds the claimed sum, the polynomial, the round polynomials and all the bytes
/// that the transcript has recorded. Where the transcript's schedule does not admit one
/// of the operations, the run ends with `TranscriptScheduleMismatch`.
#[verifier::loop_isolation(false)]
pub fn prove<const P: u64>(writer: &mut ProverTranscript, poly: MultivariatePolynomial<P>) -> (r:
    Result<SumCheckProof<P>, Error>)
    requires
        poly.wf(),
        pow2(poly@.num_vars as nat) <= usize::MAX,
    ensures
        r is Ok <==> prover_run(
            writer_pattern(*old(writer)),
            writer_trace(*old(writer)),
            poly@,
            poly@.num_vars as nat,
        ).admitted,
        r is Err ==> r == Err::<SumCheckProof<P>, Error>(Error::TranscriptScheduleMismatch),
        r is Ok ==> is_proof_of(
            r->Ok_0@,
            writer_pattern(*old(writer)),
            writer_trace(*old(writer)),
            writer_bytes(*old(writer)),
            poly@,
        ),
        r is Ok ==> r->Ok_0.wf(),
        r is Ok ==> writer_pattern(*final(writer)) == writer_pattern(*old(writer)),
        r is Ok ==> writer_trace(*final(writer)) == prover_run(
            writer_pattern(*old(writer)),
            writer_trace(*old(writer)),
            poly@,
            poly@.num_vars as nat,
        ).trace,
        r is Ok ==> writer_bytes(*final(writer)) == r->Ok_0@.transcript,
{
    let ghost pattern = writer_pattern(*writer);
    let ghost start = writer_trace(*writer);
    let ghost recorded = writer_bytes(*writer);
    let ghost target = poly@;
    let ghost total = poly@.num_vars as nat;
    let mut prover = Prover::<P>::new(poly.clone());
    let solution = prover.calculate_sum();
    let mut round_polys: Vec<UnivariatePolynomial<P>> = Vec::new();
    let width = scalar_width_of(P);
    let squeeze = challenge_width_of(P);
    let rounds = prover.total_rounds();
    let mut i: usize = 0;
    while i < rounds
        invariant
            P >= 2,
            poly.wf(),
            target == poly@,
            total == target.num_vars,
            rounds == total,
            i <= rounds,
            width == scalar_width(P as int),
            squeeze == challenge_width(P as int),
            prover.wf(),
            prover@ == prover_run(pattern, start, target, i as nat).prover,
            prover@.total_rounds == total,
            prover@.actual_round == i,
            prover_run(pattern, start, target, i as nat).admitted,
            writer_pattern(*writer) == pattern,
            writer_trace(*writer) == prover_run(pattern, start, target, i as nat).trace,
            writer_bytes(*writer) == recorded + prover_run(pattern, start, target, i as nat).bytes,
            round_polys@.len() == i,
            forall|j: int|
                0 <= j < i ==> (#[trigger] round_polys@[j]).wf() && honest_round_poly(
                    prover_run(pattern, start, target, j as nat).prover,
                    round_polys@[j]@,
                ) && prover_run(pattern, start, target, j as nat).prover.is_round_poly(
                    round_polys@[j]@,
                ),
        decreases rounds - i,
    {
        let ghost before = prover_run(pattern, start, target, i as nat);
        let round_poly = prover.calculate_round_poly();
        let commit = round_poly.commitment();
        proof {
            assert(round_poly@.eval(0) == prover@.round_value(0));
            assert(round_poly@.eval(1) == prover@.round_value(1));
            assert(commit == commitment_of(before.prover));
        }
        let sent = encode_scalar_bytes(commit, width);
        match writer_add_bytes(writer, sent.as_slice()) {
            Ok(_) => {},
            Err(_) => {
                proof {
                    assert(!prover_run(pattern, start, target, (i + 1) as nat).admitted);
                    if prover_run(pattern, start, target, total).admitted {
                        lemma_admitted_prefix(pattern, start, target, (i + 1) as nat, total);
                    }
                }
                return Err(Error::TranscriptScheduleMismatch);
            },
        }
        let squeezed = match writer_challenge_bytes(writer, squeeze) {
            Ok(squeezed) => squeezed,
            Err(_) => {
                proof {
                    assert(!prover_run(pattern, start, target, (i + 1) as nat).admitted);
                    if prover_run(pattern, start, target, total).admitted {
                        lemma_admitted_prefix(pattern, start, target, (i + 1) as nat, total);
                    }
                }
                return Err(Error::TranscriptScheduleMismatch);
            },
        };
        let challenge = challenge_from_bytes::<P>(&squeezed);
        prover.update_random_vars(challenge);
        round_polys.push(round_poly);
        proof {
            let after = prover_run(pattern, start, target, (i + 1) as nat);
            assert(after.trace == writer_trace(*writer));
            assert(recorded + (before.bytes + sent@) =~= (recorded + before.bytes) + sent@);
        }
        i += 1;
    }
    let transcript = writer_transcript(writer);
    let proof = SumCheckProof { solution, poly, round_polys, transcript };
    proof {
        assert(proof@.round_polys.len() == total);
        assert forall|j: int| 0 <= j < total implies honest_round_poly(
            prover_run(pattern, start, target, j as nat).prover,
            #[trigger] proof@.round_polys[j],
        ) && prover_run(pattern, start, target, j as nat).prover.is_round_poly(
            proof@.round_polys[j],
        ) by {
            assert(proof@.round_polys[j] == proof.round_polys@[j]@);
        }
        assert forall|j: int| 0 <= j < proof@.round_polys.len() implies (
        #[trigger] proof@.round_polys[j]).wf() && proof@.round_polys[j].modulus
            == proof@.poly.modulus by {
            assert(proof@.round_polys[j] == proof.round_polys@[j]@);
        }
    }
    Ok(proof)
}

/// `proof` is what an honest prover makes of `poly` on a sponge made from `pattern`
/// that has carried out `start` and recorded `recorded` before: the claimed sum is the
/// polynomial's sum, each round polynomial is the honest one for the challenges squeezed
/// so far, and the transcript holds the commitments after what was recorded before.
pub open spec fn is_proof_of(
    proof: ProofModel,
    pattern: Seq<u8>,
    start: Seq<Step>,
    recorded: Seq<u8>,
    poly: PolyModel,
) -> bool {
    &&& proof.solution == prover_start(poly).claimed_sum()
    &&& proof.poly == poly
    &&& proof.round_polys.len() == poly.num_vars
    &&& forall|j: int|
        0 <= j < poly.num_vars ==> honest_round_poly(
            prover_run(pattern, start, poly, j as nat).prover,
            #[trigger] proof.round_polys[j],
        ) && prover_run(pattern, start, poly, j as nat).prover.is_round_poly(proof.round_polys[j])
    &&& proof.transcript == recorded + prover_run(
        pattern,
        start,
        poly,
        poly.num_vars as nat,
    ).bytes
}

/// Checks `proof` under the schedule `io`.
///
/// The verifier is set up with the proof's claimed sum and polynomial. For each round
/// the commitment is read back from the proof's transcript, the challenge is squeezed,
/// the round polynomial is verified with that challenge, and the bytes that were read
/// are held against the polynomial's commitment. The first failure is the result.
#[verifier::loop_isolation(false)]
pub fn verify<const P: u64>(io: Schedule, proof: SumCheckProof<P>) -> (r: Result<(), Error>)
    requires
        proof.wf(),
    ensures
        r == verify_outcome(schedule_bytes(io), proof@),
{
    let ghost pattern = schedule_bytes(io);
    let ghost model = proof@;
    let SumCheckProof { solution, poly, round_polys, transcript } = proof;
    let rounds = poly.num_vars();
    if round_polys.len() != rounds {
        return Err(Error::TranscriptScheduleMismatch);
    }
    let mut reader = io.to_arthur(transcript.as_slice());
    let mut verifier = Verifier::<P>::new(solution, poly);
    let width = scalar_width_of(P);
    let squeeze = challenge_width_of(P);
    let mut i: usize = 0;
    while i < rounds
        invariant
            P >= 2,
            model.wf(),
            model.poly.modulus == P,
            model.round_polys == round_polys_model(round_polys@),
            round_polys@.len() == rounds,
            rounds == model.poly.num_vars,
            i <= rounds,
            width == scalar_width(P as int),
            squeeze == challenge_width(P as int),
            verifier.wf(),
            verifier_run(pattern, model, i as nat).outcome is Ok,
            verifier@ == verifier_run(pattern, model, i as nat).verifier,
            reader_pattern(reader) == pattern,
            reader_trace(reader) == verifier_run(
                pattern,
                model,
                i as nat,
            ).trace,
            reader_unread(reader) == verifier_run(
                pattern,
                model,
                i as nat,
            ).unread,
        decreases rounds - i,
    {
        let ghost before = verifier_run(pattern, model, i as nat);
        let ghost after = verifier_run(pattern, model, (i + 1) as nat);
        let round_poly = round_polys[i].clone();
        proof {
            assert(model.round_polys[i as int] == round_polys@[i as int]@);
            assert(model.round_polys[i as int].wf());
        }
        let chunk = match reader_next_bytes(&mut reader, width) {
            Ok(chunk) => chunk,
            Err(_) => {
                proof {
                    lemma_failure_stays(pattern, model, (i + 1) as nat, rounds as nat);
                }
                return Err(Error::TranscriptScheduleMismatch);
            },
        };
        let squeezed = match reader_challenge_bytes(&mut reader, squeeze) {
            Ok(squeezed) => squeezed,
            Err(_) => {
                proof {
                    lemma_failure_stays(pattern, model, (i + 1) as nat, rounds as nat);
                }
                return Err(Error::TranscriptScheduleMismatch);
            },
        };
        let challenge = challenge_from_bytes::<P>(&squeezed);
        let expected = encode_scalar_bytes(round_poly.commitment(), width);
        match verifier.verify_round_with(round_poly, challenge) {
            Ok(_) => {},
            Err(e) => {
                proof {
                    lemma_failure_stays(pattern, model, (i + 1) as nat, rounds as nat);
                }
                return Err(e);
            },
        }
        if !same_bytes(&chunk, &expected) {
            proof {
                lemma_failure_stays(pattern, model, (i + 1) as nat, rounds as nat);
            }
            return Err(Error::TranscriptScheduleMismatch);
        }
        i += 1;
    }
    Ok(())
}

/// Whether two byte strings are equal.
fn same_bytes(a: &Vec<u8>, b: &Vec<u8>) -> (r: bool)
    ensures
        r == (a@ == b@),
{
    if a.len() != b.len() {
        return false;
    }
    let mut i: usize = 0;
    while i < a.len()
        invariant
            a@.len() == b@.len(),
            i <= a.len(),
            forall|k: int| 0 <= k < i ==> a@[k] == b@[k],
        decreases a.len() - i,
    {
        if a[i] != b[i] {
            return false;
        }
        i += 1;
    }
    proof {
        assert(a@ =~= b@);
    }
    true
}

/// A failure is final: the outcome of a run that has failed does not change in later
/// rounds.
pub proof fn lemma_failure_stays(pattern: Seq<u8>, proof: ProofModel, rounds: nat, total: nat)
    requires
        rounds <= total,
        verifier_run(pattern, proof, rounds).outcome is Err,
    ensures
        verifier_run(pattern, proof, total).outcome == verifier_run(pattern, proof, rounds).outcome,
    decreases total - rounds,
{
    if rounds < total {
        lemma_failure_stays(pattern, proof, rounds + 1, total);
    }
}

} // verus!
