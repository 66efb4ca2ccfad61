//! The Fiat-Shamir transcript: `nimue`'s IO pattern, prover state and verifier state.
//!
//! Nothing in this file is proved. Each function states what the `nimue` call in its body
//! does, over the names declared here for what a pattern and a transcript hold. A
//! transcript is a sponge seeded by its pattern; what it answers depends on the pattern
//! and on the operations made so far, and on nothing else.

use crate::sumcheck::fiat_shamir::label_ok;
use crate::sumcheck::fiat_shamir::operation_tag;
use nimue::Arthur;
use nimue::ByteChallenges;
use nimue::ByteReader;
use nimue::ByteWriter;
use nimue::DefaultHash;
use nimue::DefaultRng;
use nimue::IOPattern;
use nimue::IOPatternError;
use nimue::Merlin;
use vstd::prelude::*;
use vstd::string::*;

verus! {

/// A `nimue` IO pattern over the default hash.
///
/// The pattern is held behind a private field and reached through the functions of this
/// file only: `nimue` bounds the type's parameters by its hash traits, which Verus does
/// not take in the declaration of an outside type.
#[verifier::external_body]
pub struct Schedule {
    inner: IOPattern<DefaultHash>,
}

/// The pattern string of a schedule, as bytes: what `IOPattern::as_bytes` returns.
pub uninterp spec fn schedule_bytes(schedule: Schedule) -> Seq<u8>;

/// One operation on a sponge: `true` with the bytes absorbed, or `false` with the bytes
/// squeezed.
pub type Step = (bool, Seq<u8>);

/// `nimue`'s `IOPatternError`, the error of a transcript operation that the schedule does
/// not admit. It is carried through and never looked into.
#[verifier::external_type_specification]
#[verifier::external_body]
pub struct ExIOPatternError(IOPatternError);

/// The prover's side of a transcript: a `nimue` `Merlin` over the default hash, held
/// like the pattern.
#[verifier::external_body]
pub struct ProverTranscript {
    inner: Merlin<DefaultHash, u8, DefaultRng>,
}

/// The verifier's side of a transcript: a `nimue` `Arthur` over the default hash, reading
/// the bytes that a prover wrote; held like the pattern.
#[verifier::external_body]
pub struct VerifierTranscript<'a> {
    inner: Arthur<'a, DefaultHash, u8>,
}

/// The pattern that the prover's transcript was made from.
pub uninterp spec fn writer_pattern(writer: ProverTranscript) -> Seq<u8>;

/// The operations that the prover's transcript has carried out, first to last: the
/// successful calls made through this file.
pub uninterp spec fn writer_trace(writer: ProverTranscript) -> Seq<Step>;

/// The bytes that the prover's transcript has recorded.
pub uninterp spec fn writer_bytes(writer: ProverTranscript) -> Seq<u8>;

/// The pattern that the verifier's transcript was made from.
pub uninterp spec fn reader_pattern(reader: VerifierTranscript) -> Seq<u8>;

/// The operations that the verifier's transcript has carried out, first to last: the
/// successful calls made through this file.
pub uninterp spec fn reader_trace(reader: VerifierTranscript) -> Seq<Step>;

/// The bytes that the verifier's transcript has not read yet.
pub uninterp spec fn reader_unread(reader: VerifierTranscript) -> Seq<u8>;

/// Whether a sponge made from `pattern` that has carried out `trace` admits the
/// absorption of `count` bytes as its next operation: whether `nimue`'s `Safe::absorb`,
/// which both sides of a transcript call, returns `Ok`.
pub uninterp spec fn absorb_admitted(pattern: Seq<u8>, trace: Seq<Step>, count: nat) -> bool;

/// Whether a sponge made from `pattern` that has carried out `trace` admits the squeeze
/// of `count` bytes as its next operation: whether `nimue`'s `Safe::squeeze`, which both
/// sides of a transcript call, returns `Ok`.
pub uninterp spec fn squeeze_admitted(pattern: Seq<u8>, trace: Seq<Step>, count: nat) -> bool;

/// The bytes that a sponge made from `pattern` yields when `count` bytes are squeezed
/// after `trace`: what `Safe::squeeze` writes to its output.
pub uninterp spec fn sponge_output(pattern: Seq<u8>, trace: Seq<Step>, count: nat) -> Seq<u8>;

/// Starts a pattern with `IOPattern::new`: the pattern is the domain separator, which
/// may hold no separator byte.
#[verifier::external_body]
pub(crate) fn pattern_new(domsep: &str) -> (r: Schedule)
    requires
        !domsep.spec_bytes().contains(0u8),
    ensures
        schedule_bytes(r) == domsep.spec_bytes(),
{
    Schedule { inner: IOPattern::new(domsep) }
}

/// Schedules an absorption with `IOPattern::absorb`, which appends the separator, the
/// letter `A`, the count in decimal and the label.
#[verifier::external_body]
pub(crate) fn pattern_absorb(schedule: Schedule, count: usize, label: &str) -> (r: Schedule)
    requires
        count > 0,
        label_ok(label.spec_bytes()),
    ensures
        schedule_bytes(r) == schedule_bytes(schedule) + operation_tag(
            65u8,
            count as nat,
            label.spec_bytes(),
        ),
{
    Schedule { inner: schedule.inner.absorb(count, label) }
}

/// Schedules a squeeze with `IOPattern::squeeze`, which appends the separator, the
/// letter `S`, the count in decimal and the label.
#[verifier::external_body]
pub(crate) fn pattern_squeeze(schedule: Schedule, count: usize, label: &str) -> (r: Schedule)
    requires
        count > 0,
        label_ok(label.spec_bytes()),
    ensures
        schedule_bytes(r) == schedule_bytes(schedule) + operation_tag(
            83u8,
            count as nat,
            label.spec_bytes(),
        ),
{
    Schedule { inner: schedule.inner.squeeze(count, label) }
}

/// Copies a pattern with `IOPattern`'s derived `clone`.
#[verifier::external_body]
fn pattern_clone(schedule: &Schedule) -> (r: Schedule)
    ensures
        schedule_bytes(r) == schedule_bytes(*schedule),
{
    Schedule { inner: schedule.inner.clone() }
}

/// Copies out the pattern string, which `IOPattern::as_bytes` exposes as a slice.
#[verifier::external_body]
fn pattern_bytes(schedule: &Schedule) -> (r: Vec<u8>)
    ensures
        r@ == schedule_bytes(*schedule),
{
    schedule.inner.as_bytes().to_vec()
}

/// Makes the prover's transcript with `IOPattern::to_merlin`: a sponge seeded by the
/// pattern, with nothing absorbed and nothing recorded.
#[verifier::external_body]
fn pattern_to_merlin(schedule: &Schedule) -> (r: ProverTranscript)
    ensures
        writer_pattern(r) == schedule_bytes(*schedule),
        writer_trace(r) == Seq::<Step>::empty(),
        writer_bytes(r) == Seq::<u8>::empty(),
{
    ProverTranscript { inner: schedule.inner.to_merlin() }
}

/// Makes the verifier's transcript with `IOPattern::to_arthur`: a sponge seeded by the
/// pattern, with nothing absorbed and all of `transcript` to read.
#[verifier::external_body]
fn pattern_to_arthur<'a>(schedule: &Schedule, transcript: &'a [u8]) -> (r: VerifierTranscript<'a>)
    ensures
        reader_pattern(r) == schedule_bytes(*schedule),
        reader_trace(r) == Seq::<Step>::empty(),
        reader_unread(r) == transcript@,
{
    VerifierTranscript { inner: schedule.inner.to_arthur(transcript) }
}

/// Absorbs and records bytes with `Merlin`'s `add_bytes`. The call succeeds exactly
/// where the schedule admits the absorption; the input is then absorbed by the sponge
/// and appended to the recorded bytes.
#[verifier::external_body]
pub(crate) fn writer_add_bytes(writer: &mut ProverTranscript, input: &[u8]) -> (r: Result<
    (),
    IOPatternError,
>)
    ensures
        r is Ok <==> absorb_admitted(
            writer_pattern(*old(writer)),
            writer_trace(*old(writer)),
            input@.len(),
        ),
        r is Ok ==> writer_pattern(*final(writer)) == writer_pattern(*old(writer)),
        r is Ok ==> writer_trace(*final(writer)) == writer_trace(*old(writer)).push(
            (true, input@),
        ),
        r is Ok ==> writer_bytes(*final(writer)) == writer_bytes(*old(writer)) + input@,
{
    writer.inner.add_bytes(input)
}

/// Squeezes `count` challenge bytes with `Merlin`'s `fill_challenge_bytes`. The call
/// succeeds exactly where the schedule admits the squeeze; the bytes are what the sponge
/// yields after the operations so far, and nothing is recorded.
#[verifier::external_body]
pub(crate) fn writer_challenge_bytes(writer: &mut ProverTranscript, count: usize) -> (r: Result<
    Vec<u8>,
    IOPatternError,
>)
    ensures
        r is Ok <==> squeeze_admitted(
            writer_pattern(*old(writer)),
            writer_trace(*old(writer)),
            count as nat,
        ),
        r is Ok ==> r->Ok_0@.len() == count,
        r is Ok ==> r->Ok_0@ == sponge_output(
            writer_pattern(*old(writer)),
            writer_trace(*old(writer)),
            count as nat,
        ),
        r is Ok ==> writer_pattern(*final(writer)) == writer_pattern(*old(writer)),
        r is Ok ==> writer_trace(*final(writer)) == writer_trace(*old(writer)).push(
            (false, r->Ok_0@),
        ),
        r is Ok ==> writer_bytes(*final(writer)) == writer_bytes(*old(writer)),
{
    let mut output = vec![0u8; count];
    writer.inner.fill_challenge_bytes(&mut output).map(|()| output)
}

/// Copies out the recorded bytes, which `Merlin::transcript` exposes as a slice.
#[verifier::external_body]
pub(crate) fn writer_transcript(writer: &ProverTranscript) -> (r: Vec<u8>)
    ensures
        r@ == writer_bytes(*writer),
{
    writer.inner.transcript().to_vec()
}

/// Reads and absorbs the next `count` bytes with `Arthur`'s `fill_next_bytes`. The call
/// succeeds exactly where that many bytes are left and the schedule admits the
/// absorption; the bytes read are then the next unread ones, and the sponge has absorbed
/// them.
#[verifier::external_body]
pub(crate) fn reader_next_bytes(reader: &mut VerifierTranscript, count: usize) -> (r: Result<
    Vec<u8>,
    IOPatternError,
>)
    ensures
        r is Ok <==> reader_unread(*old(reader)).len() >= count && absorb_admitted(
            reader_pattern(*old(reader)),
            reader_trace(*old(reader)),
            count as nat,
        ),
        r is Ok ==> r->Ok_0@ == reader_unread(*old(reader)).take(count as int),
        r is Ok ==> reader_unread(*final(reader)) == reader_unread(*old(reader)).skip(
            count as int,
        ),
        r is Ok ==> reader_pattern(*final(reader)) == reader_pattern(*old(reader)),
        r is Ok ==> reader_trace(*final(reader)) == reader_trace(*old(reader)).push(
            (true, r->Ok_0@),
        ),
{
    let mut input = vec![0u8; count];
    reader.inner.fill_next_bytes(&mut input).map(|()| input)
}

/// Squeezes `count` challenge bytes with `Arthur`'s `fill_challenge_bytes`. The call
/// succeeds exactly where the schedule admits the squeeze; the bytes are what the sponge
/// yields after the operations so far, and nothing is read.
#[verifier::external_body]
pub(crate) fn reader_challenge_bytes(reader: &mut VerifierTranscript, count: usize) -> (r: Result<
    Vec<u8>,
    IOPatternError,
>)
    ensures
        r is Ok <==> squeeze_admitted(
            reader_pattern(*old(reader)),
            reader_trace(*old(reader)),
            count as nat,
        ),
        r is Ok ==> r->Ok_0@.len() == count,
        r is Ok ==> r->Ok_0@ == sponge_output(
            reader_pattern(*old(reader)),
            reader_trace(*old(reader)),
            count as nat,
        ),
        r is Ok ==> reader_pattern(*final(reader)) == reader_pattern(*old(reader)),
        r is Ok ==> reader_trace(*final(reader)) == reader_trace(*old(reader)).push(
            (false, r->Ok_0@),
        ),
        r is Ok ==> reader_unread(*final(reader)) == reader_unread(*old(reader)),
{
    let mut output = vec![0u8; count];
    reader.inner.fill_challenge_bytes(&mut output).map(|()| output)
}

impl Clone for Schedule {
    fn clone(&self) -> (r: Self)
        ensures
            schedule_bytes(r) == schedule_bytes(*self),
    {
        pattern_clone(self)
    }
}

impl Schedule {
    /// The pattern string, as bytes.
    pub fn as_bytes(&self) -> (r: Vec<u8>)
        ensures
            r@ == schedule_bytes(*self),
    {
        pattern_bytes(self)
    }

    /// The prover's transcript for this schedule: nothing absorbed, nothing recorded.
    pub fn to_merlin(&self) -> (r: ProverTranscript)
        ensures
            writer_pattern(r) == schedule_bytes(*self),
            writer_trace(r) == Seq::<Step>::empty(),
            writer_bytes(r) == Seq::<u8>::empty(),
    {
        pattern_to_merlin(self)
    }

    /// The verifier's transcript for this schedule over the bytes that a prover wrote.
    pub fn to_arthur<'a>(&self, transcript: &'a [u8]) -> (r: VerifierTranscript<'a>)
        ensures
            reader_pattern(r) == schedule_bytes(*self),
            reader_trace(r) == Seq::<Step>::empty(),
            reader_unread(r) == transcript@,
    {
        pattern_to_arthur(self, transcript)
    }
}

impl ProverTranscript {
    /// The bytes recorded so far.
    pub fn transcript(&self) -> (r: Vec<u8>)
        ensures
            r@ == writer_bytes(*self),
    {
        writer_transcript(self)
    }
}

} // verus!
