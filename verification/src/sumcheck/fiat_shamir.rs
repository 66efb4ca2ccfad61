//! The schedule of transcript operations of a Sum-Check run.
//!
//! Both sides fix the schedule before any data is exchanged: a domain separator and, for
//! each round, the absorption of one field element, the round's commitment, followed by
//! the squeeze of one challenge. The schedule is a `nimue` IO pattern, a byte string
//! that seeds the sponge.

use crate::polynomial::MultivariatePolynomial;
use crate::sumcheck::transcript::pattern_absorb;
use crate::sumcheck::transcript::pattern_new;
use crate::sumcheck::transcript::pattern_squeeze;
use crate::sumcheck::transcript::schedule_bytes;
use crate::sumcheck::transcript::Schedule;
use vstd::arithmetic::power2::*;
use vstd::prelude::*;
use vstd::string::*;

verus! {

/// The decimal digits of `n` in ASCII, without leading zeros.
pub open spec fn decimal(n: nat) -> Seq<u8>
    decreases n,
{
    if n < 10 {
        seq![(48 + n) as u8]
    } else {
        decimal(n / 10).push((48 + n % 10) as u8)
    }
}

/// What one operation adds to a pattern: the separator, the operation's letter, the
/// count in decimal and the label.
pub open spec fn operation_tag(letter: u8, count: nat, label: Seq<u8>) -> Seq<u8> {
    seq![0u8, letter] + decimal(count) + label
}

/// The number of binary digits of `n`.
pub open spec fn bit_length(n: nat) -> nat
    decreases n,
{
    if n == 0 {
        0
    } else {
        1 + bit_length(n / 2)
    }
}

/// The number of bytes that hold one field element: the modulus's bits, rounded up.
pub open spec fn scalar_width(modulus: int) -> nat {
    (bit_length(modulus as nat) + 7) / 8
}

/// The number of bytes squeezed for one challenge: sixteen more than the modulus
/// needs, so that their residue is close to uniform.
pub open spec fn challenge_width(modulus: int) -> nat {
    (bit_length(modulus as nat) + 128) / 8
}

/// The label of a round's absorption.
pub open spec fn commitment_label() -> Seq<u8> {
    "Univariate polynomial coefficients".spec_bytes()
}

/// The label of a round's squeeze.
pub open spec fn challenge_label() -> Seq<u8> {
    "random scalar challenge".spec_bytes()
}

/// What one round adds to a pattern.
pub open spec fn round_tags(modulus: int) -> Seq<u8> {
    operation_tag(65u8, scalar_width(modulus), commitment_label()) + operation_tag(
        83u8,
        challenge_width(modulus),
        challenge_label(),
    )
}

/// `pattern` followed by the operations of `rounds` rounds.
pub open spec fn with_rounds(pattern: Seq<u8>, modulus: int, rounds: nat) -> Seq<u8>
    decreases rounds,
{
    if rounds == 0 {
        pattern
    } else {
        with_rounds(pattern, modulus, (rounds - 1) as nat) + round_tags(modulus)
    }
}

/// A label may hold no separator byte and may not begin with a digit.
pub open spec fn label_ok(label: Seq<u8>) -> bool {
    !label.contains(0u8) && (label.len() > 0 ==> !(48 <= label[0] <= 57))
}

/// The number of binary digits of `n`.
pub fn bit_length_of(n: u64) -> (r: usize)
    ensures
        r == bit_length(n as nat),
        r <= 64,
{
    let mut rest = n;
    let mut bits: usize = 0;
    proof {
        lemma2_to64();
    }
    while rest > 0
        invariant
            bits + bit_length(rest as nat) == bit_length(n as nat),
            bits <= 64,
            rest as nat * pow2(bits as nat) <= u64::MAX,
        decreases rest,
    {
        proof {
            lemma_pow2_unfold((bits + 1) as nat);
            lemma2_to64();
            lemma2_to64_rest();
            assert((rest / 2) as nat * (2 * pow2(bits as nat)) <= rest
                as nat * pow2(bits as nat)) by (nonlinear_arith)
                requires
                    rest >= 0,
            ;
            if bits == 64 {
                assert(rest as nat * pow2(64) >= 0x10000000000000000)
                    by (nonlinear_arith)
                    requires
                        rest >= 1,
                        pow2(64) == 0x10000000000000000,
                ;
            }
        }
        rest = rest / 2;
        bits += 1;
    }
    proof {
        lemma2_to64();
    }
    bits
}

/// The number of bytes that hold one field element modulo `modulus`.
pub fn scalar_width_of(modulus: u64) -> (r: usize)
    ensures
        r == scalar_width(modulus as int),
        r <= 8,
        modulus >= 2 ==> r >= 1,
{
    let bits = bit_length_of(modulus);
    proof {
        if modulus >= 2 {
            assert(bit_length(modulus as nat) == 1 + bit_length((modulus / 2) as nat));
        }
    }
    (bits + 7) / 8
}

/// The number of bytes squeezed for one challenge modulo `modulus`.
pub fn challenge_width_of(modulus: u64) -> (r: usize)
    ensures
        r == challenge_width(modulus as int),
        16 <= r <= 24,
{
    let bits = bit_length_of(modulus);
    (bits + 128) / 8
}

/// The schedule of a Sum-Check run, as an extension of the transcript's IO pattern.
pub trait SumCheckExtensionIOPattern<const P: u64>: Sized {
    /// The pattern string, as bytes.
    spec fn pattern(&self) -> Seq<u8>;

    /// The schedule of a run for `poly` under the domain separator `domsep`, which may
    /// hold no zero byte.
    fn new_sumcheck(domsep: &str, poly: &MultivariatePolynomial<P>) -> (r: Self)
        requires
            !domsep.spec_bytes().contains(0u8),
            poly.wf(),
        ensures
            r.pattern() == with_rounds(domsep.spec_bytes(), P as int, poly@.num_vars as nat),
    ;

    /// This schedule followed by the rounds of a run for `poly`: for each variable the
    /// absorption of one field element and the squeeze of one challenge.
    fn add_sumcheck(self, poly: &MultivariatePolynomial<P>) -> (r: Self)
        requires
            poly.wf(),
        ensures
            r.pattern() == with_rounds(self.pattern(), P as int, poly@.num_vars as nat),
    ;
}

impl<const P: u64> SumCheckExtensionIOPattern<P> for Schedule {
    open spec fn pattern(&self) -> Seq<u8> {
        schedule_bytes(*self)
    }

    fn new_sumcheck(domsep: &str, poly: &MultivariatePolynomial<P>) -> (r: Self) {
        pattern_new(domsep).add_sumcheck(poly)
    }

    fn add_sumcheck(self, poly: &MultivariatePolynomial<P>) -> (r: Self) {
        let scalars = scalar_width_of(P);
        let challenges = challenge_width_of(P);
        let rounds = poly.num_vars();
        let ghost start = schedule_bytes(self);
        let mut schedule = self;
        let mut i: usize = 0;
        proof {
            lemma_labels_ok();
        }
        while i < rounds
            invariant
                i <= rounds,
                P >= 2,
                scalars == scalar_width(P as int),
                challenges == challenge_width(P as int),
                scalars >= 1,
                challenges >= 16,
                label_ok(commitment_label()),
                label_ok(challenge_label()),
                schedule_bytes(schedule) == with_rounds(start, P as int, i as nat),
            decreases rounds - i,
        {
            let ghost before = schedule_bytes(schedule);
            schedule = pattern_absorb(schedule, scalars, "Univariate polynomial coefficients");
            schedule = pattern_squeeze(schedule, challenges, "random scalar challenge");
            proof {
                assert(schedule_bytes(schedule) =~= before + round_tags(P as int));
            }
            i += 1;
        }
        schedule
    }
}

/// The two labels of a round are acceptable labels.
pub proof fn lemma_labels_ok()
    ensures
        label_ok(commitment_label()),
        label_ok(challenge_label()),
{
    reveal_strlit("Univariate polynomial coefficients");
    reveal_strlit("random scalar challenge");
    let first = "Univariate polynomial coefficients";
    let second = "random scalar challenge";
    assert(is_ascii(first)) by {
        assert forall|i: int| 0 <= i < first@.len() implies (first@[i] as u32) < 128 by {}
    }
    assert(is_ascii(second)) by {
        assert forall|i: int| 0 <= i < second@.len() implies (second@[i] as u32) < 128 by {}
    }
    is_ascii_spec_bytes(first);
    is_ascii_spec_bytes(second);
    assert forall|i: int| 0 <= i < first.spec_bytes().len() implies first.spec_bytes()[i]
        != 0u8 by {
        assert(first.spec_bytes()[i] == first@[i] as u8);
    }
    assert forall|i: int| 0 <= i < second.spec_bytes().len() implies second.spec_bytes()[i]
        != 0u8 by {
        assert(second.spec_bytes()[i] == second@[i] as u8);
    }
    assert(first.spec_bytes()[0] == first@[0] as u8);
    assert(second.spec_bytes()[0] == second@[0] as u8);
}

} // verus!
