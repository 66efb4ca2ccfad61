//! Where a deviating prover is caught.
//!
//! A polynomial with a wrong commitment is refused in its round. A polynomial with the
//! expected commitment that differs from the honest one at the challenge is caught in
//! the next round or, in the last round, by the check against the polynomial of the
//! claim. And over a prime field a polynomial other than the honest one agrees with it at
//! no more challenges than its degree: of the challenges that can be drawn, all but that
//! many find the forgery out.

use crate::error::Error;
use crate::field::lemma_residue;
use crate::field::residue;
use crate::polynomial::point_model;
use crate::roots::dense;
use crate::roots::horner;
use crate::roots::is_prime;
use crate::roots::is_root;
use crate::roots::lemma_dense;
use crate::roots::lemma_horner_difference;
use crate::roots::lemma_roots_bound;
use crate::polynomial::PolyModel;
use crate::sumcheck::completeness::honest_round_poly;
use crate::sumcheck::completeness::lemma_final_oracle;
use crate::sumcheck::completeness::lemma_prover_after;
use crate::sumcheck::completeness::lemma_round_linkage;
use crate::sumcheck::completeness::prover_after;
use crate::sumcheck::VerifierModel;
use crate::univariate::entries_value;
use crate::univariate::lemma_canonical_coeff;
use crate::univariate::UniModel;
use vstd::arithmetic::div_mod::*;
use vstd::arithmetic::power2::*;
use vstd::prelude::*;

verus! {

/// A round polynomial whose commitment is not the expected value is refused in its
/// round, whatever challenge is drawn, and the verifier's state stays as it is.
pub proof fn lemma_wrong_commitment_refused(verifier: VerifierModel, sent: UniModel, challenge: u64)
    requires
        verifier.actual_round < verifier.total_rounds,
        sent.commitment() != verifier.expected(),
    ensures
        verifier.round_outcome(sent, challenge) == if verifier.actual_round == 0 {
            Err::<u64, Error>(Error::SumMismatch)
        } else {
            Err::<u64, Error>(Error::RoundInconsistency)
        },
        verifier.after_round(sent, challenge) == verifier,
{
}

/// The verifier is in step with an honest prover: it holds the polynomial and the
/// challenges that the prover has folded by.
pub open spec fn in_step(verifier: VerifierModel, poly: PolyModel, challenges: Seq<u64>) -> bool {
    &&& verifier.poly == poly
    &&& verifier.total_rounds == poly.num_vars
    &&& 0 <= verifier.actual_round <= challenges.len()
    &&& verifier.challenges == Seq::new(
        verifier.actual_round as nat,
        |k: int| residue(challenges[k], poly.modulus),
    )
}

/// A forged round polynomial that has the expected commitment but differs from the
/// honest one at the challenge is caught. In the last round the check against the
/// polynomial of the claim refuses it. In an earlier round it passes, but then the honest
/// polynomial of the next round is refused: the prover has to forge again.
pub proof fn lemma_wrong_value_caught(
    verifier: VerifierModel,
    poly: PolyModel,
    challenges: Seq<u64>,
    honest: UniModel,
    forged: UniModel,
    next: UniModel,
)
    requires
        poly.wf(),
        pow2(poly.num_vars as nat) <= usize::MAX,
        challenges.len() == poly.num_vars,
        in_step(verifier, poly, challenges),
        verifier.actual_round < verifier.total_rounds,
        honest_round_poly(prover_after(poly, challenges, verifier.actual_round as nat), honest),
        verifier.actual_round + 1 < verifier.total_rounds ==> honest_round_poly(
            prover_after(poly, challenges, (verifier.actual_round + 1) as nat),
            next,
        ),
        forged.commitment() == verifier.expected(),
        forged.eval(residue(challenges[verifier.actual_round], poly.modulus) as int) != honest.eval(
            residue(challenges[verifier.actual_round], poly.modulus) as int,
        ),
    ensures
        verifier.actual_round + 1 == verifier.total_rounds ==> verifier.round_outcome(
            forged,
            challenges[verifier.actual_round],
        ) == Err::<u64, Error>(Error::FinalOracleMismatch),
        verifier.actual_round + 1 < verifier.total_rounds ==> forall|challenge: u64|
            (#[trigger] verifier.after_round(forged, challenges[verifier.actual_round]).round_outcome(
                next,
                challenge,
            )) == Err::<u64, Error>(Error::RoundInconsistency),
{
    let round = verifier.actual_round as nat;
    let m = poly.modulus;
    let drawn = challenges[round as int];
    let r = residue(drawn, m);
    lemma_residue(drawn, m);
    lemma_prover_after(poly, challenges, round);
    if round + 1 == verifier.total_rounds {
        lemma_final_oracle(poly, challenges);
        assert(point_model(verifier.challenges.push(r)) =~= Seq::new(
            challenges.len(),
            |k: int| residue(challenges[k], m) as int,
        ));
        assert(honest.eval(r as int) == prover_after(poly, challenges, round).round_value(
            r as int,
        ));
    } else {
        let after = verifier.after_round(forged, drawn);
        lemma_round_linkage(prover_after(poly, challenges, round), drawn);
        assert(next.eval(0) == prover_after(poly, challenges, round + 1).round_value(0));
        assert(next.eval(1) == prover_after(poly, challenges, round + 1).round_value(1));
        assert(honest.eval(r as int) == prover_after(poly, challenges, round).round_value(
            r as int,
        ));
        assert(next.commitment() == honest.eval(r as int));
        assert(after.challenges.last() == r);
        assert(after.expected() == forged.eval(r as int));
    }
}

/// No power of the polynomial is above `degree`.
pub open spec fn degree_at_most(poly: UniModel, degree: usize) -> bool {
    forall|i: int| 0 <= i < poly.coeffs.len() ==> (#[trigger] poly.coeffs[i]).0 <= degree
}

/// Two polynomials over a prime field that differ in a coefficient agree at no more
/// residues than their degree. So of the `P` challenges at most `degree` let a forged
/// round polynomial take the honest one's value; at every other challenge the forgery
/// differs, and `lemma_wrong_value_caught` applies.
pub proof fn lemma_few_agreements(a: UniModel, b: UniModel, degree: usize, agree: Set<int>)
    requires
        a.wf(),
        b.wf(),
        a.modulus == b.modulus,
        is_prime(a.modulus),
        degree_at_most(a, degree),
        degree_at_most(b, degree),
        exists|k: usize| a.coeff(k) != b.coeff(k),
        agree.finite(),
        forall|t: int|
            #[trigger] agree.contains(t) ==> 0 <= t < a.modulus && a.eval(t) == b.eval(t),
    ensures
        agree.len() <= degree,
{
    let p = a.modulus;
    let len = (degree + 1) as nat;
    let k0 = choose|k: usize| a.coeff(k) != b.coeff(k);
    lemma_canonical_coeff(a.coeffs, p, k0);
    lemma_canonical_coeff(b.coeffs, p, k0);
    assert(k0 <= degree) by {
        if k0 > degree {
            assert forall|j: int| 0 <= j < a.coeffs.len() implies (#[trigger] a.coeffs[j]).0
                != k0 by {}
            assert forall|j: int| 0 <= j < b.coeffs.len() implies (#[trigger] b.coeffs[j]).0
                != k0 by {}
        }
    }
    let da = dense(a.coeffs, len);
    let db = dense(b.coeffs, len);
    let c = Seq::new(len, |k: int| da[k] - db[k]);
    lemma_dense(a.coeffs, len, 0);
    lemma_dense(b.coeffs, len, 0);
    let delta = a.coeff(k0) - b.coeff(k0);
    assert(c[k0 as int] == delta);
    assert(delta % p != 0) by {
        if delta > 0 {
            lemma_small_mod(delta as nat, p as nat);
        } else {
            lemma_small_mod((delta + p) as nat, p as nat);
            lemma_mod_add_multiples_vanish(delta, p);
        }
    }
    assert forall|t: int| #[trigger] agree.contains(t) implies is_root(c, p, t) by {
        lemma_dense(a.coeffs, len, t);
        lemma_dense(b.coeffs, len, t);
        lemma_horner_difference(da, db, t);
        assert(horner(c, t) == entries_value(a.coeffs, t) - entries_value(b.coeffs, t));
        lemma_mod_equivalence(entries_value(a.coeffs, t), entries_value(b.coeffs, t), p);
    }
    lemma_roots_bound(c, p, agree);
}

} // verus!
