//! Completeness of the protocol: a verifier that is sent the polynomials of an honest
//! prover accepts every round, whatever challenges are drawn.

use crate::error::Error;
use crate::field::lemma_residue;
use crate::field::residue;
use crate::hypercube::domain_point;
use crate::hypercube::lemma_partial_sum_full;
use crate::hypercube::lemma_partial_sum_split;
use crate::hypercube::lemma_sum_equal;
use crate::hypercube::partial_sum;
use crate::hypercube::point_values;
use crate::hypercube::sum_to;
use crate::polynomial::bind_point;
use crate::polynomial::lemma_assign_all_eval;
use crate::polynomial::lemma_assign_eval;
use crate::polynomial::lemma_assign_wf;
use crate::polynomial::point_model;
use crate::polynomial::PolyModel;
use crate::sumcheck::zeros;
use crate::sumcheck::ProverModel;
use crate::sumcheck::VerifierModel;
use crate::term::vars_from;
use crate::univariate::UniModel;
use vstd::arithmetic::div_mod::*;
use vstd::arithmetic::power2::*;
use vstd::prelude::*;

verus! {

/// The prover's state before its first round.
pub open spec fn prover_start(poly: PolyModel) -> ProverModel {
    ProverModel { poly, total_rounds: poly.num_vars, actual_round: 0, challenges: Seq::empty() }
}

/// The prover's state after the first `rounds` of `challenges` were applied.
pub open spec fn prover_after(poly: PolyModel, challenges: Seq<u64>, rounds: nat) -> ProverModel
    decreases rounds,
{
    if rounds == 0 {
        prover_start(poly)
    } else {
        prover_after(poly, challenges, (rounds - 1) as nat).advance(challenges[rounds - 1])
    }
}

/// `round_poly` is what an honest prover in state `prover` sends: a well-formed
/// polynomial with the round's values.
pub open spec fn honest_round_poly(prover: ProverModel, round_poly: UniModel) -> bool {
    &&& round_poly.wf()
    &&& round_poly.modulus == prover.poly.modulus
    &&& forall|t: int| #[trigger] round_poly.eval(t) == prover.round_value(t)
}

/// The verifier's state after it was sent the first `rounds` of `round_polys` and drew
/// the first `rounds` of `challenges`.
pub open spec fn verifier_after(
    poly: PolyModel,
    round_polys: Seq<UniModel>,
    challenges: Seq<u64>,
    rounds: nat,
) -> VerifierModel
    decreases rounds,
{
    if rounds == 0 {
        VerifierModel::start(prover_start(poly).claimed_sum(), poly)
    } else {
        verifier_after(poly, round_polys, challenges, (rounds - 1) as nat).after_round(
            round_polys[rounds - 1],
            challenges[rounds - 1],
        )
    }
}

/// The first round's commitment is the claimed sum: the round polynomial at zero plus the
/// round polynomial at one equals the sum over the whole hypercube.
pub proof fn lemma_round_sum_linkage(prover: ProverModel, round_poly: UniModel)
    requires
        prover.wf(),
        prover.actual_round == 0,
        prover.total_rounds > 0,
        honest_round_poly(prover, round_poly),
    ensures
        round_poly.commitment() == prover.claimed_sum(),
{
    let empty = Seq::<int>::empty();
    lemma_partial_sum_split(prover.poly, empty);
    assert(zeros(0).push(0) =~= empty.push(0));
    assert(zeros(0).push(1) =~= empty.push(1));
    assert(round_poly.eval(0) == prover.round_value(0));
    assert(round_poly.eval(1) == prover.round_value(1));
}

/// Advancing keeps the prover's state well formed.
pub proof fn lemma_advance_wf(prover: ProverModel, r: u64)
    requires
        prover.wf(),
        prover.actual_round < prover.total_rounds,
    ensures
        prover.advance(r).wf(),
        prover.advance(r).poly.modulus == prover.poly.modulus,
        prover.advance(r).total_rounds == prover.total_rounds,
{
    let value = residue(r, prover.poly.modulus) as int;
    let variable = prover.actual_round as usize;
    lemma_assign_wf(prover.poly, variable, value);
    let next = prover.advance(r);
    assert(next.poly.vars_from(next.actual_round)) by {
        assert forall|i: int| 0 <= i < next.poly.terms.len() implies vars_from(
            (#[trigger] next.poly.terms[i]).1,
            next.actual_round,
        ) by {
            assert(next.poly.vars_from(prover.actual_round));
            assert(vars_from(next.poly.terms[i].1, prover.actual_round));
        }
    }
}

/// A round's commitment is the previous round's polynomial at the challenge: after the
/// challenge `r` is applied, the next round's value at zero plus its value at one is the
/// value that this round takes at `r`.
pub proof fn lemma_round_linkage(prover: ProverModel, r: u64)
    requires
        prover.wf(),
        prover.actual_round + 1 < prover.total_rounds,
    ensures
        (prover.advance(r).round_value(0) + prover.advance(r).round_value(1)) % prover.poly.modulus
            == prover.round_value(residue(r, prover.poly.modulus) as int),
{
    let m = prover.poly.modulus;
    let value = residue(r, m) as int;
    let j = prover.actual_round;
    let next = prover.advance(r);
    lemma_advance_wf(prover, r);
    lemma_partial_sum_split(next.poly, zeros(j + 1));
    lemma_folded_sum(prover, r, (prover.total_rounds - j - 1) as nat);
}

/// The sum after the bound variable: the next state's polynomial, summed over the
/// variables after the one just bound, is this state's polynomial summed over the same
/// variables with the bound one set to the challenge.
proof fn lemma_folded_sum(prover: ProverModel, r: u64, width: nat)
    requires
        prover.wf(),
        prover.actual_round < prover.total_rounds,
        width == prover.total_rounds - prover.actual_round - 1,
    ensures
        partial_sum(prover.advance(r).poly, zeros(prover.actual_round + 1)) == partial_sum(
            prover.poly,
            zeros(prover.actual_round).push(residue(r, prover.poly.modulus) as int),
        ),
{
    let m = prover.poly.modulus;
    let value = residue(r, m) as int;
    let j = prover.actual_round;
    let next = prover.advance(r);
    lemma_advance_wf(prover, r);
    let after = point_values(next.poly, zeros(j + 1));
    let before = point_values(prover.poly, zeros(j).push(value));
    assert forall|i: nat| i < pow2(width) implies #[trigger] after(i) == before(i) by {
        let tail = domain_point(i, width);
        let point = zeros(j + 1) + tail;
        lemma_assign_eval(prover.poly, j as usize, value, point);
        assert(point.update(j, value) =~= zeros(j).push(value) + tail);
    }
    lemma_sum_equal(after, before, pow2(width));
}

/// The bindings that the first `rounds` challenges stand for: variable `k` gets
/// challenge `k`, as a residue.
pub open spec fn challenge_bindings(challenges: Seq<u64>, rounds: nat, modulus: int) -> Seq<
    (usize, u64),
> {
    Seq::new(rounds, |k: int| (k as usize, residue(challenges[k], modulus)))
}

/// What the honest prover holds after `rounds` challenges: a well-formed state whose
/// polynomial is the given one with the first variables bound to the challenges.
pub proof fn lemma_prover_after(poly: PolyModel, challenges: Seq<u64>, rounds: nat)
    requires
        poly.wf(),
        pow2(poly.num_vars as nat) <= usize::MAX,
        rounds <= poly.num_vars,
        rounds <= challenges.len(),
    ensures
        prover_after(poly, challenges, rounds).wf(),
        prover_after(poly, challenges, rounds).actual_round == rounds,
        prover_after(poly, challenges, rounds).total_rounds == poly.num_vars,
        prover_after(poly, challenges, rounds).poly.modulus == poly.modulus,
        prover_after(poly, challenges, rounds).poly == poly.assign_all(
            challenge_bindings(challenges, rounds, poly.modulus),
        ),
        prover_after(poly, challenges, rounds).challenges == Seq::new(
            rounds,
            |k: int| residue(challenges[k], poly.modulus),
        ),
    decreases rounds,
{
    let now = prover_after(poly, challenges, rounds);
    let bindings = challenge_bindings(challenges, rounds, poly.modulus);
    if rounds == 0 {
        assert(bindings =~= Seq::<(usize, u64)>::empty());
        assert(now.challenges =~= Seq::new(0, |k: int| residue(challenges[k], poly.modulus)));
        assert(now.poly.vars_from(0)) by {
            assert forall|i: int| 0 <= i < now.poly.terms.len() implies vars_from(
                (#[trigger] now.poly.terms[i]).1,
                0,
            ) by {}
        }
    } else {
        let less = (rounds - 1) as nat;
        let before = prover_after(poly, challenges, less);
        lemma_prover_after(poly, challenges, less);
        lemma_advance_wf(before, challenges[rounds - 1]);
        lemma_residue(challenges[rounds - 1], poly.modulus);
        assert(now == before.advance(challenges[rounds - 1]));
        assert(bindings.drop_last() =~= challenge_bindings(challenges, less, poly.modulus));
        assert(bindings.last() == (
            less as usize,
            residue(challenges[rounds - 1], poly.modulus),
        ));
        assert(poly.assign_all(bindings) == poly.assign_all(bindings.drop_last()).assign(
            bindings.last().0,
            bindings.last().1 as int,
        ));
        assert(now.challenges == before.challenges.push(
            residue(challenges[rounds - 1], poly.modulus),
        ));
        assert(now.challenges =~= Seq::new(
            rounds,
            |k: int| residue(challenges[k], poly.modulus),
        ));
    }
}

/// The point that the challenges make of any point of the right length: the challenges
/// themselves, as residues.
proof fn lemma_bind_challenges(challenges: Seq<u64>, rounds: nat, modulus: int, point: Seq<int>)
    requires
        modulus > 0,
        rounds <= challenges.len(),
        rounds <= point.len(),
        point.len() <= usize::MAX,
    ensures
        bind_point(challenge_bindings(challenges, rounds, modulus), point) == Seq::new(
            point.len(),
            |k: int|
                if k < rounds {
                    residue(challenges[k], modulus) as int
                } else {
                    point[k]
                },
        ),
    decreases rounds,
{
    let bindings = challenge_bindings(challenges, rounds, modulus);
    let target = Seq::new(
        point.len(),
        |k: int|
            if k < rounds {
                residue(challenges[k], modulus) as int
            } else {
                point[k]
            },
    );
    if rounds == 0 {
        assert(bind_point(bindings, point) == point);
        assert(point =~= target);
    } else {
        let less = (rounds - 1) as nat;
        let last = bindings.last();
        lemma_residue(challenges[rounds - 1], modulus);
        assert(last == (less as usize, residue(challenges[rounds - 1], modulus)));
        assert(bindings.drop_last() =~= challenge_bindings(challenges, less, modulus));
        let moved = point.update(last.0 as int, last.1 as int);
        lemma_bind_challenges(challenges, less, modulus, moved);
        assert(bind_point(bindings, point) =~= target);
    }
}

/// The last round's polynomial at the last challenge is the unfolded polynomial at all
/// the challenges.
pub proof fn lemma_final_oracle(poly: PolyModel, challenges: Seq<u64>)
    requires
        poly.wf(),
        pow2(poly.num_vars as nat) <= usize::MAX,
        poly.num_vars > 0,
        challenges.len() == poly.num_vars,
    ensures
        prover_after(poly, challenges, (poly.num_vars - 1) as nat).round_value(
            residue(challenges[poly.num_vars - 1], poly.modulus) as int,
        ) == poly.eval(
            Seq::new(challenges.len(), |k: int| residue(challenges[k], poly.modulus) as int),
        ),
{
    let n = poly.num_vars as nat;
    let m = poly.modulus;
    let last = (n - 1) as nat;
    let before = prover_after(poly, challenges, last);
    let r = challenges[n - 1];
    let value = residue(r, m) as int;
    lemma_prover_after(poly, challenges, last);
    lemma_prover_after(poly, challenges, n);
    lemma_advance_wf(before, r);
    let after = prover_after(poly, challenges, n);
    assert(after == before.advance(r));
    // the round's value is the bound polynomial at any point
    lemma_folded_sum(before, r, 0);
    lemma_partial_sum_full(after.poly, zeros(n as int));
    // which is the unfolded polynomial at the challenges
    let bindings = challenge_bindings(challenges, n, m);
    lemma_assign_all_eval(poly, bindings, zeros(n as int));
    lemma_bind_challenges(challenges, n, m, zeros(n as int));
    assert(bind_point(bindings, zeros(n as int)) =~= Seq::new(
        challenges.len(),
        |k: int| residue(challenges[k], m) as int,
    ));
}

/// Completeness. Let a prover start from `poly`, send in each round a polynomial with
/// the round's values, and apply the challenge that the verifier returns. Then the
/// verifier, started with the prover's claimed sum, accepts every round, the last one
/// with its check against the unfolded polynomial, for any challenges whatever.
pub proof fn lemma_completeness(
    poly: PolyModel,
    round_polys: Seq<UniModel>,
    challenges: Seq<u64>,
    round: nat,
)
    requires
        poly.wf(),
        pow2(poly.num_vars as nat) <= usize::MAX,
        round_polys.len() == poly.num_vars,
        challenges.len() == poly.num_vars,
        round < poly.num_vars,
        forall|j: int|
            0 <= j < poly.num_vars ==> honest_round_poly(
                prover_after(poly, challenges, j as nat),
                #[trigger] round_polys[j],
            ),
    ensures
        verifier_after(poly, round_polys, challenges, round).wf(),
        verifier_after(poly, round_polys, challenges, round).actual_round == round,
        verifier_after(poly, round_polys, challenges, round).round_outcome(
            round_polys[round as int],
            challenges[round as int],
        ) == Ok::<u64, Error>(residue(challenges[round as int], poly.modulus)),
    decreases round, 1nat,
{
    let m = poly.modulus;
    let n = poly.num_vars;
    let verifier = verifier_after(poly, round_polys, challenges, round);
    let prover = prover_after(poly, challenges, round);
    let sent = round_polys[round as int];
    lemma_verifier_after(poly, round_polys, challenges, round);
    lemma_prover_after(poly, challenges, round);
    assert(honest_round_poly(prover, sent));
    lemma_residue(challenges[round as int], m);
    if round == 0 {
        lemma_round_sum_linkage(prover, sent);
        lemma_mod_bound(
            sum_to(point_values(poly, Seq::empty()), pow2(n as nat)),
            m,
        );
        lemma_small_mod(prover.claimed_sum() as nat, m as nat);
    } else {
        let less = (round - 1) as nat;
        let before = prover_after(poly, challenges, less);
        lemma_prover_after(poly, challenges, less);
        assert(honest_round_poly(before, round_polys[less as int]));
        lemma_round_linkage(before, challenges[less as int]);
        assert(sent.eval(0) == prover.round_value(0));
        assert(sent.eval(1) == prover.round_value(1));
        assert(verifier.challenges.last() == residue(challenges[less as int], m));
    }
    if round + 1 == n {
        lemma_final_oracle(poly, challenges);
        let r = verifier.residue(challenges[round as int]);
        assert(point_model(verifier.challenges.push(r)) =~= Seq::new(
            challenges.len(),
            |k: int| residue(challenges[k], m) as int,
        ));
    }
}

/// What the verifier holds after `rounds` honest rounds: every round was accepted, so
/// the state advanced each time.
proof fn lemma_verifier_after(
    poly: PolyModel,
    round_polys: Seq<UniModel>,
    challenges: Seq<u64>,
    rounds: nat,
)
    requires
        poly.wf(),
        pow2(poly.num_vars as nat) <= usize::MAX,
        round_polys.len() == poly.num_vars,
        challenges.len() == poly.num_vars,
        rounds <= poly.num_vars,
        forall|j: int|
            0 <= j < poly.num_vars ==> honest_round_poly(
                prover_after(poly, challenges, j as nat),
                #[trigger] round_polys[j],
            ),
    ensures
        verifier_after(poly, round_polys, challenges, rounds).wf(),
        verifier_after(poly, round_polys, challenges, rounds).poly == poly,
        verifier_after(poly, round_polys, challenges, rounds).total_rounds == poly.num_vars,
        verifier_after(poly, round_polys, challenges, rounds).actual_round == rounds,
        verifier_after(poly, round_polys, challenges, rounds).solution == prover_start(
            poly,
        ).claimed_sum(),
        rounds > 0 ==> verifier_after(poly, round_polys, challenges, rounds).running_poly
            == round_polys[rounds - 1],
        verifier_after(poly, round_polys, challenges, rounds).challenges == Seq::new(
            rounds,
            |k: int| residue(challenges[k], poly.modulus),
        ),
    decreases rounds, 0nat,
{
    let m = poly.modulus;
    let now = verifier_after(poly, round_polys, challenges, rounds);
    if rounds == 0 {
        lemma_mod_bound(
            sum_to(point_values(poly, Seq::empty()), pow2(poly.num_vars as nat)),
            m,
        );
        lemma_small_mod(prover_start(poly).claimed_sum() as nat, m as nat);
        assert(now.challenges =~= Seq::new(0, |k: int| residue(challenges[k], m)));
    } else {
        let less = (rounds - 1) as nat;
        let before = verifier_after(poly, round_polys, challenges, less);
        lemma_verifier_after(poly, round_polys, challenges, less);
        lemma_completeness(poly, round_polys, challenges, less);
        lemma_residue(challenges[rounds - 1], m);
        assert(honest_round_poly(prover_after(poly, challenges, less), round_polys[less as int]));
        assert(now.challenges =~= Seq::new(rounds, |k: int| residue(challenges[k], m)));
    }
}

/// The verifier keeps the polynomial and the number of rounds through a run.
pub proof fn lemma_verifier_rounds(
    poly: PolyModel,
    round_polys: Seq<UniModel>,
    challenges: Seq<u64>,
    rounds: nat,
)
    ensures
        verifier_after(poly, round_polys, challenges, rounds).total_rounds == poly.num_vars,
        verifier_after(poly, round_polys, challenges, rounds).poly == poly,
    decreases rounds,
{
    if rounds > 0 {
        lemma_verifier_rounds(poly, round_polys, challenges, (rounds - 1) as nat);
    }
}

} // verus!
