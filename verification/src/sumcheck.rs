//! The two parties of the Sum-Check protocol as round-by-round state machines.
//!
//! The prover folds its polynomial one variable per round and sends, in each round, the
//! univariate polynomial that is left when the later variables are summed over the
//! boolean hypercube. The verifier checks each of them against the one before and, at the
//! end, against the polynomial of the claim at the challenges it issued.

pub mod completeness;
pub mod fiat_shamir;
pub mod non_interactive;
pub mod protocol;
pub mod round_trip;
pub mod soundness;
pub mod transcript;

use crate::error::Error;
use crate::field::add_mod;
use crate::field::reduce;
use crate::field::residue;
use crate::hypercube::bit;
use crate::hypercube::domain_point;
use crate::hypercube::hypercube_size;
use crate::hypercube::lemma_sum_equal;
use crate::hypercube::number_to_domain;
use crate::hypercube::partial_sum;
use crate::hypercube::point_values;
use crate::hypercube::sum_to;
use crate::polynomial::bind_point;
use crate::polynomial::cast_entries;
use crate::polynomial::cast_mv_to_uv_polynomial;
use crate::polynomial::lemma_assign_all_eval;
use crate::polynomial::lemma_assign_all_shape;
use crate::polynomial::lemma_assign_wf;
use crate::polynomial::lemma_cast_value;
use crate::polynomial::lemma_plus_eval;
use crate::polynomial::point_model;
use crate::polynomial::reduced_to_univariate;
use crate::polynomial::single_variable;
use crate::polynomial::terms_value;
use crate::polynomial::MultivariatePolynomial;
use crate::polynomial::PolyModel;
use crate::term::normalized;
use crate::term::vars_below;
use crate::term::vars_from;
use crate::univariate::coeff_sum;
use crate::univariate::UniModel;
use crate::univariate::UnivariatePolynomial;
use vstd::arithmetic::div_mod::*;
use vstd::arithmetic::power2::*;
use vstd::prelude::*;

verus! {

/// The point with `length` coordinates, all zero.
pub open spec fn zeros(length: int) -> Seq<int> {
    Seq::new(length as nat, |k: int| 0int)
}

/// The bindings of one step of a round: the `width` variables after `round` get the bits
/// of `number`, bit `k` going to variable `round + 1 + k`.
pub open spec fn round_bindings(round: int, width: int, number: nat) -> Seq<(usize, u64)> {
    Seq::new(width as nat, |k: int| ((round + 1 + k) as usize, bit(number, k as nat) as u64))
}

/// The sum of the folded polynomials of the first `count` steps of a round.
pub open spec fn round_accumulator(poly: PolyModel, round: int, width: int, count: nat) -> PolyModel
    decreases count,
{
    if count == 0 {
        PolyModel { modulus: poly.modulus, num_vars: 0, terms: Seq::empty() }
    } else {
        round_accumulator(poly, round, width, (count - 1) as nat).plus(
            poly.assign_all(round_bindings(round, width, (count - 1) as nat)),
        )
    }
}

/// The prover's state as contracts see it.
pub struct ProverModel {
    pub poly: PolyModel,
    pub total_rounds: int,
    pub actual_round: int,
    pub challenges: Seq<u64>,
}

impl ProverModel {
    /// The round counter is in range, one challenge is recorded per round, the bound
    /// variables are gone from the polynomial, and the hypercube fits in `usize`.
    pub open spec fn wf(self) -> bool {
        &&& self.poly.wf()
        &&& self.total_rounds == self.poly.num_vars
        &&& 0 <= self.actual_round <= self.total_rounds
        &&& self.challenges.len() == self.actual_round
        &&& self.poly.vars_from(self.actual_round)
        &&& pow2(self.total_rounds as nat) <= usize::MAX
    }

    /// The state after the challenge `r` was applied: the current free variable is bound
    /// to `r`, which is recorded, and the next round begins.
    pub open spec fn advance(self, r: u64) -> ProverModel {
        ProverModel {
            poly: self.poly.assign(
                self.actual_round as usize,
                residue(r, self.poly.modulus) as int,
            ),
            total_rounds: self.total_rounds,
            actual_round: self.actual_round + 1,
            challenges: self.challenges.push(residue(r, self.poly.modulus)),
        }
    }

    /// The sum of the current polynomial over the whole hypercube.
    pub open spec fn claimed_sum(self) -> int {
        partial_sum(self.poly, Seq::empty())
    }

    /// The value at `t` of this round's polynomial: the current polynomial summed over
    /// the variables after the free one, the free one set to `t`.
    pub open spec fn round_value(self, t: int) -> int {
        partial_sum(self.poly, zeros(self.actual_round).push(t))
    }

    /// The folded polynomials of this round, added up before they are cast.
    pub open spec fn round_terms(self) -> PolyModel {
        round_accumulator(
            self.poly,
            self.actual_round,
            self.total_rounds - self.actual_round - 1,
            pow2((self.total_rounds - self.actual_round - 1) as nat),
        )
    }

    /// `round_poly` is this round's polynomial, coefficient by coefficient.
    pub open spec fn is_round_poly(self, round_poly: UniModel) -> bool {
        &&& round_poly.wf()
        &&& round_poly.modulus == self.poly.modulus
        &&& forall|k: usize| #[trigger]
            round_poly.coeff(k) == coeff_sum(cast_entries(self.round_terms().terms), k)
                % self.poly.modulus
    }
}

/// The prover: the polynomial as folded so far and the challenges received.
pub struct Prover<const P: u64> {
    poly: MultivariatePolynomial<P>,
    total_rounds: usize,
    actual_round: usize,
    rs: Vec<u64>,
}

impl<const P: u64> View for Prover<P> {
    type V = ProverModel;

    closed spec fn view(&self) -> ProverModel {
        ProverModel {
            poly: self.poly@,
            total_rounds: self.total_rounds as int,
            actual_round: self.actual_round as int,
            challenges: self.rs@,
        }
    }
}

impl<const P: u64> Prover<P> {
    /// Well-formedness of the stored state.
    pub open spec fn wf(&self) -> bool {
        self@.wf() && self@.poly.modulus == P
    }

    /// A prover for `poly`, before its first round. The hypercube of the polynomial's
    /// variables must have at most `usize::MAX` points.
    pub fn new(poly: MultivariatePolynomial<P>) -> (r: Self)
        requires
            poly.wf(),
            pow2(poly@.num_vars as nat) <= usize::MAX,
        ensures
            r.wf(),
            r@ == (ProverModel {
                poly: poly@,
                total_rounds: poly@.num_vars,
                actual_round: 0,
                challenges: Seq::empty(),
            }),
    {
        let total_rounds = poly.num_vars();
        let r = Prover { poly, total_rounds, actual_round: 0, rs: Vec::new() };
        proof {
            assert(r@.challenges =~= Seq::empty());
        }
        r
    }

    /// The number of rounds of the protocol: the polynomial's declared dimension.
    pub fn total_rounds(&self) -> (r: usize)
        ensures
            r == self@.total_rounds,
    {
        self.total_rounds
    }

    /// The number of challenges applied so far.
    pub fn actual_round(&self) -> (r: usize)
        ensures
            r == self@.actual_round,
    {
        self.actual_round
    }

    /// The claimed sum: the polynomial's values at all `2^total_rounds` boolean points,
    /// added up. Bit `j` of a point's index is the value of variable `j`.
    pub fn calculate_sum(&self) -> (r: u64)
        requires
            self.wf(),
        ensures
            r == self@.claimed_sum(),
            r < P,
    {
        let ghost values = point_values(self@.poly, Seq::empty());
        let count = match hypercube_size(self.total_rounds) {
            Some(count) => count,
            None => {
                proof {
                    assert(false);
                }
                0
            },
        };
        let mut result: u64 = 0;
        let mut i: usize = 0;
        proof {
            lemma_small_mod(0, P as nat);
        }
        while i < count
            invariant
                self.wf(),
                values == point_values(self@.poly, Seq::empty()),
                count == pow2(self@.total_rounds as nat),
                i <= count,
                result == sum_to(values, i as nat) % (P as int),
                result < P,
            decreases count - i,
        {
            let binary = number_to_domain(i, self.total_rounds);
            let value = self.poly.evaluate(&binary);
            let ghost before = result as int;
            result = add_mod(result, value, P);
            proof {
                let point = domain_point(i as nat, self@.total_rounds as nat);
                assert(Seq::<int>::empty() + point =~= point);
                assert(values(i as nat) == self@.poly.eval(point));
                lemma_add_mod_noop(sum_to(values, i as nat), value as int, P as int);
                lemma_small_mod(value as nat, P as nat);
            }
            i += 1;
        }
        result
    }

    /// This round's polynomial: for each boolean assignment to the variables after the
    /// free one, the current polynomial is folded down to the free variable; the folded
    /// polynomials are added up and cast to univariate form.
    pub fn calculate_round_poly(&self) -> (r: UnivariatePolynomial<P>)
        requires
            self.wf(),
            self@.actual_round < self@.total_rounds,
        ensures
            self@.is_round_poly(r@),
            forall|t: int| #[trigger] r@.eval(t) == self@.round_value(t),
    {
        let ghost cur = self@.poly;
        let ghost round = self@.actual_round;
        let ghost width = self@.total_rounds - self@.actual_round - 1;
        let remaining_rounds = self.total_rounds - self.actual_round - 1;
        proof {
            if width < self@.total_rounds {
                lemma_pow2_strictly_increases(width as nat, self@.total_rounds as nat);
            }
        }
        let count = match hypercube_size(remaining_rounds) {
            Some(count) => count,
            None => {
                proof {
                    assert(false);
                }
                0
            },
        };
        let mut round_poly = MultivariatePolynomial::<P>::zero(0);
        let mut i: usize = 0;
        while i < count
            invariant
                self.wf(),
                cur == self@.poly,
                round == self@.actual_round,
                width == self@.total_rounds - self@.actual_round - 1,
                width == remaining_rounds,
                width >= 0,
                count == pow2(width as nat),
                i <= count,
                round_poly@ == round_accumulator(cur, round, width, i as nat),
            decreases count - i,
        {
            let binary = number_to_domain(i, remaining_rounds);
            let mut values: Vec<(usize, u64)> = Vec::new();
            let mut k: usize = 0;
            while k < remaining_rounds
                invariant
                    self.wf(),
                    round == self@.actual_round,
                    width == self@.total_rounds - self@.actual_round - 1,
                    width == remaining_rounds,
                    k <= remaining_rounds,
                    binary@.len() == remaining_rounds,
                    forall|j: int|
                        0 <= j < remaining_rounds ==> #[trigger] binary@[j] == bit(
                            i as nat,
                            j as nat,
                        ),
                    values@.len() == k,
                    forall|j: int|
                        0 <= j < k ==> #[trigger] values@[j] == round_bindings(
                            round,
                            width,
                            i as nat,
                        )[j],
                decreases remaining_rounds - k,
            {
                values.push((self.actual_round + 1 + k, binary[k]));
                k += 1;
            }
            proof {
                assert(values@ =~= round_bindings(round, width, i as nat));
            }
            let reduced = match reduced_to_univariate(&self.poly, values) {
                Ok(reduced) => reduced,
                Err(_) => {
                    proof {
                        assert(false);
                    }
                    MultivariatePolynomial::<P>::zero(0)
                },
            };
            round_poly.accumulate(reduced);
            i += 1;
        }
        proof {
            lemma_round_accumulator_shape(cur, round, width, count as nat);
        }
        let r = match cast_mv_to_uv_polynomial(round_poly) {
            Ok(r) => r,
            Err(_) => {
                proof {
                    assert(false);
                }
                UnivariatePolynomial::<P>::zero()
            },
        };
        proof {
            let acc = round_accumulator(cur, round, width, count as nat);
            assert forall|t: int| #[trigger] r@.eval(t) == self@.round_value(t) by {
                let prefix = zeros(round).push(t);
                let point = prefix + zeros(width);
                lemma_cast_value(acc.terms, round as usize, point);
                assert(point[round] == t);
                lemma_round_accumulator_eval(cur, round, width, count as nat, point);
                let folded = |i: nat| cur.eval(bind_point(round_bindings(round, width, i), point));
                let direct = point_values(cur, prefix);
                assert forall|i: nat| i < count implies #[trigger] folded(i) == direct(i) by {
                    lemma_bind_round_point(round, width, i, point);
                    assert(bind_point(round_bindings(round, width, i), point) =~= prefix
                        + domain_point(i, width as nat));
                }
                lemma_sum_equal(folded, direct, count as nat);
            }
        }
        r
    }

    /// Applies the verifier's challenge: binds the current free variable to `r`, records
    /// `r` and moves to the next round.
    pub fn update_random_vars(&mut self, r: u64)
        requires
            old(self).wf(),
            old(self)@.actual_round < old(self)@.total_rounds,
        ensures
            final(self).wf(),
            final(self)@ == old(self)@.advance(r),
    {
        let reduced = reduce(r, P);
        proof {
            lemma_assign_wf(self@.poly, self.actual_round, reduced as int);
        }
        self.poly = self.poly.bind(self.actual_round, reduced);
        self.rs.push(reduced);
        self.actual_round += 1;
        proof {
            let before = old(self)@;
            let now = self@;
            assert(now.poly.vars_from(now.actual_round)) by {
                assert forall|i: int| 0 <= i < now.poly.terms.len() implies vars_from(
                    (#[trigger] now.poly.terms[i]).1,
                    now.actual_round,
                ) by {
                    assert(before.poly.vars_from(before.actual_round));
                    assert(now.poly.vars_from(before.actual_round));
                    assert(vars_from(now.poly.terms[i].1, before.actual_round));
                }
            }
        }
    }
}

/// The verifier's state as contracts see it.
pub struct VerifierModel {
    pub solution: int,
    pub poly: PolyModel,
    pub total_rounds: int,
    pub actual_round: int,
    pub running_poly: UniModel,
    pub challenges: Seq<u64>,
}

impl VerifierModel {
    /// The round counter is in range, one challenge is recorded per accepted round, and
    /// every stored value is a residue of the polynomial's modulus.
    pub open spec fn wf(self) -> bool {
        &&& self.poly.wf()
        &&& self.total_rounds == self.poly.num_vars
        &&& 0 <= self.actual_round <= self.total_rounds
        &&& self.challenges.len() == self.actual_round
        &&& self.running_poly.wf()
        &&& self.running_poly.modulus == self.poly.modulus
        &&& 0 <= self.solution < self.poly.modulus
        &&& forall|i: int|
            0 <= i < self.challenges.len() ==> #[trigger] self.challenges[i] < self.poly.modulus
    }

    /// The state before the first round.
    pub open spec fn start(solution: int, poly: PolyModel) -> VerifierModel {
        VerifierModel {
            solution: solution % poly.modulus,
            poly,
            total_rounds: poly.num_vars,
            actual_round: 0,
            running_poly: UniModel { modulus: poly.modulus, coeffs: Seq::empty() },
            challenges: Seq::empty(),
        }
    }

    /// What this round's commitment has to be: the claimed sum in the first round, later
    /// the previous round polynomial at the last challenge.
    pub open spec fn expected(self) -> int {
        if self.actual_round == 0 {
            self.solution
        } else {
            self.running_poly.eval(self.challenges.last() as int)
        }
    }

    /// The challenge as the residue that is recorded and returned.
    pub open spec fn residue(self, challenge: u64) -> u64 {
        residue(challenge, self.poly.modulus)
    }

    /// Why `round_poly` is refused before any challenge is drawn, if it is: the protocol
    /// has run all of its rounds, or the commitment is not the expected value.
    pub open spec fn refusal(self, round_poly: UniModel) -> Option<Error> {
        if self.actual_round >= self.total_rounds {
            Some(Error::TooManyRounds)
        } else if round_poly.commitment() != self.expected() {
            if self.actual_round == 0 {
                Some(Error::SumMismatch)
            } else {
                Some(Error::RoundInconsistency)
            }
        } else {
            None
        }
    }

    /// Whether the round polynomial `round_poly` passes this round with the drawn
    /// `challenge`, and the error if it does not.
    pub open spec fn round_outcome(self, round_poly: UniModel, challenge: u64) -> Result<
        u64,
        Error,
    > {
        let r = self.residue(challenge);
        match self.refusal(round_poly) {
            Some(e) => Err(e),
            None => if self.actual_round + 1 == self.total_rounds && round_poly.eval(r as int)
                != self.poly.eval(point_model(self.challenges.push(r))) {
                Err(Error::FinalOracleMismatch)
            } else {
                Ok(r)
            },
        }
    }

    /// The state after the round: unchanged where the round was refused before a
    /// challenge was drawn, advanced otherwise.
    pub open spec fn after_round(self, round_poly: UniModel, challenge: u64) -> VerifierModel {
        if self.refusal(round_poly) is Some {
            self
        } else {
            VerifierModel {
                solution: self.solution,
                poly: self.poly,
                total_rounds: self.total_rounds,
                actual_round: self.actual_round + 1,
                running_poly: round_poly,
                challenges: self.challenges.push(self.residue(challenge)),
            }
        }
    }
}

/// The verifier: the polynomial of the claim, the claimed sum, the challenges issued and the
/// round polynomial accepted last.
pub struct Verifier<const P: u64> {
    solution: u64,
    poly: MultivariatePolynomial<P>,
    total_rounds: usize,
    actual_round: usize,
    running_poly: UnivariatePolynomial<P>,
    rs: Vec<u64>,
}

impl<const P: u64> View for Verifier<P> {
    type V = VerifierModel;

    closed spec fn view(&self) -> VerifierModel {
        VerifierModel {
            solution: self.solution as int,
            poly: self.poly@,
            total_rounds: self.total_rounds as int,
            actual_round: self.actual_round as int,
            running_poly: self.running_poly@,
            challenges: self.rs@,
        }
    }
}

/// Draws a uniform value below `modulus` from `ark_std`'s `test_rng`, through `rand`'s
/// `gen_range`. Nothing is known of the value but its range.
#[verifier::external_body]
fn draw_below(modulus: u64) -> (r: u64)
    requires
        modulus > 0,
    ensures
        r < modulus,
{
    ark_std::rand::Rng::gen_range(&mut ark_std::test_rng(), 0..modulus)
}

impl<const P: u64> Verifier<P> {
    /// Well-formedness of the stored state.
    pub open spec fn wf(&self) -> bool {
        self@.wf() && self@.poly.modulus == P
    }

    /// A verifier for the claim that `poly` sums to `result` over the hypercube.
    pub fn new(result: u64, poly: MultivariatePolynomial<P>) -> (r: Self)
        requires
            poly.wf(),
        ensures
            r.wf(),
            r@ == VerifierModel::start(result as int, poly@),
    {
        let total_rounds = poly.num_vars();
        let r = Verifier {
            solution: result % P,
            poly,
            running_poly: UnivariatePolynomial::<P>::zero(),
            total_rounds,
            actual_round: 0,
            rs: Vec::new(),
        };
        proof {
            assert(r@.challenges =~= Seq::empty());
        }
        r
    }

    /// A verifier in the middle of a session: `rs` holds the challenges issued so far,
    /// one for each accepted round, and `running_poly` the round polynomial accepted
    /// last. More challenges than the polynomial has variables are refused.
    pub fn resume(
        result: u64,
        poly: MultivariatePolynomial<P>,
        running_poly: UnivariatePolynomial<P>,
        rs: Vec<u64>,
    ) -> (r: Result<Self, Error>)
        requires
            poly.wf(),
            running_poly.wf(),
        ensures
            r is Ok <==> rs@.len() <= poly@.num_vars,
            r is Err ==> r == Err::<Self, Error>(Error::TooManyRounds),
            r is Ok ==> r->Ok_0.wf() && r->Ok_0@ == (VerifierModel {
                solution: residue(result, P as int) as int,
                poly: poly@,
                total_rounds: poly@.num_vars,
                actual_round: rs@.len() as int,
                running_poly: running_poly@,
                challenges: Seq::new(rs@.len(), |i: int| residue(rs@[i], P as int)),
            }),
    {
        let total_rounds = poly.num_vars();
        if rs.len() > total_rounds {
            return Err(Error::TooManyRounds);
        }
        let mut challenges: Vec<u64> = Vec::new();
        let mut i: usize = 0;
        while i < rs.len()
            invariant
                P >= 2,
                i <= rs.len(),
                challenges@.len() == i,
                forall|k: int| 0 <= k < i ==> #[trigger] challenges@[k] == residue(rs@[k], P as int),
                forall|k: int| 0 <= k < i ==> #[trigger] challenges@[k] < P,
            decreases rs.len() - i,
        {
            challenges.push(reduce(rs[i], P));
            i += 1;
        }
        let r = Verifier {
            solution: reduce(result, P),
            poly,
            running_poly,
            total_rounds,
            actual_round: rs.len(),
            rs: challenges,
        };
        proof {
            assert(r@.challenges =~= Seq::new(rs@.len(), |i: int| residue(rs@[i], P as int)));
        }
        Ok(r)
    }

    /// The number of rounds of the protocol.
    pub fn total_rounds(&self) -> (r: usize)
        ensures
            r == self@.total_rounds,
    {
        self.total_rounds
    }

    /// The number of rounds accepted so far.
    pub fn actual_round(&self) -> (r: usize)
        ensures
            r == self@.actual_round,
    {
        self.actual_round
    }

    /// Checks one round polynomial and answers with a freshly drawn challenge.
    ///
    /// A round that is refused for its number or its commitment is refused before a
    /// challenge is drawn. Otherwise the outcome is that of `verify_round_with` for the
    /// challenge that was drawn.
    pub fn verify_round(&mut self, round_poly: UnivariatePolynomial<P>) -> (r: Result<u64, Error>)
        requires
            old(self).wf(),
            round_poly.wf(),
        ensures
            final(self).wf(),
            match old(self)@.refusal(round_poly@) {
                Some(e) => r == Err::<u64, Error>(e) && final(self)@ == old(self)@,
                None => exists|challenge: u64|
                    challenge < P && r == old(self)@.round_outcome(round_poly@, challenge)
                        && final(self)@ == old(self)@.after_round(round_poly@, challenge),
            },
    {
        match self.refuse(&round_poly) {
            Some(e) => Err(e),
            None => {
                let challenge = draw_below(P);
                self.accept(round_poly, challenge)
            },
        }
    }

    /// Checks one round polynomial against the state, with `challenge` as the round's
    /// challenge.
    ///
    /// The round is refused after the last round; where the commitment, the polynomial's
    /// value at zero plus its value at one, differs from the claimed sum in the first
    /// round or from the previous round polynomial at the last challenge later on; and,
    /// in the last round, where the polynomial at the challenge differs from the claim's
    /// polynomial at all the challenges. An accepted round records the challenge and the
    /// polynomial and returns the challenge.
    pub fn verify_round_with(&mut self, round_poly: UnivariatePolynomial<P>, challenge: u64) -> (r:
        Result<u64, Error>)
        requires
            old(self).wf(),
            round_poly.wf(),
        ensures
            final(self).wf(),
            r == old(self)@.round_outcome(round_poly@, challenge),
            final(self)@ == old(self)@.after_round(round_poly@, challenge),
    {
        match self.refuse(&round_poly) {
            Some(e) => Err(e),
            None => self.accept(round_poly, challenge),
        }
    }

    /// The refusal that needs no challenge: of a round after the last one, and of a
    /// commitment that is not the expected value.
    fn refuse(&self, round_poly: &UnivariatePolynomial<P>) -> (r: Option<Error>)
        requires
            self.wf(),
            round_poly.wf(),
        ensures
            r == self@.refusal(round_poly@),
    {
        if self.actual_round >= self.total_rounds {
            return Some(Error::TooManyRounds);
        }
        let round_value = round_poly.commitment();
        if self.actual_round == 0 {
            if round_value != self.solution {
                return Some(Error::SumMismatch);
            }
        } else {
            let last = self.rs[self.rs.len() - 1];
            if round_value != self.running_poly.evaluate(last) {
                return Some(Error::RoundInconsistency);
            }
        }
        None
    }

    /// Records the challenge and the polynomial of a round that was not refused, and
    /// makes the last round's check against the polynomial of the claim.
    fn accept(&mut self, round_poly: UnivariatePolynomial<P>, challenge: u64) -> (r: Result<
        u64,
        Error,
    >)
        requires
            old(self).wf(),
            round_poly.wf(),
            old(self)@.refusal(round_poly@) is None,
        ensures
            final(self).wf(),
            r == old(self)@.round_outcome(round_poly@, challenge),
            final(self)@ == old(self)@.after_round(round_poly@, challenge),
    {
        let field = reduce(challenge, P);
        self.actual_round += 1;
        self.rs.push(field);
        self.running_poly = round_poly;
        if self.actual_round == self.total_rounds {
            if self.running_poly.evaluate(field) != self.poly.evaluate(&self.rs) {
                return Err(Error::FinalOracleMismatch);
            }
        }
        Ok(field)
    }
}

/// The point that the bindings of one step make of `point`: the coordinates after the
/// free variable become the bits of `number`.
pub proof fn lemma_bind_round_point(round: int, width: int, number: nat, point: Seq<int>)
    requires
        0 <= round,
        0 <= width,
        round + 1 + width <= point.len(),
        point.len() <= usize::MAX,
    ensures
        bind_point(round_bindings(round, width, number), point) == Seq::new(
            point.len(),
            |k: int|
                if round + 1 <= k < round + 1 + width {
                    bit(number, (k - round - 1) as nat)
                } else {
                    point[k]
                },
        ),
    decreases width,
{
    let values = round_bindings(round, width, number);
    let target = Seq::new(
        point.len(),
        |k: int|
            if round + 1 <= k < round + 1 + width {
                bit(number, (k - round - 1) as nat)
            } else {
                point[k]
            },
    );
    if width == 0 {
        assert(bind_point(values, point) == point);
        assert(point =~= target);
    } else {
        let last = values.last();
        assert(last == ((round + width) as usize, bit(number, (width - 1) as nat) as u64));
        assert(values.drop_last() =~= round_bindings(round, width - 1, number));
        let moved = point.update(last.0 as int, last.1 as int);
        lemma_bind_round_point(round, width - 1, number, moved);
        assert(bind_point(values, point) =~= target);
    }
}

/// The shape of a round's accumulator: it is well formed and only the free variable is
/// left in it.
pub proof fn lemma_round_accumulator_shape(poly: PolyModel, round: int, width: int, count: nat)
    requires
        poly.wf(),
        0 <= round,
        0 <= width,
        round + 1 + width == poly.num_vars,
        poly.num_vars <= usize::MAX,
        poly.vars_from(round),
    ensures
        round_accumulator(poly, round, width, count).wf(),
        round_accumulator(poly, round, width, count).modulus == poly.modulus,
        round_accumulator(poly, round, width, count).num_vars <= poly.num_vars,
        single_variable(round_accumulator(poly, round, width, count).terms, round as usize),
        forall|i: int|
            0 <= i < round_accumulator(poly, round, width, count).terms.len() ==> {
                let factors = (#[trigger] round_accumulator(poly, round, width, count).terms[i]).1;
                factors.len() == 0 || (factors.len() == 1 && factors[0].0 == round)
            },
    decreases count,
{
    if count > 0 {
        let before = round_accumulator(poly, round, width, (count - 1) as nat);
        let values = round_bindings(round, width, (count - 1) as nat);
        let folded = poly.assign_all(values);
        let after = before.plus(folded);
        lemma_round_accumulator_shape(poly, round, width, (count - 1) as nat);
        lemma_assign_all_shape(poly, values);
        assert forall|i: int| 0 <= i < folded.terms.len() implies folded.terms[i].1.len() == 0 || (
        folded.terms[i].1.len() == 1 && (#[trigger] folded.terms[i]).1[0].0 == round) by {
            let factors = folded.terms[i].1;
            assert(folded.vars_from(round));
            assert(vars_from(factors, round));
            assert forall|k: int| 0 <= k < factors.len() implies (#[trigger] factors[k]).0
                == round by {
                let v = factors[k].0;
                if v != round {
                    let j = v - round - 1;
                    assert(values[j].0 == v);
                    assert(folded.terms[i].1[k].0 != values[j].0);
                }
            }
            if factors.len() > 1 {
                assert(factors[0].0 < factors[1].0);
            }
        }
        assert forall|i: int| 0 <= i < after.terms.len() implies {
            &&& 0 <= (#[trigger] after.terms[i]).0 < after.modulus
            &&& normalized(after.terms[i].1)
            &&& vars_below(after.terms[i].1, after.num_vars)
            &&& (after.terms[i].1.len() == 0 || (after.terms[i].1.len() == 1
                && after.terms[i].1[0].0 == round))
        } by {
            if i < before.terms.len() {
                assert(after.terms[i] == before.terms[i]);
            } else {
                assert(after.terms[i] == folded.terms[i - before.terms.len()]);
            }
        }
    }
}

/// The value of a round's accumulator: the polynomial's values at the points that the
/// steps bind, added up.
pub proof fn lemma_round_accumulator_eval(
    poly: PolyModel,
    round: int,
    width: int,
    count: nat,
    point: Seq<int>,
)
    requires
        poly.wf(),
        0 <= round,
        0 <= width,
        round + 1 + width == poly.num_vars,
        poly.num_vars <= usize::MAX,
        point.len() == poly.num_vars,
    ensures
        round_accumulator(poly, round, width, count).modulus == poly.modulus,
        round_accumulator(poly, round, width, count).eval(point) == sum_to(
            |i: nat| poly.eval(bind_point(round_bindings(round, width, i), point)),
            count,
        ) % poly.modulus,
    decreases count,
{
    let f = |i: nat| poly.eval(bind_point(round_bindings(round, width, i), point));
    if count == 0 {
        let empty = round_accumulator(poly, round, width, 0);
        assert(terms_value(empty.terms, point) == 0);
    } else {
        let less = (count - 1) as nat;
        let before = round_accumulator(poly, round, width, less);
        let values = round_bindings(round, width, less);
        let folded = poly.assign_all(values);
        lemma_round_accumulator_eval(poly, round, width, less, point);
        lemma_assign_all_shape(poly, values);
        lemma_assign_all_eval(poly, values, point);
        lemma_plus_eval(before, folded, point);
        assert(folded.eval(point) == f(less));
        lemma_add_mod_noop(sum_to(f, less), f(less), poly.modulus);
        lemma_add_mod_noop_right(sum_to(f, less) % poly.modulus, f(less), poly.modulus);
        lemma_mod_bound(terms_value(poly.terms, bind_point(values, point)), poly.modulus);
        lemma_small_mod(f(less) as nat, poly.modulus as nat);
    }
}

} // verus!
