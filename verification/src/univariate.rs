//! Sparse polynomials in one variable over the residues modulo `P`: the message that the
//! prover sends in each round.

use crate::error::Error;
use crate::field::add_mod;
use crate::field::mul_mod;
use crate::field::pow_mod;
use crate::hypercube::lemma_sum_add;
use crate::hypercube::lemma_sum_equal;
use crate::hypercube::lemma_sum_single;
use crate::hypercube::sum_to;
use vstd::arithmetic::div_mod::*;
use vstd::arithmetic::mul::*;
use vstd::arithmetic::power::*;
use vstd::prelude::*;

verus! {

/// A `(power, coefficient)` pair as contracts see it.
pub type Entry = (usize, int);

/// The sum of `coefficient * t^power` over `entries`, as an integer.
pub open spec fn entries_value(entries: Seq<Entry>, t: int) -> int
    decreases entries.len(),
{
    if entries.len() == 0 {
        0
    } else {
        entries_value(entries.drop_last(), t) + entries.last().1 * pow(t, entries.last().0 as nat)
    }
}

/// The sum of the coefficients that `entries` gives to `power`.
pub open spec fn coeff_sum(entries: Seq<Entry>, power: usize) -> int
    decreases entries.len(),
{
    if entries.len() == 0 {
        0
    } else {
        coeff_sum(entries.drop_last(), power) + if entries.last().0 == power {
            entries.last().1
        } else {
            0
        }
    }
}

/// Canonical shape: powers strictly increase and every coefficient is a nonzero residue.
pub open spec fn canonical(entries: Seq<Entry>, modulus: int) -> bool {
    &&& forall|i: int| 0 <= i < entries.len() ==> 0 < (#[trigger] entries[i]).1 < modulus
    &&& forall|i: int, j: int|
        0 <= i < j < entries.len() ==> (#[trigger] entries[i]).0 < (#[trigger] entries[j]).0
}

/// A univariate polynomial as contracts see it.
pub struct UniModel {
    pub modulus: int,
    pub coeffs: Seq<Entry>,
}

impl UniModel {
    /// The modulus is at least two and the entries are canonical.
    pub open spec fn wf(self) -> bool {
        self.modulus >= 2 && canonical(self.coeffs, self.modulus)
    }

    /// The coefficient of `t^power`; zero where no entry has that power.
    pub open spec fn coeff(self, power: usize) -> int {
        coeff_sum(self.coeffs, power)
    }

    /// The value at `t`, as a residue.
    pub open spec fn eval(self, t: int) -> int {
        entries_value(self.coeffs, t) % self.modulus
    }

    /// The round commitment: the value at zero plus the value at one, as a residue.
    pub open spec fn commitment(self) -> int {
        (self.eval(0) + self.eval(1)) % self.modulus
    }
}

/// How contracts see a list of stored entries.
pub open spec fn entries_model(entries: Seq<(usize, u64)>) -> Seq<Entry> {
    Seq::new(entries.len(), |i: int| (entries[i].0, entries[i].1 as int))
}

/// Inserting an entry adds its coefficient to its power and its monomial to the value.
pub proof fn lemma_insert_entry(entries: Seq<Entry>, at: int, entry: Entry)
    requires
        0 <= at <= entries.len(),
    ensures
        forall|t: int| #[trigger]
            entries_value(entries.insert(at, entry), t) == entries_value(entries, t) + entry.1
                * pow(t, entry.0 as nat),
        forall|k: usize| #[trigger]
            coeff_sum(entries.insert(at, entry), k) == coeff_sum(entries, k) + if entry.0 == k {
                entry.1
            } else {
                0
            },
    decreases entries.len(),
{
    let grown = entries.insert(at, entry);
    if at == entries.len() {
        assert(grown.drop_last() =~= entries);
        assert(grown.last() == entry);
        assert forall|t: int| #[trigger]
            entries_value(grown, t) == entries_value(entries, t) + entry.1 * pow(
                t,
                entry.0 as nat,
            ) by {}
        assert forall|k: usize| #[trigger]
            coeff_sum(grown, k) == coeff_sum(entries, k) + if entry.0 == k {
                entry.1
            } else {
                0
            } by {}
    } else {
        let rest = entries.drop_last();
        lemma_insert_entry(rest, at, entry);
        assert(grown.drop_last() =~= rest.insert(at, entry));
        assert(grown.last() == entries.last());
        assert forall|t: int| #[trigger]
            entries_value(grown, t) == entries_value(entries, t) + entry.1 * pow(
                t,
                entry.0 as nat,
            ) by {
            assert(entries_value(rest.insert(at, entry), t) == entries_value(rest, t) + entry.1
                * pow(t, entry.0 as nat));
        }
        assert forall|k: usize| #[trigger]
            coeff_sum(grown, k) == coeff_sum(entries, k) + if entry.0 == k {
                entry.1
            } else {
                0
            } by {
            assert(coeff_sum(rest.insert(at, entry), k) == coeff_sum(rest, k) + if entry.0 == k {
                entry.1
            } else {
                0
            });
        }
    }
}

/// Removing an entry takes its coefficient from its power and its monomial from the value.
pub proof fn lemma_remove_entry(entries: Seq<Entry>, at: int)
    requires
        0 <= at < entries.len(),
    ensures
        forall|t: int| #[trigger]
            entries_value(entries.remove(at), t) == entries_value(entries, t) - entries[at].1
                * pow(t, entries[at].0 as nat),
        forall|k: usize| #[trigger]
            coeff_sum(entries.remove(at), k) == coeff_sum(entries, k) - if entries[at].0 == k {
                entries[at].1
            } else {
                0
            },
{
    let shrunk = entries.remove(at);
    assert(shrunk.insert(at, entries[at]) =~= entries);
    lemma_insert_entry(shrunk, at, entries[at]);
}

/// In a canonical list a power's coefficient is the coefficient of the one entry with that
/// power, or zero where there is none.
pub proof fn lemma_canonical_coeff(entries: Seq<Entry>, modulus: int, power: usize)
    requires
        canonical(entries, modulus),
    ensures
        0 <= coeff_sum(entries, power) < modulus || (coeff_sum(entries, power) == 0),
        forall|j: int|
            0 <= j < entries.len() && (#[trigger] entries[j]).0 == power ==> coeff_sum(
                entries,
                power,
            ) == entries[j].1,
        (forall|j: int| 0 <= j < entries.len() ==> (#[trigger] entries[j]).0 != power)
            ==> coeff_sum(entries, power) == 0,
    decreases entries.len(),
{
    if entries.len() > 0 {
        let rest = entries.drop_last();
        let last = entries.last();
        assert(last == entries[entries.len() - 1]);
        assert(canonical(rest, modulus)) by {
            assert forall|i: int| 0 <= i < rest.len() implies 0 < (#[trigger] rest[i]).1
                < modulus by {
                assert(rest[i] == entries[i]);
            }
            assert forall|i: int, j: int| 0 <= i < j < rest.len() implies (#[trigger] rest[i]).0 < (
            #[trigger] rest[j]).0 by {
                assert(rest[i] == entries[i]);
                assert(rest[j] == entries[j]);
            }
        }
        lemma_canonical_coeff(rest, modulus, power);
        assert forall|j: int| 0 <= j < rest.len() implies (#[trigger] rest[j]).0 < last.0 by {
            assert(rest[j] == entries[j]);
        }
        if last.0 == power {
            assert(coeff_sum(rest, power) == 0);
        }
        assert forall|j: int| 0 <= j < entries.len() && (#[trigger] entries[j]).0
            == power implies coeff_sum(entries, power) == entries[j].1 by {
            if j < rest.len() {
                assert(rest[j] == entries[j]);
            }
        }
        if forall|j: int| 0 <= j < entries.len() ==> (#[trigger] entries[j]).0 != power {
            assert forall|j: int| 0 <= j < rest.len() implies (#[trigger] rest[j]).0 != power by {
                assert(rest[j] == entries[j]);
            }
        }
    }
}

/// The monomials of a polynomial by power: the coefficient of each power times that
/// power of `t`.
pub open spec fn coefficient_terms(entries: Seq<Entry>, t: int) -> spec_fn(nat) -> int {
    |k: nat| coeff_sum(entries, k as usize) * pow(t, k)
}

/// The value of a polynomial is determined by its coefficients: it is the sum over all
/// powers of the power's coefficient times that power of `t`.
pub proof fn lemma_value_by_coefficients(entries: Seq<Entry>, t: int)
    ensures
        entries_value(entries, t) == sum_to(
            coefficient_terms(entries, t),
            (usize::MAX + 1) as nat,
        ),
    decreases entries.len(),
{
    let bound = (usize::MAX + 1) as nat;
    if entries.len() == 0 {
        let zero = |k: nat| 0int;
        assert forall|k: nat| k < bound implies #[trigger] coefficient_terms(entries, t)(k) == zero(
            k,
        ) by {
            assert(coeff_sum(entries, k as usize) * pow(t, k) == 0);
        }
        lemma_sum_equal(coefficient_terms(entries, t), zero, bound);
        lemma_sum_single(zero, 0, bound);
    } else {
        let rest = entries.drop_last();
        let last = entries.last();
        lemma_value_by_coefficients(rest, t);
        let before = coefficient_terms(rest, t);
        let added = last.1 * pow(t, last.0 as nat);
        let single = |k: nat|
            if k == last.0 as nat {
                added
            } else {
                0int
            };
        assert forall|k: nat| k < bound implies #[trigger] coefficient_terms(entries, t)(k)
            == before(k) + single(k) by {
            let x = pow(t, k);
            let c = coeff_sum(rest, k as usize);
            if last.0 == k as usize {
                assert((c + last.1) * x == c * x + last.1 * x) by (nonlinear_arith);
            }
        }
        lemma_sum_add(coefficient_terms(entries, t), before, single, bound);
        lemma_sum_single(single, last.0 as nat, bound);
    }
}

/// Two polynomials whose coefficients differ at one power only have values that differ
/// by that power's monomial.
pub proof fn lemma_single_coefficient(a: Seq<Entry>, b: Seq<Entry>, power: usize, t: int)
    requires
        forall|k: usize| k != power ==> coeff_sum(a, k) == coeff_sum(b, k),
    ensures
        entries_value(b, t) == entries_value(a, t) + (coeff_sum(b, power) - coeff_sum(a, power))
            * pow(t, power as nat),
{
    let bound = (usize::MAX + 1) as nat;
    lemma_value_by_coefficients(a, t);
    lemma_value_by_coefficients(b, t);
    let before = coefficient_terms(a, t);
    let added = (coeff_sum(b, power) - coeff_sum(a, power)) * pow(t, power as nat);
    let single = |k: nat|
        if k == power as nat {
            added
        } else {
            0int
        };
    assert forall|k: nat| k < bound implies #[trigger] coefficient_terms(b, t)(k) == before(k)
        + single(k) by {
        let x = pow(t, k);
        if k as usize == power {
            assert(coeff_sum(b, power) * x == coeff_sum(a, power) * x + (coeff_sum(b, power)
                - coeff_sum(a, power)) * x) by (nonlinear_arith);
        } else {
            assert(coeff_sum(a, k as usize) == coeff_sum(b, k as usize));
        }
    }
    lemma_sum_add(coefficient_terms(b, t), before, single, bound);
    lemma_sum_single(single, power as nat, bound);
}

/// A sparse univariate polynomial with coefficients modulo `P`, kept in canonical form:
/// powers strictly increase and no stored coefficient is zero.
#[derive(Debug, PartialEq, Eq)]
pub struct UnivariatePolynomial<const P: u64> {
    coeffs: Vec<(usize, u64)>,
}

impl<const P: u64> View for UnivariatePolynomial<P> {
    type V = UniModel;

    closed spec fn view(&self) -> UniModel {
        UniModel { modulus: P as int, coeffs: entries_model(self.coeffs@) }
    }
}

impl<const P: u64> Clone for UnivariatePolynomial<P> {
    fn clone(&self) -> (r: Self)
        ensures
            r@ == self@,
    {
        UnivariatePolynomial { coeffs: self.coefficients() }
    }
}

impl<const P: u64> UnivariatePolynomial<P> {
    /// Well-formedness of the stored polynomial, over the residues modulo `P`.
    pub open spec fn wf(&self) -> bool {
        self@.wf() && self@.modulus == P
    }

    /// The zero polynomial.
    pub fn zero() -> (r: Self)
        ensures
            r@ == (UniModel { modulus: P as int, coeffs: Seq::empty() }),
            P >= 2 ==> r.wf(),
    {
        let r = UnivariatePolynomial { coeffs: Vec::new() };
        proof {
            assert(r@.coeffs =~= Seq::empty());
        }
        r
    }

    /// Builds the canonical polynomial with the given `(power, coefficient)` entries:
    /// entries of one power are added up and zero coefficients are dropped.
    pub fn from_coefficients_vec(coeffs: Vec<(usize, u64)>) -> (r: Result<Self, Error>)
        ensures
            r is Ok <==> P >= 2,
            r is Err ==> r == Err::<Self, Error>(Error::InvalidModulus),
            r is Ok ==> {
                &&& r->Ok_0.wf()
                &&& forall|k: usize| #[trigger]
                    r->Ok_0@.coeff(k) == coeff_sum(entries_model(coeffs@), k) % (P as int)
                &&& forall|t: int| #[trigger]
                    r->Ok_0@.eval(t) == entries_value(entries_model(coeffs@), t) % (P as int)
            },
    {
        if P < 2 {
            return Err(Error::InvalidModulus);
        }
        let ghost m = P as int;
        let ghost given = entries_model(coeffs@);
        let mut poly = Self::zero();
        let mut i: usize = 0;
        proof {
            lemma_small_mod(0, P as nat);
            assert(given.take(0).len() == 0);
        }
        while i < coeffs.len()
            invariant
                P >= 2,
                m == P as int,
                given == entries_model(coeffs@),
                i <= coeffs.len(),
                poly.wf(),
                forall|k: usize| #[trigger] poly@.coeff(k) == coeff_sum(given.take(i as int), k) % m,
                forall|t: int| #[trigger]
                    poly@.eval(t) == entries_value(given.take(i as int), t) % m,
            decreases coeffs.len() - i,
        {
            let (power, coefficient) = coeffs[i];
            let ghost old_poly = poly@;
            poly.add_term(power, coefficient);
            proof {
                let head = given.take(i as int);
                let next = given.take(i + 1);
                assert(next.drop_last() =~= head);
                assert(next.last() == given[i as int]);
                assert forall|k: usize| #[trigger] poly@.coeff(k) == coeff_sum(next, k) % m by {
                    let d = if k == power {
                        coefficient as int
                    } else {
                        0
                    };
                    assert(poly@.coeff(k) == (old_poly.coeff(k) + d) % m);
                    lemma_add_mod_noop(coeff_sum(head, k), d, m);
                    lemma_add_mod_noop_right(coeff_sum(head, k) % m, d, m);
                }
                assert forall|t: int| #[trigger] poly@.eval(t) == entries_value(next, t) % m by {
                    let d = coefficient * pow(t, power as nat);
                    assert(poly@.eval(t) == (old_poly.eval(t) + d) % m);
                    lemma_add_mod_noop(entries_value(head, t), d, m);
                    lemma_add_mod_noop_right(entries_value(head, t) % m, d, m);
                }
            }
            i += 1;
        }
        proof {
            assert(given.take(i as int) =~= given);
        }
        Ok(poly)
    }

    /// The stored `(power, coefficient)` entries, by increasing power.
    pub fn coefficients(&self) -> (r: Vec<(usize, u64)>)
        ensures
            entries_model(r@) == self@.coeffs,
    {
        let mut copy: Vec<(usize, u64)> = Vec::new();
        let mut i: usize = 0;
        while i < self.coeffs.len()
            invariant
                i <= self.coeffs.len(),
                copy@ == self.coeffs@.take(i as int),
            decreases self.coeffs.len() - i,
        {
            copy.push(self.coeffs[i]);
            proof {
                assert(self.coeffs@.take(i + 1) =~= self.coeffs@.take(i as int).push(
                    self.coeffs@[i as int],
                ));
            }
            i += 1;
        }
        proof {
            assert(self.coeffs@.take(i as int) =~= self.coeffs@);
        }
        copy
    }

    /// The value at `point`, read modulo `P`.
    pub fn evaluate(&self, point: u64) -> (r: u64)
        requires
            self.wf(),
        ensures
            r == self@.eval(point as int),
            r < P,
    {
        let ghost m = P as int;
        let ghost all = self@.coeffs;
        let mut total: u64 = 0;
        let mut i: usize = 0;
        proof {
            lemma_small_mod(0, P as nat);
            assert(all.take(0).len() == 0);
        }
        while i < self.coeffs.len()
            invariant
                self.wf(),
                m == P as int,
                all == self@.coeffs,
                i <= self.coeffs.len(),
                total == entries_value(all.take(i as int), point as int) % m,
                total < P,
            decreases self.coeffs.len() - i,
        {
            let (power, coefficient) = self.coeffs[i];
            let raised = pow_mod(point, power, P);
            let summand = mul_mod(coefficient, raised, P);
            let ghost before = total as int;
            total = add_mod(total, summand, P);
            proof {
                let head = all.take(i as int);
                let next = all.take(i + 1);
                let full = pow(point as int, power as nat);
                assert(next.drop_last() =~= head);
                assert(next.last() == all[i as int]);
                assert(all[i as int] == (power, coefficient as int));
                lemma_mul_mod_noop_right(coefficient as int, full, m);
                lemma_add_mod_noop(entries_value(head, point as int), coefficient as int * full, m);
                lemma_small_mod(summand as nat, m as nat);
            }
            i += 1;
        }
        proof {
            assert(all.take(i as int) =~= all);
        }
        total
    }

    /// The round commitment: the value at zero plus the value at one.
    pub fn commitment(&self) -> (r: u64)
        requires
            self.wf(),
        ensures
            r == self@.commitment(),
            r < P,
    {
        let at_zero = self.evaluate(0);
        let at_one = self.evaluate(1);
        add_mod(at_zero, at_one, P)
    }

    /// Adds `coefficient * t^power` to the polynomial, keeping it canonical.
    pub fn add_term(&mut self, power: usize, coefficient: u64)
        requires
            old(self).wf(),
        ensures
            final(self).wf(),
            forall|k: usize| #[trigger]
                final(self)@.coeff(k) == (old(self)@.coeff(k) + if k == power {
                    coefficient as int
                } else {
                    0
                }) % (P as int),
            forall|t: int| #[trigger]
                final(self)@.eval(t) == (old(self)@.eval(t) + coefficient * pow(t, power as nat))
                    % (P as int),
    {
        let ghost m = P as int;
        let ghost before = self@.coeffs;
        let c = coefficient % P;
        let mut i: usize = 0;
        while i < self.coeffs.len() && self.coeffs[i].0 < power
            invariant
                i <= self.coeffs.len(),
                self@.coeffs == before,
                forall|j: int| 0 <= j < i ==> (#[trigger] before[j]).0 < power,
            decreases self.coeffs.len() - i,
        {
            proof {
                assert(before[i as int] == (self.coeffs@[i as int].0, self.coeffs@[i as int].1 as int));
            }
            i += 1;
        }
        proof {
            if i < self.coeffs.len() {
                assert(before[i as int] == (self.coeffs@[i as int].0, self.coeffs@[i as int].1 as int));
            }
        }
        if i < self.coeffs.len() && self.coeffs[i].0 == power {
            let sum = add_mod(self.coeffs[i].1, c, P);
            let ghost held = before[i as int];
            proof {
                lemma_remove_entry(before, i as int);
            }
            if sum == 0 {
                self.coeffs.remove(i);
                proof {
                    assert(self@.coeffs =~= before.remove(i as int));
                    assert(canonical(self@.coeffs, m)) by {
                        let now = self@.coeffs;
                        assert forall|a: int| 0 <= a < now.len() implies 0 < (#[trigger] now[a]).1
                            < m by {
                            if a < i {
                                assert(now[a] == before[a]);
                            } else {
                                assert(now[a] == before[a + 1]);
                            }
                        }
                        assert forall|a: int, b: int| 0 <= a < b < now.len() implies (
                        #[trigger] now[a]).0 < (#[trigger] now[b]).0 by {
                            let a0 = if a < i { a } else { a + 1 };
                            let b0 = if b < i { b } else { b + 1 };
                            assert(now[a] == before[a0]);
                            assert(now[b] == before[b0]);
                        }
                    }
                    assert forall|k: usize| #[trigger]
                        self@.coeff(k) == (coeff_sum(before, k) + if k == power {
                            coefficient as int
                        } else {
                            0
                        }) % m by {
                        lemma_canonical_coeff(before, m, k);
                        lemma_add_mod_noop_right(held.1, coefficient as int, m);
                        if k == power {
                            assert(coeff_sum(before, k) == held.1);
                        } else {
                            lemma_small_mod(coeff_sum(before, k) as nat, m as nat);
                        }
                    }
                    assert forall|t: int| #[trigger]
                        self@.eval(t) == ((entries_value(before, t) % m) + coefficient * pow(
                            t,
                            power as nat,
                        )) % m by {
                        let x = pow(t, power as nat);
                        lemma_add_mod_noop_right(held.1, coefficient as int, m);
                        assert((held.1 + coefficient) % m == 0);
                        lemma_mul_mod_noop_left(held.1 + coefficient, x, m);
                        assert(((held.1 + coefficient) * x) % m == 0) by {
                            assert((0 * x) % m == 0) by {
                                assert(0 * x == 0);
                                lemma_small_mod(0, m as nat);
                            }
                        }
                        assert(entries_value(before, t) + coefficient * x == entries_value(
                            self@.coeffs,
                            t,
                        ) + (held.1 + coefficient) * x) by (nonlinear_arith)
                            requires
                                entries_value(self@.coeffs, t) == entries_value(before, t) - held.1
                                    * x,
                        ;
                        lemma_add_mod_noop_right(
                            entries_value(self@.coeffs, t),
                            (held.1 + coefficient) * x,
                            m,
                        );
                        lemma_add_mod_noop(entries_value(before, t), coefficient * x, m);
                        lemma_add_mod_noop_right(
                            entries_value(before, t) % m,
                            coefficient * x,
                            m,
                        );
                    }
                }
            } else {
                self.coeffs.remove(i);
                self.coeffs.insert(i, (power, sum));
                proof {
                    let gone = before.remove(i as int);
                    let entry: Entry = (power, sum as int);
                    lemma_insert_entry(gone, i as int, entry);
                    assert(self@.coeffs =~= gone.insert(i as int, entry));
                    assert(self@.coeffs =~= before.update(i as int, entry));
                    assert(canonical(self@.coeffs, m)) by {
                        let now = self@.coeffs;
                        assert forall|a: int| 0 <= a < now.len() implies 0 < (#[trigger] now[a]).1
                            < m by {
                            if a != i {
                                assert(now[a] == before[a]);
                            }
                        }
                        assert forall|a: int, b: int| 0 <= a < b < now.len() implies (
                        #[trigger] now[a]).0 < (#[trigger] now[b]).0 by {
                            assert(now[a].0 == before[a].0);
                            assert(now[b].0 == before[b].0);
                        }
                    }
                    assert forall|k: usize| #[trigger]
                        self@.coeff(k) == (coeff_sum(before, k) + if k == power {
                            coefficient as int
                        } else {
                            0
                        }) % m by {
                        lemma_canonical_coeff(before, m, k);
                        lemma_add_mod_noop_right(held.1, coefficient as int, m);
                        if k == power {
                            assert(coeff_sum(before, k) == held.1);
                        } else {
                            lemma_small_mod(coeff_sum(before, k) as nat, m as nat);
                        }
                    }
                    assert forall|t: int| #[trigger]
                        self@.eval(t) == ((entries_value(before, t) % m) + coefficient * pow(
                            t,
                            power as nat,
                        )) % m by {
                        let x = pow(t, power as nat);
                        let rest = entries_value(before, t) - held.1 * x;
                        lemma_add_mod_noop_right(held.1, coefficient as int, m);
                        lemma_mul_mod_noop_left(held.1 + coefficient, x, m);
                        assert(((sum as int) * x) % m == ((held.1 + coefficient) * x) % m);
                        lemma_add_mod_noop_right(rest, (sum as int) * x, m);
                        lemma_add_mod_noop_right(rest, (held.1 + coefficient) * x, m);
                        assert(rest + (held.1 + coefficient) * x == entries_value(before, t)
                            + coefficient * x) by (nonlinear_arith)
                            requires
                                rest == entries_value(before, t) - held.1 * x,
                        ;
                        lemma_add_mod_noop(entries_value(before, t), coefficient * x, m);
                        lemma_add_mod_noop_right(
                            entries_value(before, t) % m,
                            coefficient * x,
                            m,
                        );
                    }
                }
            }
        } else if c != 0 {
            self.coeffs.insert(i, (power, c));
            proof {
                let entry: Entry = (power, c as int);
                lemma_insert_entry(before, i as int, entry);
                assert(self@.coeffs =~= before.insert(i as int, entry));
                assert(canonical(self@.coeffs, m)) by {
                    let now = self@.coeffs;
                    assert forall|a: int| 0 <= a < now.len() implies 0 < (#[trigger] now[a]).1
                        < m by {
                        if a < i {
                            assert(now[a] == before[a]);
                        } else if a > i {
                            assert(now[a] == before[a - 1]);
                        }
                    }
                    assert forall|a: int, b: int| 0 <= a < b < now.len() implies (
                    #[trigger] now[a]).0 < (#[trigger] now[b]).0 by {
                        if a < i {
                            assert(now[a] == before[a]);
                        } else if a > i {
                            assert(now[a] == before[a - 1]);
                        }
                        if b < i {
                            assert(now[b] == before[b]);
                        } else if b > i {
                            assert(now[b] == before[b - 1]);
                            if a == i {
                                assert(before[i as int].0 <= before[b - 1].0);
                            }
                        }
                    }
                }
                assert forall|k: usize| #[trigger]
                    self@.coeff(k) == (coeff_sum(before, k) + if k == power {
                        coefficient as int
                    } else {
                        0
                    }) % m by {
                    lemma_canonical_coeff(before, m, k);
                    if k == power {
                        assert(coeff_sum(before, k) == 0);
                    } else {
                        lemma_small_mod(coeff_sum(before, k) as nat, m as nat);
                    }
                }
                assert forall|t: int| #[trigger]
                    self@.eval(t) == ((entries_value(before, t) % m) + coefficient * pow(
                        t,
                        power as nat,
                    )) % m by {
                    let x = pow(t, power as nat);
                    lemma_mul_mod_noop_left(coefficient as int, x, m);
                    lemma_add_mod_noop_right(entries_value(before, t), (c as int) * x, m);
                    lemma_add_mod_noop_right(entries_value(before, t), coefficient * x, m);
                    lemma_add_mod_noop(entries_value(before, t), coefficient * x, m);
                    lemma_add_mod_noop_right(entries_value(before, t) % m, coefficient * x, m);
                }
            }
        } else {
            proof {
                assert forall|k: usize| #[trigger]
                    self@.coeff(k) == (coeff_sum(before, k) + if k == power {
                        coefficient as int
                    } else {
                        0
                    }) % m by {
                    lemma_canonical_coeff(before, m, k);
                    if k == power {
                        assert(coeff_sum(before, k) == 0);
                    } else {
                        lemma_small_mod(coeff_sum(before, k) as nat, m as nat);
                    }
                }
                assert forall|t: int| #[trigger]
                    self@.eval(t) == ((entries_value(before, t) % m) + coefficient * pow(
                        t,
                        power as nat,
                    )) % m by {
                    let x = pow(t, power as nat);
                    lemma_mul_mod_noop_left(coefficient as int, x, m);
                    assert((0 * x) % m == 0) by {
                        assert(0 * x == 0);
                        lemma_small_mod(0, m as nat);
                    }
                    lemma_add_mod_noop_right(entries_value(before, t) % m, coefficient * x, m);
                    lemma_mod_twice(entries_value(before, t), m);
                }
            }
        }
    }
}

} // verus!
