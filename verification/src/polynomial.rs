//! Sparse polynomials over the residues modulo `P`, and the folding operations that bind
//! variables of a multivariate polynomial until one is left.

use crate::error::Error;
use crate::field::add_mod;
use crate::field::mul_mod;
use crate::field::pow_mod;
use crate::hypercube::is_enumeration;
use crate::hypercube::lemma_enumeration_remove;
use crate::term::lemma_monomial_assign;
use crate::term::lemma_normalized_powers;
use crate::term::lemma_normalized_unique;
use crate::term::lemma_without_variable;
use crate::term::monomial_value;
use crate::term::normalized;
use crate::term::power_of;
use crate::term::term_clone;
use crate::term::term_factors;
use crate::term::term_new;
use crate::term::term_to_vec;
use crate::term::vars_below;
use crate::term::vars_from;
use crate::term::without_variable;
use crate::univariate::coeff_sum;
use crate::univariate::entries_value;
use crate::univariate::Entry;
use crate::univariate::UnivariatePolynomial;
use ark_poly::multivariate::SparseTerm;
use vstd::arithmetic::div_mod::*;
use vstd::arithmetic::mul::*;
use vstd::arithmetic::power::*;
use vstd::prelude::*;

verus! {

/// A monomial with its coefficient, as contracts see it.
pub type TermModel = (int, Seq<(usize, usize)>);

/// The sum of `coefficient * monomial` over `terms`, as an integer.
pub open spec fn terms_value(terms: Seq<TermModel>, point: Seq<int>) -> int
    decreases terms.len(),
{
    if terms.len() == 0 {
        0
    } else {
        terms_value(terms.drop_last(), point) + terms.last().0 * monomial_value(
            terms.last().1,
            point,
        )
    }
}

/// What binding `variable` to `value` makes of one term: the bound power moves into the
/// coefficient and the factor goes.
pub open spec fn assign_term(term: TermModel, variable: usize, value: int, modulus: int) -> TermModel {
    (
        (term.0 * pow(value, power_of(term.1, variable))) % modulus,
        without_variable(term.1, variable),
    )
}

/// `assign_term` on every term of a list.
pub open spec fn assign_terms(
    terms: Seq<TermModel>,
    variable: usize,
    value: int,
    modulus: int,
) -> Seq<TermModel> {
    Seq::new(terms.len(), |i: int| assign_term(terms[i], variable, value, modulus))
}

/// A multivariate polynomial as contracts see it.
pub struct PolyModel {
    pub modulus: int,
    pub num_vars: int,
    pub terms: Seq<TermModel>,
}

impl PolyModel {
    /// Coefficients are residues, terms are canonical and name declared variables only.
    pub open spec fn wf(self) -> bool {
        &&& self.modulus >= 2
        &&& 0 <= self.num_vars <= usize::MAX
        &&& forall|i: int|
            0 <= i < self.terms.len() ==> {
                &&& 0 <= (#[trigger] self.terms[i]).0 < self.modulus
                &&& normalized(self.terms[i].1)
                &&& vars_below(self.terms[i].1, self.num_vars)
            }
    }

    /// The value of the polynomial at `point`, as a residue.
    pub open spec fn eval(self, point: Seq<int>) -> int {
        terms_value(self.terms, point) % self.modulus
    }

    /// The polynomial with `variable` bound to `value`; the declared dimension stays.
    pub open spec fn assign(self, variable: usize, value: int) -> PolyModel {
        PolyModel {
            modulus: self.modulus,
            num_vars: self.num_vars,
            terms: assign_terms(self.terms, variable, value, self.modulus),
        }
    }

    /// The polynomial after the bindings of `values`, applied first to last.
    pub open spec fn assign_all(self, values: Seq<(usize, u64)>) -> PolyModel
        decreases values.len(),
    {
        if values.len() == 0 {
            self
        } else {
            self.assign_all(values.drop_last()).assign(values.last().0, values.last().1 as int)
        }
    }

    /// The sum of two polynomials: the terms of both, over the larger dimension.
    pub open spec fn plus(self, other: PolyModel) -> PolyModel {
        PolyModel {
            modulus: self.modulus,
            num_vars: if self.num_vars >= other.num_vars {
                self.num_vars
            } else {
                other.num_vars
            },
            terms: self.terms + other.terms,
        }
    }

    /// Every variable that a term names is at least `bound`.
    pub open spec fn vars_from(self, bound: int) -> bool {
        forall|i: int| 0 <= i < self.terms.len() ==> vars_from((#[trigger] self.terms[i]).1, bound)
    }
}

/// How contracts see one stored term.
pub open spec fn term_model(term: (u64, SparseTerm)) -> TermModel {
    (term.0 as int, term_factors(term.1))
}

/// How contracts see a list of stored terms.
pub open spec fn terms_model(terms: Seq<(u64, SparseTerm)>) -> Seq<TermModel> {
    Seq::new(terms.len(), |i: int| term_model(terms[i]))
}

/// A point's coordinates as integers.
pub open spec fn point_model(point: Seq<u64>) -> Seq<int> {
    Seq::new(point.len(), |i: int| point[i] as int)
}

/// A sparse multivariate polynomial with coefficients modulo `P`.
///
/// `P` is meant to be prime; nothing here depends on it but the meaning of the word field.
#[derive(Debug)]
pub struct MultivariatePolynomial<const P: u64> {
    num_vars: usize,
    terms: Vec<(u64, SparseTerm)>,
}

impl<const P: u64> View for MultivariatePolynomial<P> {
    type V = PolyModel;

    closed spec fn view(&self) -> PolyModel {
        PolyModel {
            modulus: P as int,
            num_vars: self.num_vars as int,
            terms: terms_model(self.terms@),
        }
    }
}

impl<const P: u64> Clone for MultivariatePolynomial<P> {
    fn clone(&self) -> (r: Self)
        ensures
            r@ == self@,
    {
        let mut terms: Vec<(u64, SparseTerm)> = Vec::new();
        let mut i: usize = 0;
        while i < self.terms.len()
            invariant
                i <= self.terms.len(),
                terms@.len() == i,
                forall|k: int|
                    0 <= k < i ==> term_model(#[trigger] terms@[k]) == term_model(self.terms@[k]),
            decreases self.terms.len() - i,
        {
            let copy = term_clone(&self.terms[i].1);
            terms.push((self.terms[i].0, copy));
            i += 1;
        }
        let r = MultivariatePolynomial { num_vars: self.num_vars, terms };
        proof {
            assert(r@.terms =~= self@.terms);
        }
        r
    }
}

/// Some term is not in canonical form.
pub open spec fn any_malformed(terms: Seq<(u64, SparseTerm)>) -> bool {
    exists|i: int| 0 <= i < terms.len() && !normalized(term_factors((#[trigger] terms[i]).1))
}

/// Some term names a variable that is not below `num_vars`.
pub open spec fn any_out_of_range(terms: Seq<(u64, SparseTerm)>, num_vars: usize) -> bool {
    exists|i: int|
        0 <= i < terms.len() && !vars_below(
            term_factors((#[trigger] terms[i]).1),
            num_vars as int,
        )
}

/// Whether `factors` is canonical and, separately, whether it stays below `num_vars`.
fn inspect_factors(factors: &Vec<(usize, usize)>, num_vars: usize) -> (r: (bool, bool))
    ensures
        r.0 == normalized(factors@),
        r.1 == vars_below(factors@, num_vars as int),
{
    let mut canonical = true;
    let mut in_range = true;
    let mut i: usize = 0;
    while i < factors.len()
        invariant
            i <= factors.len(),
            canonical == normalized(factors@.take(i as int)),
            in_range == vars_below(factors@.take(i as int), num_vars as int),
        decreases factors.len() - i,
    {
        let ghost before = factors@.take(i as int);
        let ghost after = factors@.take(i + 1);
        let (variable, power) = factors[i];
        proof {
            assert(after =~= before.push(factors@[i as int]));
            assert forall|k: int| 0 <= k < before.len() implies before[k] == after[k] by {}
            assert(after[i as int] == factors@[i as int]);
        }
        let follows = i == 0 || factors[i - 1].0 < variable;
        if power == 0 || !follows {
            canonical = false;
            proof {
                if power != 0 {
                    assert(after[i - 1] == factors@[i - 1]);
                }
            }
        } else {
            proof {
                if canonical {
                    assert forall|a: int, b: int| 0 <= a < b < after.len() implies (
                    #[trigger] after[a]).0 < (#[trigger] after[b]).0 by {
                        if b == i {
                            assert(after[i - 1] == before[i - 1]);
                            if a < i - 1 {
                                assert(before[a].0 < before[i - 1].0);
                            }
                        } else {
                            assert(before[a].0 < before[b].0);
                        }
                    }
                } else {
                    if !(forall|k: int| 0 <= k < before.len() ==> (#[trigger] before[k]).1 > 0) {
                        let k = choose|k: int| 0 <= k < before.len() && !((#[trigger] before[k]).1 > 0);
                        assert(after[k] == before[k]);
                    } else {
                        let (a, b) = choose|a: int, b: int|
                            0 <= a < b < before.len() && !((#[trigger] before[a]).0 < (
                            #[trigger] before[b]).0);
                        assert(after[a] == before[a]);
                        assert(after[b] == before[b]);
                    }
                }
            }
        }
        if variable >= num_vars {
            in_range = false;
        } else {
            proof {
                if !in_range {
                    let k = choose|k: int| 0 <= k < before.len() && !((#[trigger] before[k]).0 < num_vars);
                    assert(after[k] == before[k]);
                }
            }
        }
        i += 1;
    }
    proof {
        assert(factors@.take(i as int) =~= factors@);
    }
    (canonical, in_range)
}

impl<const P: u64> MultivariatePolynomial<P> {
    /// Well-formedness of the stored polynomial, over the residues modulo `P`.
    pub open spec fn wf(&self) -> bool {
        self@.wf() && self@.modulus == P
    }

    /// Builds a polynomial over `num_vars` variables from coefficients and terms.
    /// Coefficients are reduced modulo `P`; the terms are kept in the given order.
    pub fn from_coefficients_vec(num_vars: usize, terms: Vec<(u64, SparseTerm)>) -> (r: Result<
        Self,
        Error,
    >)
        ensures
            r is Ok <==> P >= 2 && !any_malformed(terms@) && !any_out_of_range(terms@, num_vars),
            r is Ok ==> {
                &&& r->Ok_0.wf()
                &&& r->Ok_0@.num_vars == num_vars
                &&& r->Ok_0@.terms.len() == terms@.len()
                &&& forall|i: int|
                    0 <= i < terms@.len() ==> #[trigger] r->Ok_0@.terms[i] == (
                        terms@[i].0 as int % (P as int),
                        term_factors(terms@[i].1),
                    )
            },
            r is Err ==> r->Err_0 == if P < 2 {
                Error::InvalidModulus
            } else if any_malformed(terms@) {
                Error::MalformedTerm
            } else {
                Error::InvalidVariable
            },
    {
        if P < 2 {
            return Err(Error::InvalidModulus);
        }
        let mut terms = terms;
        let ghost given = terms@;
        let mut malformed = false;
        let mut out_of_range = false;
        let mut i: usize = 0;
        while i < terms.len()
            invariant
                P >= 2,
                i <= terms.len(),
                terms@.len() == given.len(),
                forall|k: int| 0 <= k < terms@.len() ==> (#[trigger] terms@[k]).1 == given[k].1,
                forall|k: int| 0 <= k < i ==> (#[trigger] terms@[k]).0 == given[k].0 % P,
                forall|k: int| i <= k < terms@.len() ==> (#[trigger] terms@[k]).0 == given[k].0,
                malformed == any_malformed(given.take(i as int)),
                out_of_range == any_out_of_range(given.take(i as int), num_vars),
            decreases terms.len() - i,
        {
            let factors = term_to_vec(&terms[i].1);
            let (canonical, in_range) = inspect_factors(&factors, num_vars);
            proof {
                let head = given.take(i as int);
                let next = given.take(i + 1);
                assert(next[i as int] == given[i as int]);
                assert forall|k: int| 0 <= k < i implies #[trigger] next[k] == head[k] by {}
                if any_malformed(head) {
                    let k = choose|k: int|
                        0 <= k < head.len() && !normalized(term_factors((#[trigger] head[k]).1));
                    assert(next[k] == head[k]);
                }
                if any_out_of_range(head, num_vars) {
                    let k = choose|k: int|
                        0 <= k < head.len() && !vars_below(
                            term_factors((#[trigger] head[k]).1),
                            num_vars as int,
                        );
                    assert(next[k] == head[k]);
                }
                if any_malformed(next) && canonical {
                    let k = choose|k: int|
                        0 <= k < next.len() && !normalized(term_factors((#[trigger] next[k]).1));
                    assert(head[k] == next[k]);
                }
                if any_out_of_range(next, num_vars) && in_range {
                    let k = choose|k: int|
                        0 <= k < next.len() && !vars_below(
                            term_factors((#[trigger] next[k]).1),
                            num_vars as int,
                        );
                    assert(head[k] == next[k]);
                }
            }
            if !canonical {
                malformed = true;
            }
            if !in_range {
                out_of_range = true;
            }
            let reduced = terms[i].0 % P;
            let ghost before = terms@;
            let entry = &mut terms[i];
            entry.0 = reduced;
            proof {
                assert(terms@[i as int].1 == before[i as int].1);
            }
            i += 1;
        }
        proof {
            assert(given.take(i as int) =~= given);
        }
        if malformed {
            return Err(Error::MalformedTerm);
        }
        if out_of_range {
            return Err(Error::InvalidVariable);
        }
        let poly = MultivariatePolynomial { num_vars, terms };
        proof {
            assert forall|k: int| 0 <= k < poly@.terms.len() implies {
                &&& 0 <= (#[trigger] poly@.terms[k]).0 < poly@.modulus
                &&& normalized(poly@.terms[k].1)
                &&& vars_below(poly@.terms[k].1, poly@.num_vars)
            } by {
                assert(poly@.terms[k] == term_model(poly.terms@[k]));
                assert(poly.terms@[k].1 == given[k].1);
                assert(normalized(term_factors(given[k].1)));
                assert(vars_below(term_factors(given[k].1), num_vars as int));
            }
        }
        Ok(poly)
    }

    /// The stored terms, for the other files of the crate.
    pub(crate) fn stored_terms(&self) -> (r: &Vec<(u64, SparseTerm)>)
        ensures
            terms_model(r@) == self@.terms,
            self@.modulus == P,
    {
        &self.terms
    }

    /// The declared number of variables.
    pub fn num_vars(&self) -> (r: usize)
        ensures
            r == self@.num_vars,
    {
        self.num_vars
    }

    /// The terms with their coefficients, in stored order.
    pub fn terms(&self) -> (r: Vec<(u64, SparseTerm)>)
        ensures
            terms_model(r@) == self@.terms,
    {
        let copy = self.clone();
        copy.terms
    }

    /// The polynomial without terms, over `num_vars` variables.
    pub fn zero(num_vars: usize) -> (r: Self)
        ensures
            r@ == (PolyModel { modulus: P as int, num_vars: num_vars as int, terms: Seq::empty() }),
            P >= 2 ==> r.wf(),
    {
        let r = MultivariatePolynomial { num_vars, terms: Vec::new() };
        proof {
            assert(r@.terms =~= Seq::empty());
        }
        r
    }

    /// The value at `point`, whose coordinates are read modulo `P`. The point must give
    /// every declared variable a coordinate.
    pub fn evaluate(&self, point: &Vec<u64>) -> (r: u64)
        requires
            self.wf(),
            point@.len() >= self@.num_vars,
        ensures
            r == self@.eval(point_model(point@)),
            r < P,
    {
        let ghost at = point_model(point@);
        let ghost all = self@.terms;
        let mut total: u64 = 0;
        let mut i: usize = 0;
        proof {
            assert(all.take(0).len() == 0);
            lemma_small_mod(0, P as nat);
        }
        while i < self.terms.len()
            invariant
                self.wf(),
                point@.len() >= self@.num_vars,
                at == point_model(point@),
                all == self@.terms,
                i <= self.terms.len(),
                total == terms_value(all.take(i as int), at) % (P as int),
                total < P,
            decreases self.terms.len() - i,
        {
            let factors = term_to_vec(&self.terms[i].1);
            proof {
                assert(all[i as int] == term_model(self.terms@[i as int]));
                assert(vars_below(all[i as int].1, self@.num_vars));
                assert forall|k: int| 0 <= k < factors@.len() implies (#[trigger] factors@[k]).0
                    < point@.len() by {}
            }
            let monomial = monomial_eval::<P>(&factors, point);
            let coefficient = self.terms[i].0;
            let summand = mul_mod(coefficient, monomial, P);
            let ghost before = total as int;
            total = add_mod(total, summand, P);
            proof {
                let m = P as int;
                let head = all.take(i as int);
                let next = all.take(i + 1);
                let full = monomial_value(all[i as int].1, at);
                assert(next.drop_last() =~= head);
                assert(next.last() == all[i as int]);
                assert(terms_value(next, at) == terms_value(head, at) + all[i as int].0 * full);
                lemma_mul_mod_noop_right(coefficient as int, full, m);
                lemma_add_mod_noop(terms_value(head, at), coefficient as int * full, m);
                lemma_mod_bound(terms_value(head, at), m);
                lemma_small_mod(before as nat, m as nat);
                lemma_small_mod(summand as nat, m as nat);
            }
            i += 1;
        }
        proof {
            assert(all.take(i as int) =~= all);
        }
        total
    }

    /// The polynomial with `variable` bound to `value`, term by term.
    pub fn bind(&self, variable: usize, value: u64) -> (r: Self)
        requires
            self.wf(),
        ensures
            r@ == self@.assign(variable, value as int),
            r.wf(),
    {
        let ghost all = self@.terms;
        let ghost target = self@.assign(variable, value as int);
        let mut terms: Vec<(u64, SparseTerm)> = Vec::new();
        let mut i: usize = 0;
        while i < self.terms.len()
            invariant
                self.wf(),
                all == self@.terms,
                target == self@.assign(variable, value as int),
                i <= self.terms.len(),
                terms@.len() == i,
                forall|k: int| 0 <= k < i ==> term_model(#[trigger] terms@[k]) == target.terms[k],
            decreases self.terms.len() - i,
        {
            proof {
                assert(all[i as int] == term_model(self.terms@[i as int]));
                assert(normalized(all[i as int].1));
            }
            let bound = bind_term::<P>(self.terms[i].0, &self.terms[i].1, variable, value);
            terms.push(bound);
            i += 1;
        }
        let r = MultivariatePolynomial { num_vars: self.num_vars, terms };
        proof {
            assert(r@.terms =~= target.terms);
            lemma_assign_wf(self@, variable, value as int);
        }
        r
    }

    /// Adds the terms of `other` to this polynomial; the dimension becomes the larger one.
    pub fn accumulate(&mut self, other: Self)
        ensures
            final(self)@ == old(self)@.plus(other@),
            old(self).wf() && other.wf() ==> final(self).wf(),
    {
        let ghost given = other@;
        let ghost both = old(self).wf() && other.wf();
        let mut other = other;
        let ghost left = self.terms@;
        let ghost right = other.terms@;
        if other.num_vars > self.num_vars {
            self.num_vars = other.num_vars;
        }
        self.terms.append(&mut other.terms);
        proof {
            assert(self.terms@ == left + right);
            assert(terms_model(left + right) =~= terms_model(left) + terms_model(right));
            if both {
                let before = old(self)@;
                let added = given.terms;
                assert(added == terms_model(right));
                assert forall|i: int| 0 <= i < self@.terms.len() implies {
                    &&& 0 <= (#[trigger] self@.terms[i]).0 < self@.modulus
                    &&& normalized(self@.terms[i].1)
                    &&& vars_below(self@.terms[i].1, self@.num_vars)
                } by {
                    if i < before.terms.len() {
                        assert(self@.terms[i] == before.terms[i]);
                    } else {
                        assert(self@.terms[i] == added[i - before.terms.len()]);
                    }
                }
            }
        }
    }
}

/// The value of a monomial at `point`, as a residue.
fn monomial_eval<const P: u64>(factors: &Vec<(usize, usize)>, point: &Vec<u64>) -> (r: u64)
    requires
        P >= 2,
        vars_below(factors@, point@.len() as int),
    ensures
        r == monomial_value(factors@, point_model(point@)) % (P as int),
        r < P,
{
    let ghost at = point_model(point@);
    let mut product: u64 = 1;
    let mut i: usize = 0;
    proof {
        lemma_small_mod(1, P as nat);
        assert(factors@.take(0).len() == 0);
    }
    while i < factors.len()
        invariant
            P >= 2,
            vars_below(factors@, point@.len() as int),
            at == point_model(point@),
            i <= factors.len(),
            product == monomial_value(factors@.take(i as int), at) % (P as int),
            product < P,
        decreases factors.len() - i,
    {
        let (variable, power) = factors[i];
        proof {
            assert(factors@[i as int].0 < point@.len());
        }
        let raised = pow_mod(point[variable], power, P);
        let ghost before = product as int;
        product = mul_mod(product, raised, P);
        proof {
            let m = P as int;
            let head = factors@.take(i as int);
            let next = factors@.take(i + 1);
            assert(next.drop_last() =~= head);
            assert(next.last() == factors@[i as int]);
            assert(at[variable as int] == point@[variable as int] as int);
            let full = pow(at[variable as int], power as nat);
            assert(monomial_value(next, at) == monomial_value(head, at) * full);
            lemma_mul_mod_noop_general(monomial_value(head, at), full, m);
        }
        i += 1;
    }
    proof {
        assert(factors@.take(i as int) =~= factors@);
    }
    product
}

/// Binds `variable` in one term: multiplies the coefficient by `value` to the bound power
/// and rebuilds the term from the factors that are left.
fn bind_term<const P: u64>(coefficient: u64, term: &SparseTerm, variable: usize, value: u64) -> (r:
    (u64, SparseTerm))
    requires
        P >= 2,
        normalized(term_factors(*term)),
    ensures
        term_model(r) == assign_term(
            (coefficient as int, term_factors(*term)),
            variable,
            value as int,
            P as int,
        ),
{
    let factors = term_to_vec(term);
    let ghost m = P as int;
    let mut scaled: u64 = coefficient % P;
    let mut rest: Vec<(usize, usize)> = Vec::new();
    let mut i: usize = 0;
    proof {
        lemma_pow0(value as int);
    }
    while i < factors.len()
        invariant
            P >= 2,
            m == P as int,
            i <= factors.len(),
            scaled == (coefficient * pow(value as int, power_of(factors@.take(i as int), variable)))
                % m,
            rest@ == without_variable(factors@.take(i as int), variable),
        decreases factors.len() - i,
    {
        let (v, power) = factors[i];
        let ghost head = factors@.take(i as int);
        let ghost next = factors@.take(i + 1);
        proof {
            assert(next.drop_last() =~= head);
            assert(next.last() == factors@[i as int]);
        }
        if v == variable {
            let raised = pow_mod(value, power, P);
            let ghost before = scaled as int;
            scaled = mul_mod(scaled, raised, P);
            proof {
                let so_far = pow(value as int, power_of(head, variable));
                let step = pow(value as int, power as nat);
                lemma_pow_adds(value as int, power_of(head, variable), power as nat);
                lemma_mul_mod_noop_general(coefficient * so_far, step, m);
                assert((coefficient * so_far) * step == coefficient * (so_far * step))
                    by (nonlinear_arith);
            }
        } else {
            rest.push((v, power));
        }
        i += 1;
    }
    proof {
        assert(factors@.take(i as int) =~= factors@);
        lemma_without_variable(factors@, variable, usize::MAX + 1);
        lemma_normalized_powers(rest@, usize::MAX + 1);
    }
    let kept = term_new(rest);
    proof {
        lemma_normalized_unique(term_factors(kept), without_variable(factors@, variable));
    }
    (scaled, kept)
}

/// Binding a variable keeps a polynomial well formed, and no term names the variable afterwards.
pub proof fn lemma_assign_wf(poly: PolyModel, variable: usize, value: int)
    requires
        poly.wf(),
    ensures
        poly.assign(variable, value).wf(),
        forall|low: int| poly.vars_from(low) ==> #[trigger] poly.assign(variable, value).vars_from(low),
        forall|i: int, k: int|
            0 <= i < poly.terms.len() && 0 <= k < poly.assign(variable, value).terms[i].1.len()
                ==> (#[trigger] poly.assign(variable, value).terms[i].1[k]).0 != variable,
{
    let bound = poly.assign(variable, value);
    assert forall|i: int| 0 <= i < bound.terms.len() implies {
        &&& 0 <= (#[trigger] bound.terms[i]).0 < bound.modulus
        &&& normalized(bound.terms[i].1)
        &&& vars_below(bound.terms[i].1, bound.num_vars)
    } by {
        lemma_without_variable(poly.terms[i].1, variable, poly.num_vars);
        lemma_mod_bound(
            poly.terms[i].0 * pow(value, power_of(poly.terms[i].1, variable)),
            poly.modulus,
        );
    }
    assert forall|low: int| poly.vars_from(low) implies #[trigger] bound.vars_from(low) by {
        assert forall|i: int| 0 <= i < bound.terms.len() implies vars_from(
            (#[trigger] bound.terms[i]).1,
            low,
        ) by {
            lemma_without_variable(poly.terms[i].1, variable, poly.num_vars);
            assert(vars_from(poly.terms[i].1, low));
        }
    }
    assert forall|i: int, k: int|
        0 <= i < poly.terms.len() && 0 <= k < bound.terms[i].1.len() implies (
    #[trigger] bound.terms[i].1[k]).0 != variable by {
        lemma_without_variable(poly.terms[i].1, variable, poly.num_vars);
    }
}

/// Binds one variable of a polynomial to a value.
///
/// Every term that holds `variable` with power `p` has its coefficient multiplied by
/// `value^p` and loses that factor; the other terms stay as they are; the declared
/// dimension stays.
pub fn assign_value<const P: u64>(
    polynomial: MultivariatePolynomial<P>,
    variable: usize,
    value: u64,
) -> (r: Result<MultivariatePolynomial<P>, Error>)
    requires
        polynomial.wf(),
    ensures
        r is Ok <==> variable < polynomial@.num_vars,
        r is Err ==> r == Err::<MultivariatePolynomial<P>, Error>(Error::InvalidVariable),
        r is Ok ==> r->Ok_0@ == polynomial@.assign(variable, value as int) && r->Ok_0.wf(),
{
    if variable >= polynomial.num_vars {
        return Err(Error::InvalidVariable);
    }
    Ok(polynomial.bind(variable, value))
}

/// Binds several variables, first to last.
pub fn assign_values<const P: u64>(
    polynomial: &MultivariatePolynomial<P>,
    values: Vec<(usize, u64)>,
) -> (r: Result<MultivariatePolynomial<P>, Error>)
    requires
        polynomial.wf(),
    ensures
        r is Ok <==> forall|i: int|
            0 <= i < values@.len() ==> (#[trigger] values@[i]).0 < polynomial@.num_vars,
        r is Err ==> r == Err::<MultivariatePolynomial<P>, Error>(Error::InvalidVariable),
        r is Ok ==> r->Ok_0@ == polynomial@.assign_all(values@) && r->Ok_0.wf(),
{
    let mut i: usize = 0;
    while i < values.len()
        invariant
            i <= values.len(),
            forall|k: int| 0 <= k < i ==> (#[trigger] values@[k]).0 < polynomial@.num_vars,
        decreases values.len() - i,
    {
        if values[i].0 >= polynomial.num_vars {
            return Err(Error::InvalidVariable);
        }
        i += 1;
    }
    if values.len() == 0 {
        return Ok(polynomial.clone());
    }
    let mut reduced = polynomial.bind(values[0].0, values[0].1);
    proof {
        assert(values@.take(1).drop_last() =~= Seq::<(usize, u64)>::empty());
        assert(values@.take(1).last() == values@[0]);
        assert(polynomial@.assign_all(Seq::<(usize, u64)>::empty()) == polynomial@);
    }
    let mut j: usize = 1;
    while j < values.len()
        invariant
            1 <= j <= values.len(),
            reduced.wf(),
            reduced@ == polynomial@.assign_all(values@.take(j as int)),
        decreases values.len() - j,
    {
        proof {
            assert(values@.take(j + 1).drop_last() =~= values@.take(j as int));
            assert(values@.take(j + 1).last() == values@[j as int]);
        }
        reduced = reduced.bind(values[j].0, values[j].1);
        j += 1;
    }
    proof {
        assert(values@.take(j as int) =~= values@);
    }
    Ok(reduced)
}

/// Binds every variable but one, so that a single free variable is left.
///
/// `values` names the variables to bind with their values; they are bound first to last.
/// Where they cover all variables but one, the only factor left in the result is a power
/// of that free variable.
pub fn reduced_to_univariate<const P: u64>(
    polynomial: &MultivariatePolynomial<P>,
    values: Vec<(usize, u64)>,
) -> (r: Result<MultivariatePolynomial<P>, Error>)
    requires
        polynomial.wf(),
    ensures
        r is Ok <==> forall|i: int|
            0 <= i < values@.len() ==> (#[trigger] values@[i]).0 < polynomial@.num_vars,
        r is Err ==> r == Err::<MultivariatePolynomial<P>, Error>(Error::InvalidVariable),
        r is Ok ==> {
            &&& r->Ok_0@ == polynomial@.assign_all(values@)
            &&& r->Ok_0.wf()
            &&& forall|free: usize|
                covers_all_but(values@, free, polynomial@.num_vars) ==> single_variable(
                    #[trigger] r->Ok_0@.terms,
                    free,
                )
        },
{
    let r = assign_values(polynomial, values);
    proof {
        if r is Ok {
            assert forall|free: usize|
                covers_all_but(values@, free, polynomial@.num_vars) implies single_variable(
                r->Ok_0@.terms,
                free,
            ) by {
                lemma_all_but_one_bound(polynomial@, values@, free);
            }
        }
    }
    r
}

/// `values` holds a binding of `variable`.
pub open spec fn binds(values: Seq<(usize, u64)>, variable: usize) -> bool {
    exists|i: int| 0 <= i < values.len() && (#[trigger] values[i]).0 == variable
}

/// `values` binds every variable below `num_vars` except `free`.
pub open spec fn covers_all_but(values: Seq<(usize, u64)>, free: usize, num_vars: int) -> bool {
    forall|v: usize| v < num_vars && v != free ==> #[trigger] binds(values, v)
}

/// The power that a term puts on its first variable; zero for a constant term.
pub open spec fn term_power(term: TermModel) -> usize {
    if term.1.len() == 0 {
        0
    } else {
        term.1[0].1
    }
}

/// The `(power, coefficient)` entry that each term stands for in one variable.
pub open spec fn cast_entries(terms: Seq<TermModel>) -> Seq<Entry> {
    Seq::new(terms.len(), |i: int| (term_power(terms[i]), terms[i].0))
}

/// No term with a nonzero coefficient names a variable other than `variable`.
pub open spec fn single_variable(terms: Seq<TermModel>, variable: usize) -> bool {
    forall|i: int|
        0 <= i < terms.len() && (#[trigger] terms[i]).0 != 0 ==> terms[i].1.len() == 0 || (
        terms[i].1.len() == 1 && terms[i].1[0].0 == variable)
}

/// At most one variable is left in the terms with a nonzero coefficient.
pub open spec fn is_univariate(terms: Seq<TermModel>) -> bool {
    exists|variable: usize| single_variable(terms, variable)
}

/// Converts a polynomial in which a single variable is left into univariate form.
///
/// Each term becomes the entry of its power on that variable, a constant term the entry
/// of power zero; terms with a zero coefficient are passed over.
pub fn cast_mv_to_uv_polynomial<const P: u64>(polynomial: MultivariatePolynomial<P>) -> (r: Result<
    UnivariatePolynomial<P>,
    Error,
>)
    requires
        polynomial.wf(),
    ensures
        r is Ok <==> is_univariate(polynomial@.terms),
        r is Err ==> r == Err::<UnivariatePolynomial<P>, Error>(Error::NotUnivariate),
        r is Ok ==> {
            &&& r->Ok_0.wf()
            &&& forall|k: usize| #[trigger]
                r->Ok_0@.coeff(k) == coeff_sum(cast_entries(polynomial@.terms), k) % (P as int)
            &&& forall|t: int| #[trigger]
                r->Ok_0@.eval(t) == entries_value(cast_entries(polynomial@.terms), t) % (P as int)
        },
{
    let ghost m = P as int;
    let ghost all = polynomial@.terms;
    let ghost entries = cast_entries(all);
    let mut result = UnivariatePolynomial::<P>::zero();
    let mut free: Option<usize> = None;
    let ghost mut witness: int = 0;
    let mut i: usize = 0;
    proof {
        lemma_small_mod(0, P as nat);
        assert(entries.take(0).len() == 0);
    }
    while i < polynomial.terms.len()
        invariant
            polynomial.wf(),
            m == P as int,
            all == polynomial@.terms,
            entries == cast_entries(all),
            i <= polynomial.terms.len(),
            result.wf(),
            forall|k: usize| #[trigger]
                result@.coeff(k) == coeff_sum(entries.take(i as int), k) % m,
            forall|t: int| #[trigger] result@.eval(t) == entries_value(entries.take(i as int), t) % m,
            free is Some ==> 0 <= witness < i && all[witness].0 != 0 && all[witness].1.len() == 1
                && all[witness].1[0].0 == free->Some_0,
            forall|j: int|
                0 <= j < i && (#[trigger] all[j]).0 != 0 ==> all[j].1.len() == 0 || (
                all[j].1.len() == 1 && free == Some(all[j].1[0].0)),
        decreases polynomial.terms.len() - i,
    {
        let coefficient = polynomial.terms[i].0;
        let factors = term_to_vec(&polynomial.terms[i].1);
        proof {
            assert(all[i as int] == term_model(polynomial.terms@[i as int]));
        }
        let mut power: usize = 0;
        if coefficient != 0 {
            if factors.len() > 1 {
                proof {
                    assert forall|variable: usize| !single_variable(all, variable) by {
                        assert(all[i as int].0 != 0);
                    }
                }
                return Err(Error::NotUnivariate);
            }
            if factors.len() == 1 {
                let variable = factors[0].0;
                match free {
                    Some(seen) => {
                        if seen != variable {
                            proof {
                                assert forall|v: usize| !single_variable(all, v) by {
                                    assert(all[i as int].0 != 0);
                                    assert(all[witness].0 != 0);
                                }
                            }
                            return Err(Error::NotUnivariate);
                        }
                    },
                    None => {
                        free = Some(variable);
                        proof {
                            witness = i as int;
                        }
                    },
                }
                power = factors[0].1;
            }
        } else if factors.len() > 0 {
            power = factors[0].1;
        }
        let ghost old_result = result@;
        result.add_term(power, coefficient);
        proof {
            let head = entries.take(i as int);
            let next = entries.take(i + 1);
            assert(next.drop_last() =~= head);
            assert(next.last() == entries[i as int]);
            assert(entries[i as int] == (power, coefficient as int));
            assert forall|k: usize| #[trigger] result@.coeff(k) == coeff_sum(next, k) % m by {
                let d = if k == power {
                    coefficient as int
                } else {
                    0
                };
                assert(result@.coeff(k) == (old_result.coeff(k) + d) % m);
                lemma_add_mod_noop(coeff_sum(head, k), d, m);
                lemma_add_mod_noop_right(coeff_sum(head, k) % m, d, m);
            }
            assert forall|t: int| #[trigger] result@.eval(t) == entries_value(next, t) % m by {
                let d = coefficient * pow(t, power as nat);
                assert(result@.eval(t) == (old_result.eval(t) + d) % m);
                lemma_add_mod_noop(entries_value(head, t), d, m);
                lemma_add_mod_noop_right(entries_value(head, t) % m, d, m);
            }
        }
        i += 1;
    }
    proof {
        assert(entries.take(i as int) =~= entries);
        let variable: usize = match free {
            Some(seen) => seen,
            None => 0,
        };
        assert(single_variable(all, variable));
    }
    Ok(result)
}

/// Binding a variable does to the value what moving the point does: the polynomial with
/// `variable` bound to `value` has at `point` the value of the polynomial at the point
/// with that coordinate replaced.
pub proof fn lemma_assign_eval(poly: PolyModel, variable: usize, value: int, point: Seq<int>)
    requires
        poly.wf(),
        variable < poly.num_vars <= point.len(),
    ensures
        poly.assign(variable, value).eval(point) == poly.eval(point.update(variable as int, value)),
{
    lemma_assign_terms_value(poly.terms, variable, value, poly.modulus, point);
}

proof fn lemma_assign_terms_value(
    terms: Seq<TermModel>,
    variable: usize,
    value: int,
    modulus: int,
    point: Seq<int>,
)
    requires
        modulus > 0,
        variable < point.len(),
        forall|i: int| 0 <= i < terms.len() ==> vars_below((#[trigger] terms[i]).1, point.len() as int),
    ensures
        terms_value(assign_terms(terms, variable, value, modulus), point) % modulus == terms_value(
            terms,
            point.update(variable as int, value),
        ) % modulus,
    decreases terms.len(),
{
    let bound = assign_terms(terms, variable, value, modulus);
    let moved = point.update(variable as int, value);
    if terms.len() > 0 {
        let rest = terms.drop_last();
        let last = terms.last();
        assert(last == terms[terms.len() - 1]);
        assert forall|i: int| 0 <= i < rest.len() implies vars_below(
            (#[trigger] rest[i]).1,
            point.len() as int,
        ) by {
            assert(rest[i] == terms[i]);
        }
        lemma_assign_terms_value(rest, variable, value, modulus, point);
        assert(bound.drop_last() =~= assign_terms(rest, variable, value, modulus));
        assert(bound.last() == assign_term(last, variable, value, modulus));
        lemma_monomial_assign(last.1, point, variable, value);
        let raised = pow(value, power_of(last.1, variable));
        let left = monomial_value(without_variable(last.1, variable), point);
        assert(last.0 * monomial_value(last.1, moved) == (last.0 * raised) * left)
            by (nonlinear_arith)
            requires
                monomial_value(last.1, moved) == raised * left,
        ;
        lemma_mul_mod_noop_left(last.0 * raised, left, modulus);
        let a = terms_value(bound.drop_last(), point);
        let b = terms_value(rest, moved);
        lemma_add_mod_noop(a, ((last.0 * raised) % modulus) * left, modulus);
        lemma_add_mod_noop(b, (last.0 * raised) * left, modulus);
    }
}

/// The values of a sum: the value of `a.plus(b)` is the sum of the two values.
pub proof fn lemma_plus_eval(a: PolyModel, b: PolyModel, point: Seq<int>)
    requires
        a.modulus == b.modulus,
        a.modulus > 0,
    ensures
        a.plus(b).eval(point) == (a.eval(point) + b.eval(point)) % a.modulus,
{
    lemma_terms_value_concat(a.terms, b.terms, point);
    lemma_add_mod_noop(terms_value(a.terms, point), terms_value(b.terms, point), a.modulus);
}

proof fn lemma_terms_value_concat(a: Seq<TermModel>, b: Seq<TermModel>, point: Seq<int>)
    ensures
        terms_value(a + b, point) == terms_value(a, point) + terms_value(b, point),
    decreases b.len(),
{
    if b.len() == 0 {
        assert(a + b =~= a);
    } else {
        lemma_terms_value_concat(a, b.drop_last(), point);
        assert((a + b).drop_last() =~= a + b.drop_last());
        assert((a + b).last() == b.last());
    }
}

/// The point that `values` makes of `point`: each named coordinate is replaced by its
/// value.
pub open spec fn bind_point(values: Seq<(usize, u64)>, point: Seq<int>) -> Seq<int>
    decreases values.len(),
{
    if values.len() == 0 {
        point
    } else {
        bind_point(
            values.drop_last(),
            point.update(values.last().0 as int, values.last().1 as int),
        )
    }
}

/// What `assign_all` keeps and what it removes: the result is well formed, has the same
/// shape, names no bound variable, and names no variable below a bound that held before.
pub proof fn lemma_assign_all_shape(poly: PolyModel, values: Seq<(usize, u64)>)
    requires
        poly.wf(),
    ensures
        poly.assign_all(values).wf(),
        poly.assign_all(values).modulus == poly.modulus,
        poly.assign_all(values).num_vars == poly.num_vars,
        poly.assign_all(values).terms.len() == poly.terms.len(),
        forall|low: int| poly.vars_from(low) ==> #[trigger] poly.assign_all(values).vars_from(low),
        forall|i: int, k: int, j: int|
            0 <= i < poly.terms.len() && 0 <= k < poly.assign_all(values).terms[i].1.len() && 0
                <= j < values.len() ==> (#[trigger] poly.assign_all(values).terms[i].1[k]).0 != (
            #[trigger] values[j]).0,
    decreases values.len(),
{
    if values.len() > 0 {
        let before = poly.assign_all(values.drop_last());
        let last = values.last();
        lemma_assign_all_shape(poly, values.drop_last());
        lemma_assign_wf(before, last.0, last.1 as int);
        let after = poly.assign_all(values);
        assert(after == before.assign(last.0, last.1 as int));
        assert forall|low: int| poly.vars_from(low) implies #[trigger] after.vars_from(low) by {
            assert(before.vars_from(low));
        }
        assert forall|i: int, k: int, j: int|
            0 <= i < poly.terms.len() && 0 <= k < after.terms[i].1.len() && 0 <= j
                < values.len() implies (#[trigger] after.terms[i].1[k]).0 != (
        #[trigger] values[j]).0 by {
            if j == values.len() - 1 {
                assert(values[j] == last);
            } else {
                lemma_without_variable(before.terms[i].1, last.0, before.num_vars);
                lemma_subsequence_vars(before.terms[i].1, last.0, k);
                let k0 = choose|k0: int|
                    0 <= k0 < before.terms[i].1.len() && before.terms[i].1[k0] == after.terms[i].1[k];
                assert(values.drop_last()[j] == values[j]);
                assert(before.terms[i].1[k0].0 != values.drop_last()[j].0);
            }
        }
    }
}

/// Every factor that is left after dropping a variable was a factor before.
proof fn lemma_subsequence_vars(factors: Seq<(usize, usize)>, variable: usize, k: int)
    requires
        0 <= k < without_variable(factors, variable).len(),
    ensures
        exists|k0: int|
            0 <= k0 < factors.len() && factors[k0] == without_variable(factors, variable)[k],
    decreases factors.len(),
{
    if factors.len() > 0 {
        let rest = factors.drop_last();
        let kept_rest = without_variable(rest, variable);
        if k < kept_rest.len() {
            lemma_subsequence_vars(rest, variable, k);
            let k0 = choose|k0: int| 0 <= k0 < rest.len() && rest[k0] == kept_rest[k];
            assert(factors[k0] == rest[k0]);
            assert(without_variable(factors, variable)[k] == kept_rest[k]);
        } else {
            assert(factors[factors.len() - 1] == without_variable(factors, variable)[k]);
        }
    }
}

/// Where the bindings cover every variable but `free`, only `free` is left.
pub proof fn lemma_all_but_one_bound(poly: PolyModel, values: Seq<(usize, u64)>, free: usize)
    requires
        poly.wf(),
        covers_all_but(values, free, poly.num_vars),
    ensures
        single_variable(poly.assign_all(values).terms, free),
{
    let after = poly.assign_all(values);
    lemma_assign_all_shape(poly, values);
    assert forall|i: int| 0 <= i < after.terms.len() implies after.terms[i].1.len() == 0 || (
    after.terms[i].1.len() == 1 && (#[trigger] after.terms[i]).1[0].0 == free) by {
        let factors = after.terms[i].1;
        assert forall|k: int| 0 <= k < factors.len() implies (#[trigger] factors[k]).0 == free by {
            let v = factors[k].0;
            if v != free {
                assert(v < poly.num_vars);
                assert(binds(values, v));
                let j = choose|j: int| 0 <= j < values.len() && (#[trigger] values[j]).0 == v;
                assert(after.terms[i].1[k].0 != values[j].0);
            }
        }
        if factors.len() > 1 {
            assert(factors[0].0 < factors[1].0);
        }
    }
}

/// Binding several variables does to the value what moving the point does.
pub proof fn lemma_assign_all_eval(poly: PolyModel, values: Seq<(usize, u64)>, point: Seq<int>)
    requires
        poly.wf(),
        poly.num_vars <= point.len(),
        forall|i: int| 0 <= i < values.len() ==> (#[trigger] values[i]).0 < poly.num_vars,
    ensures
        poly.assign_all(values).eval(point) == poly.eval(bind_point(values, point)),
        bind_point(values, point).len() == point.len(),
    decreases values.len(),
{
    if values.len() > 0 {
        let before = poly.assign_all(values.drop_last());
        let last = values.last();
        assert(last == values[values.len() - 1]);
        lemma_assign_all_shape(poly, values.drop_last());
        lemma_assign_eval(before, last.0, last.1 as int, point);
        assert forall|i: int| 0 <= i < values.drop_last().len() implies (
        #[trigger] values.drop_last()[i]).0 < poly.num_vars by {
            assert(values.drop_last()[i] == values[i]);
        }
        lemma_assign_all_eval(poly, values.drop_last(), point.update(last.0 as int, last.1 as int));
    }
}

/// A polynomial in which only `variable` is left has, at any point, the value of its
/// univariate entries at that point's coordinate for `variable`.
pub proof fn lemma_cast_value(terms: Seq<TermModel>, variable: usize, point: Seq<int>)
    requires
        single_variable(terms, variable),
        variable < point.len(),
    ensures
        terms_value(terms, point) == entries_value(cast_entries(terms), point[variable as int]),
    decreases terms.len(),
{
    if terms.len() > 0 {
        let rest = terms.drop_last();
        let last = terms.last();
        assert(last == terms[terms.len() - 1]);
        assert(single_variable(rest, variable)) by {
            assert forall|i: int| 0 <= i < rest.len() && (#[trigger] rest[i]).0 != 0 implies rest[i].1.len()
                == 0 || (rest[i].1.len() == 1 && rest[i].1[0].0 == variable) by {
                assert(rest[i] == terms[i]);
            }
        }
        lemma_cast_value(rest, variable, point);
        assert(cast_entries(terms).drop_last() =~= cast_entries(rest));
        assert(cast_entries(terms).last() == (term_power(last), last.0));
        let t = point[variable as int];
        if last.0 != 0 {
            if last.1.len() == 0 {
                lemma_pow0(t);
            } else {
                assert(last.1.drop_last().len() == 0);
                assert(last.1.last() == last.1[0]);
                assert(monomial_value(last.1.drop_last(), point) == 1);
                assert(last.1[0].0 == variable);
                assert(monomial_value(last.1, point) == 1 * pow(t, last.1[0].1 as nat));
            }
        } else {
            assert(0 * monomial_value(last.1, point) == 0);
            assert(0 * pow(t, term_power(last) as nat) == 0);
        }
    }
}

/// No two of the bindings name the same variable.
pub open spec fn distinct_variables(values: Seq<(usize, u64)>) -> bool {
    forall|i: int, j: int|
        0 <= i < values.len() && 0 <= j < values.len() && i != j ==> (#[trigger] values[i]).0 != (
        #[trigger] values[j]).0
}

/// The bindings of `values` in the order that `order` lists their places.
pub open spec fn reordered(values: Seq<(usize, u64)>, order: Seq<nat>) -> Seq<(usize, u64)> {
    Seq::new(order.len(), |i: int| values[order[i] as int])
}

/// Dropping two variables from a factor list gives the same list in either order.
proof fn lemma_without_commutes(factors: Seq<(usize, usize)>, u: usize, v: usize)
    ensures
        without_variable(without_variable(factors, u), v) == without_variable(
            without_variable(factors, v),
            u,
        ),
    decreases factors.len(),
{
    if factors.len() > 0 {
        let rest = factors.drop_last();
        let x = factors.last();
        lemma_without_commutes(rest, u, v);
        let by_u = without_variable(rest, u);
        let by_v = without_variable(rest, v);
        if x.0 != u {
            assert(by_u.push(x).drop_last() =~= by_u);
            assert(by_u.push(x).last() == x);
        }
        if x.0 != v {
            assert(by_v.push(x).drop_last() =~= by_v);
            assert(by_v.push(x).last() == x);
        }
    }
}

/// Two bindings of different variables can be made in either order.
pub proof fn lemma_assign_commutes(poly: PolyModel, u: usize, a: int, v: usize, b: int)
    requires
        poly.wf(),
        u != v,
    ensures
        poly.assign(u, a).assign(v, b) == poly.assign(v, b).assign(u, a),
{
    let m = poly.modulus;
    let left = poly.assign(u, a).assign(v, b);
    let right = poly.assign(v, b).assign(u, a);
    assert forall|i: int| 0 <= i < poly.terms.len() implies left.terms[i] == right.terms[i] by {
        let c = poly.terms[i].0;
        let f = poly.terms[i].1;
        lemma_without_variable(f, u, poly.num_vars);
        lemma_without_variable(f, v, poly.num_vars);
        lemma_without_commutes(f, u, v);
        let x = pow(a, power_of(f, u));
        let y = pow(b, power_of(f, v));
        assert(power_of(without_variable(f, u), v) == power_of(f, v));
        assert(power_of(without_variable(f, v), u) == power_of(f, u));
        lemma_mul_mod_noop_left(c * x, y, m);
        lemma_mul_mod_noop_left(c * y, x, m);
        assert((c * x) * y == (c * y) * x) by (nonlinear_arith);
        assert(poly.assign(u, a).terms[i] == assign_term(poly.terms[i], u, a, m));
        assert(poly.assign(v, b).terms[i] == assign_term(poly.terms[i], v, b, m));
    }
    assert(left.terms =~= right.terms);
}

/// A binding can be moved to the end of a list of bindings of distinct variables.
proof fn lemma_assign_move_to_end(poly: PolyModel, values: Seq<(usize, u64)>, at: int)
    requires
        poly.wf(),
        distinct_variables(values),
        0 <= at < values.len(),
    ensures
        poly.assign_all(values) == poly.assign_all(values.remove(at)).assign(
            values[at].0,
            values[at].1 as int,
        ),
    decreases values.len(),
{
    if at == values.len() - 1 {
        assert(values.remove(at) =~= values.drop_last());
    } else {
        let front = values.drop_last();
        let last = values.last();
        let moved = values[at];
        assert(distinct_variables(front)) by {
            assert forall|i: int, j: int|
                0 <= i < front.len() && 0 <= j < front.len() && i != j implies (
            #[trigger] front[i]).0 != (#[trigger] front[j]).0 by {
                assert(front[i] == values[i]);
                assert(front[j] == values[j]);
            }
        }
        lemma_assign_move_to_end(poly, front, at);
        let kept = front.remove(at);
        let folded = poly.assign_all(kept);
        lemma_assign_all_shape(poly, kept);
        assert(front[at] == moved);
        assert(last == values[values.len() - 1]);
        assert(moved.0 != last.0);
        lemma_assign_commutes(folded, moved.0, moved.1 as int, last.0, last.1 as int);
        assert(values.remove(at) =~= kept.push(last));
        assert(values.remove(at).drop_last() =~= kept);
        assert(values.remove(at).last() == last);
    }
}

/// Binding several variables does not depend on the order of the bindings: where they
/// name distinct variables, the bindings taken in any order give the same polynomial.
pub proof fn lemma_assign_order(poly: PolyModel, values: Seq<(usize, u64)>, order: Seq<nat>)
    requires
        poly.wf(),
        distinct_variables(values),
        is_enumeration(order, values.len()),
        forall|i: int| 0 <= i < order.len() ==> #[trigger] order[i] < values.len(),
    ensures
        poly.assign_all(reordered(values, order)) == poly.assign_all(values),
    decreases values.len(),
{
    let mixed = reordered(values, order);
    if values.len() == 0 {
        assert(mixed =~= values);
    } else {
        let top = (values.len() - 1) as nat;
        assert(order.contains(top));
        let at = choose|at: int| 0 <= at < order.len() && order[at] == top;
        let rest = order.remove(at);
        let front = values.drop_last();
        lemma_enumeration_remove(order, values.len(), at);
        assert(distinct_variables(mixed)) by {
            assert forall|i: int, j: int|
                0 <= i < mixed.len() && 0 <= j < mixed.len() && i != j implies (
            #[trigger] mixed[i]).0 != (#[trigger] mixed[j]).0 by {
                assert(order[i] != order[j]);
            }
        }
        assert(distinct_variables(front)) by {
            assert forall|i: int, j: int|
                0 <= i < front.len() && 0 <= j < front.len() && i != j implies (
            #[trigger] front[i]).0 != (#[trigger] front[j]).0 by {
                assert(front[i] == values[i]);
                assert(front[j] == values[j]);
            }
        }
        lemma_assign_move_to_end(poly, mixed, at);
        assert(mixed[at] == values.last());
        assert(mixed.remove(at) =~= reordered(front, rest)) by {
            assert forall|i: int| 0 <= i < rest.len() implies mixed.remove(at)[i] == reordered(
                front,
                rest,
            )[i] by {
                let i0 = if i < at { i } else { i + 1 };
                assert(rest[i] == order[i0]);
                assert(rest[i] != top);
                assert(mixed.remove(at)[i] == mixed[i0]);
                assert(front[rest[i] as int] == values[rest[i] as int]);
            }
        }
        assert forall|i: int| 0 <= i < rest.len() implies #[trigger] rest[i] < front.len() by {
            let i0 = if i < at { i } else { i + 1 };
            assert(rest[i] == order[i0]);
            assert(rest[i] != top);
        }
        lemma_assign_order(poly, front, rest);
    }
}

} // verus!
