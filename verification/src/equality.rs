//! Equality of multivariate polynomials as formal sums: two polynomials are equal where
//! every monomial has the same coefficient in both, whatever the order of the terms,
//! however a coefficient is split over terms, and whatever dimension was declared.

use crate::field::add_mod;
use crate::polynomial::terms_model;
use crate::polynomial::MultivariatePolynomial;
use crate::polynomial::PolyModel;
use crate::polynomial::TermModel;
use crate::term::term_factors;
use crate::term::term_to_vec;
use ark_poly::multivariate::SparseTerm;
use vstd::arithmetic::div_mod::*;
use vstd::prelude::*;
use vstd::std_specs::cmp::PartialEqSpecImpl;

verus! {

/// The sum of the coefficients of the terms of `terms` with the monomial `factors`.
pub open spec fn coefficient_of(terms: Seq<TermModel>, factors: Seq<(usize, usize)>) -> int
    decreases terms.len(),
{
    if terms.len() == 0 {
        0
    } else {
        coefficient_of(terms.drop_last(), factors) + if terms.last().1 == factors {
            terms.last().0
        } else {
            0
        }
    }
}

/// Every monomial has the same coefficient in both polynomials, as a residue.
pub open spec fn same_polynomial(a: PolyModel, b: PolyModel) -> bool {
    forall|factors: Seq<(usize, usize)>|
        #![trigger coefficient_of(a.terms, factors)]
        #![trigger coefficient_of(b.terms, factors)]
        coefficient_of(a.terms, factors) % a.modulus == coefficient_of(b.terms, factors)
            % a.modulus
}

/// A monomial that no term has gets the coefficient zero.
proof fn lemma_absent_monomial(terms: Seq<TermModel>, factors: Seq<(usize, usize)>)
    requires
        forall|i: int| 0 <= i < terms.len() ==> (#[trigger] terms[i]).1 != factors,
    ensures
        coefficient_of(terms, factors) == 0,
    decreases terms.len(),
{
    if terms.len() > 0 {
        assert(terms.last() == terms[terms.len() - 1]);
        assert forall|i: int| 0 <= i < terms.drop_last().len() implies (
        #[trigger] terms.drop_last()[i]).1 != factors by {
            assert(terms.drop_last()[i] == terms[i]);
        }
        lemma_absent_monomial(terms.drop_last(), factors);
    }
}

/// Whether two factor lists are equal.
fn same_factors(a: &Vec<(usize, usize)>, b: &Vec<(usize, usize)>) -> (r: bool)
    ensures
        r == (a@ == b@),
{
    if a.len() != b.len() {
        return false;
    }
    let mut i: usize = 0;
    while i < a.len()
        invariant
            a@.len() == b@.len(),
            i <= a.len(),
            forall|k: int| 0 <= k < i ==> a@[k] == b@[k],
        decreases a.len() - i,
    {
        if a[i].0 != b[i].0 || a[i].1 != b[i].1 {
            return false;
        }
        i += 1;
    }
    proof {
        assert(a@ =~= b@);
    }
    true
}

/// The factor lists of the stored terms.
fn factor_lists(terms: &Vec<(u64, SparseTerm)>) -> (r: Vec<Vec<(usize, usize)>>)
    ensures
        r@.len() == terms@.len(),
        forall|i: int| 0 <= i < terms@.len() ==> (#[trigger] r@[i])@ == term_factors(terms@[i].1),
{
    let mut lists: Vec<Vec<(usize, usize)>> = Vec::new();
    let mut i: usize = 0;
    while i < terms.len()
        invariant
            i <= terms.len(),
            lists@.len() == i,
            forall|k: int| 0 <= k < i ==> (#[trigger] lists@[k])@ == term_factors(terms@[k].1),
        decreases terms.len() - i,
    {
        lists.push(term_to_vec(&terms[i].1));
        i += 1;
    }
    lists
}

/// The coefficient of the monomial `factors` in the stored terms, as a residue.
fn monomial_coefficient(
    terms: &Vec<(u64, SparseTerm)>,
    lists: &Vec<Vec<(usize, usize)>>,
    factors: &Vec<(usize, usize)>,
    modulus: u64,
) -> (r: u64)
    requires
        modulus > 0,
        lists@.len() == terms@.len(),
        forall|i: int| 0 <= i < terms@.len() ==> (#[trigger] lists@[i])@ == term_factors(terms@[i].1),
    ensures
        r == coefficient_of(terms_model(terms@), factors@) % (modulus as int),
{
    let ghost all = terms_model(terms@);
    let mut total: u64 = 0;
    let mut i: usize = 0;
    proof {
        lemma_small_mod(0, modulus as nat);
        assert(all.take(0).len() == 0);
    }
    while i < terms.len()
        invariant
            modulus > 0,
            all == terms_model(terms@),
            lists@.len() == terms@.len(),
            forall|k: int|
                0 <= k < terms@.len() ==> (#[trigger] lists@[k])@ == term_factors(terms@[k].1),
            i <= terms.len(),
            total == coefficient_of(all.take(i as int), factors@) % (modulus as int),
        decreases terms.len() - i,
    {
        let ghost head = all.take(i as int);
        let ghost next = all.take(i + 1);
        proof {
            assert(next.drop_last() =~= head);
            assert(next.last() == all[i as int]);
            assert(all[i as int].1 == lists@[i as int]@);
        }
        if same_factors(&lists[i], factors) {
            proof {
                lemma_add_mod_noop(
                    coefficient_of(head, factors@),
                    terms@[i as int].0 as int,
                    modulus as int,
                );
                lemma_add_mod_noop_right(
                    coefficient_of(head, factors@) % (modulus as int),
                    terms@[i as int].0 as int,
                    modulus as int,
                );
            }
            total = add_mod(total, terms[i].0, modulus);
        }
        i += 1;
    }
    proof {
        assert(all.take(i as int) =~= all);
    }
    total
}

impl<const P: u64> PartialEq for MultivariatePolynomial<P> {
    fn eq(&self, other: &Self) -> (r: bool) {
        if P == 0 {
            return true;
        }
        let mine = self.stored_terms();
        let theirs = other.stored_terms();
        let my_lists = factor_lists(mine);
        let their_lists = factor_lists(theirs);
        let mut i: usize = 0;
        while i < mine.len()
            invariant
                P > 0,
                self@.modulus == P,
                terms_model(mine@) == self@.terms,
                terms_model(theirs@) == other@.terms,
                my_lists@.len() == mine@.len(),
                their_lists@.len() == theirs@.len(),
                forall|k: int|
                    0 <= k < mine@.len() ==> (#[trigger] my_lists@[k])@ == term_factors(mine@[k].1),
                forall|k: int|
                    0 <= k < theirs@.len() ==> (#[trigger] their_lists@[k])@ == term_factors(
                        theirs@[k].1,
                    ),
                i <= mine.len(),
                forall|k: int|
                    0 <= k < i ==> coefficient_of(self@.terms, (#[trigger] my_lists@[k])@) % (
                    P as int) == coefficient_of(other@.terms, my_lists@[k]@) % (P as int),
            decreases mine.len() - i,
        {
            let left = monomial_coefficient(mine, &my_lists, &my_lists[i], P);
            let right = monomial_coefficient(theirs, &their_lists, &my_lists[i], P);
            if left != right {
                proof {
                    let factors = my_lists@[i as int]@;
                    assert(coefficient_of(self@.terms, factors) % self@.modulus != coefficient_of(
                        other@.terms,
                        factors,
                    ) % self@.modulus);
                }
                return false;
            }
            i += 1;
        }
        let mut j: usize = 0;
        while j < theirs.len()
            invariant
                P > 0,
                self@.modulus == P,
                terms_model(mine@) == self@.terms,
                terms_model(theirs@) == other@.terms,
                my_lists@.len() == mine@.len(),
                their_lists@.len() == theirs@.len(),
                forall|k: int|
                    0 <= k < mine@.len() ==> (#[trigger] my_lists@[k])@ == term_factors(mine@[k].1),
                forall|k: int|
                    0 <= k < theirs@.len() ==> (#[trigger] their_lists@[k])@ == term_factors(
                        theirs@[k].1,
                    ),
                j <= theirs.len(),
                forall|k: int|
                    0 <= k < mine@.len() ==> coefficient_of(self@.terms, (#[trigger] my_lists@[k])@)
                        % (P as int) == coefficient_of(other@.terms, my_lists@[k]@) % (P as int),
                forall|k: int|
                    0 <= k < j ==> coefficient_of(self@.terms, (#[trigger] their_lists@[k])@) % (
                    P as int) == coefficient_of(other@.terms, their_lists@[k]@) % (P as int),
            decreases theirs.len() - j,
        {
            let left = monomial_coefficient(mine, &my_lists, &their_lists[j], P);
            let right = monomial_coefficient(theirs, &their_lists, &their_lists[j], P);
            if left != right {
                proof {
                    let factors = their_lists@[j as int]@;
                    assert(coefficient_of(self@.terms, factors) % self@.modulus != coefficient_of(
                        other@.terms,
                        factors,
                    ) % self@.modulus);
                }
                return false;
            }
            j += 1;
        }
        proof {
            let a = self@.terms;
            let b = other@.terms;
            assert forall|factors: Seq<(usize, usize)>|
                #![trigger coefficient_of(a, factors)]
                #![trigger coefficient_of(b, factors)]
                coefficient_of(a, factors) % (P as int) == coefficient_of(b, factors) % (
                P as int) by {
                if exists|k: int| 0 <= k < a.len() && (#[trigger] a[k]).1 == factors {
                    let k = choose|k: int| 0 <= k < a.len() && (#[trigger] a[k]).1 == factors;
                    assert(a[k].1 == my_lists@[k]@);
                } else if exists|k: int| 0 <= k < b.len() && (#[trigger] b[k]).1 == factors {
                    let k = choose|k: int| 0 <= k < b.len() && (#[trigger] b[k]).1 == factors;
                    assert(b[k].1 == their_lists@[k]@);
                } else {
                    lemma_absent_monomial(a, factors);
                    lemma_absent_monomial(b, factors);
                }
            }
        }
        true
    }
}

impl<const P: u64> PartialEqSpecImpl for MultivariatePolynomial<P> {
    open spec fn obeys_eq_spec() -> bool {
        true
    }

    open spec fn eq_spec(&self, other: &Self) -> bool {
        P == 0 || same_polynomial(self@, other@)
    }
}

} // verus!
