//! Monomials: products of powers of variables, stored as `ark_poly` sparse terms.
//!
//! A term is read and built through a handful of trusted calls; everything the rest of the
//! library knows about a term is stated over its list of `(variable, power)` factors.

use ark_poly::multivariate::SparseTerm;
use ark_poly::multivariate::Term;
use vstd::arithmetic::power::*;
use vstd::prelude::*;

verus! {

/// `ark_poly`'s `SparseTerm`, a list of `(variable, power)` factors. Its inside is not
/// seen here; `term_factors` names what it holds.
#[verifier::external_type_specification]
#[verifier::external_body]
pub struct ExSparseTerm(SparseTerm);

/// The `(variable, power)` factors that a term holds, in stored order.
pub uninterp spec fn term_factors(t: SparseTerm) -> Seq<(usize, usize)>;

/// The total power that `factors` puts on `variable`.
pub open spec fn power_of(factors: Seq<(usize, usize)>, variable: usize) -> nat
    decreases factors.len(),
{
    if factors.len() == 0 {
        0
    } else {
        let rest = power_of(factors.drop_last(), variable);
        if factors.last().0 == variable {
            rest + factors.last().1 as nat
        } else {
            rest
        }
    }
}

/// Every variable named by `factors` is below `bound`.
pub open spec fn vars_below(factors: Seq<(usize, usize)>, bound: int) -> bool {
    forall|i: int| 0 <= i < factors.len() ==> (#[trigger] factors[i]).0 < bound
}

/// Every variable named by `factors` is at least `bound`.
pub open spec fn vars_from(factors: Seq<(usize, usize)>, bound: int) -> bool {
    forall|i: int| 0 <= i < factors.len() ==> (#[trigger] factors[i]).0 >= bound
}

/// Canonical shape of a factor list: powers are positive and variables strictly increase.
pub open spec fn normalized(factors: Seq<(usize, usize)>) -> bool {
    &&& forall|i: int| 0 <= i < factors.len() ==> (#[trigger] factors[i]).1 > 0
    &&& forall|i: int, j: int|
        0 <= i < j < factors.len() ==> (#[trigger] factors[i]).0 < (#[trigger] factors[j]).0
}

/// The factors of `factors` on variables other than `variable`, in order.
pub open spec fn without_variable(factors: Seq<(usize, usize)>, variable: usize) -> Seq<
    (usize, usize),
>
    decreases factors.len(),
{
    if factors.len() == 0 {
        factors
    } else {
        let rest = without_variable(factors.drop_last(), variable);
        if factors.last().0 == variable {
            rest
        } else {
            rest.push(factors.last())
        }
    }
}

/// The value of the monomial at `point`: the product of `point[variable]^power`.
pub open spec fn monomial_value(factors: Seq<(usize, usize)>, point: Seq<int>) -> int
    decreases factors.len(),
{
    if factors.len() == 0 {
        1
    } else {
        monomial_value(factors.drop_last(), point) * pow(
            point[factors.last().0 as int],
            factors.last().1 as nat,
        )
    }
}

/// Builds a term with `ark_poly`'s `SparseTerm::new`, which drops zero powers, orders the
/// factors by variable and adds up the powers of a repeated variable. The sums must fit
/// in `usize`.
#[verifier::external_body]
pub(crate) fn term_new(factors: Vec<(usize, usize)>) -> (r: SparseTerm)
    requires
        forall|v: usize| power_of(factors@, v) <= usize::MAX,
    ensures
        normalized(term_factors(r)),
        forall|v: usize| power_of(term_factors(r), v) == power_of(factors@, v),
{
    SparseTerm::new(factors)
}

/// Copies out the factors of a term, which `SparseTerm` exposes as a slice.
#[verifier::external_body]
pub(crate) fn term_to_vec(t: &SparseTerm) -> (r: Vec<(usize, usize)>)
    ensures
        r@ == term_factors(*t),
{
    t.to_vec()
}

/// Copies a term with `SparseTerm`'s derived `clone`, which copies the factor list.
#[verifier::external_body]
pub(crate) fn term_clone(t: &SparseTerm) -> (r: SparseTerm)
    ensures
        term_factors(r) == term_factors(*t),
{
    t.clone()
}

/// A canonical factor list without its last factor is canonical, and all of its variables
/// are below the variable of the factor that was taken off.
pub proof fn lemma_normalized_front(factors: Seq<(usize, usize)>)
    requires
        normalized(factors),
        factors.len() > 0,
    ensures
        normalized(factors.drop_last()),
        vars_below(factors.drop_last(), factors.last().0 as int),
{
    let rest = factors.drop_last();
    assert forall|i: int| 0 <= i < rest.len() implies (#[trigger] rest[i]).0 < factors.last().0 by {
        assert(rest[i] == factors[i]);
    }
    assert forall|i: int| 0 <= i < rest.len() implies (#[trigger] rest[i]).1 > 0 by {
        assert(rest[i] == factors[i]);
    }
    assert forall|i: int, j: int| 0 <= i < j < rest.len() implies (#[trigger] rest[i]).0 < (
    #[trigger] rest[j]).0 by {
        assert(rest[i] == factors[i]);
        assert(rest[j] == factors[j]);
    }
}

/// A canonical factor list mentions no variable at or above a bound on its variables, and
/// every total power in it is the power of a single factor.
pub proof fn lemma_normalized_powers(factors: Seq<(usize, usize)>, bound: int)
    requires
        normalized(factors),
        vars_below(factors, bound),
    ensures
        forall|v: usize| #[trigger] power_of(factors, v) <= usize::MAX,
        forall|v: usize| v >= bound ==> #[trigger] power_of(factors, v) == 0,
    decreases factors.len(),
{
    if factors.len() > 0 {
        let rest = factors.drop_last();
        let x = factors.last();
        lemma_normalized_front(factors);
        lemma_normalized_powers(rest, x.0 as int);
        assert(x == factors[factors.len() - 1]);
        assert forall|v: usize| #[trigger] power_of(factors, v) <= usize::MAX by {
            if v == x.0 {
                assert(power_of(rest, v) == 0);
            } else {
                assert(power_of(factors, v) == power_of(rest, v));
            }
        }
        assert forall|v: usize| v >= bound implies #[trigger] power_of(factors, v) == 0 by {
            assert(power_of(rest, v) == 0);
        }
    }
}

/// Dropping one variable from a canonical factor list leaves a canonical list that keeps
/// the power of every other variable.
pub proof fn lemma_without_variable(factors: Seq<(usize, usize)>, variable: usize, bound: int)
    requires
        normalized(factors),
        vars_below(factors, bound),
    ensures
        normalized(without_variable(factors, variable)),
        vars_below(without_variable(factors, variable), bound),
        forall|i: int|
            0 <= i < without_variable(factors, variable).len() ==> (#[trigger] without_variable(
                factors,
                variable,
            )[i]).0 != variable,
        forall|u: usize| #[trigger]
            power_of(without_variable(factors, variable), u) == if u == variable {
                0
            } else {
                power_of(factors, u)
            },
        forall|low: int|
            vars_from(factors, low) ==> #[trigger] vars_from(
                without_variable(factors, variable),
                low,
            ),
    decreases factors.len(),
{
    let kept = without_variable(factors, variable);
    if factors.len() > 0 {
        let rest = factors.drop_last();
        let x = factors.last();
        lemma_normalized_front(factors);
        lemma_without_variable(rest, variable, x.0 as int);
        let kept_rest = without_variable(rest, variable);
        assert(x == factors[factors.len() - 1]);
        if x.0 != variable {
            assert(kept == kept_rest.push(x));
            assert(kept.drop_last() == kept_rest);
            assert(kept.last() == x);
        }
        assert forall|u: usize| #[trigger]
            power_of(kept, u) == if u == variable {
                0
            } else {
                power_of(factors, u)
            } by {
            if x.0 != variable {
                assert(power_of(kept, u) == power_of(kept_rest, u) + if x.0 == u {
                    x.1 as nat
                } else {
                    0
                });
            }
        }
        assert forall|low: int| vars_from(factors, low) implies #[trigger] vars_from(
            kept,
            low,
        ) by {
            assert(vars_from(rest, low)) by {
                assert forall|i: int| 0 <= i < rest.len() implies (#[trigger] rest[i]).0 >= low by {
                    assert(rest[i] == factors[i]);
                }
            }
            assert(vars_from(kept_rest, low));
            assert(x == factors[factors.len() - 1]);
        }
    } else {
        assert forall|low: int| vars_from(factors, low) implies #[trigger] vars_from(
            kept,
            low,
        ) by {}
    }
}

/// Two canonical factor lists that give every variable the same power are the same list.
pub proof fn lemma_normalized_unique(a: Seq<(usize, usize)>, b: Seq<(usize, usize)>)
    requires
        normalized(a),
        normalized(b),
        forall|u: usize| power_of(a, u) == power_of(b, u),
    ensures
        a == b,
    decreases a.len(),
{
    if a.len() == 0 {
        if b.len() > 0 {
            let xb = b.last();
            assert(xb == b[b.len() - 1]);
            assert(power_of(b, xb.0) >= xb.1);
            assert(power_of(a, xb.0) == 0);
        }
        assert(a =~= b);
    } else {
        let xa = a.last();
        let ta = a.drop_last();
        assert(xa == a[a.len() - 1]);
        lemma_normalized_front(a);
        lemma_normalized_powers(ta, xa.0 as int);
        assert(power_of(ta, xa.0) == 0);
        assert(power_of(a, xa.0) == xa.1);
        if b.len() == 0 {
            assert(power_of(b, xa.0) == 0);
            assert(false);
        }
        let xb = b.last();
        let tb = b.drop_last();
        assert(xb == b[b.len() - 1]);
        lemma_normalized_front(b);
        lemma_normalized_powers(tb, xb.0 as int);
        assert(power_of(tb, xb.0) == 0);
        assert(power_of(b, xb.0) == xb.1);
        if xa.0 > xb.0 {
            assert(vars_below(b, xa.0 as int)) by {
                assert forall|i: int| 0 <= i < b.len() implies (#[trigger] b[i]).0 < xa.0 by {
                    if i < b.len() - 1 {
                        assert(tb[i] == b[i]);
                    }
                }
            }
            lemma_normalized_powers(b, xa.0 as int);
            assert(power_of(b, xa.0) == 0);
            assert(false);
        }
        if xb.0 > xa.0 {
            assert(vars_below(a, xb.0 as int)) by {
                assert forall|i: int| 0 <= i < a.len() implies (#[trigger] a[i]).0 < xb.0 by {
                    if i < a.len() - 1 {
                        assert(ta[i] == a[i]);
                    }
                }
            }
            lemma_normalized_powers(a, xb.0 as int);
            assert(power_of(a, xb.0) == 0);
            assert(false);
        }
        assert(xa.0 == xb.0);
        assert(xa.1 == xb.1);
        assert forall|u: usize| power_of(ta, u) == power_of(tb, u) by {
            if u == xa.0 {
                assert(power_of(ta, u) == 0);
                assert(power_of(tb, u) == 0);
            } else {
                assert(power_of(a, u) == power_of(ta, u));
                assert(power_of(b, u) == power_of(tb, u));
            }
        }
        lemma_normalized_unique(ta, tb);
        assert(a =~= ta.push(xa));
        assert(b =~= tb.push(xb));
    }
}

/// Binding one variable of a monomial: the value at the updated point is the bound
/// variable's power times the value of what is left.
pub proof fn lemma_monomial_assign(
    factors: Seq<(usize, usize)>,
    point: Seq<int>,
    variable: usize,
    value: int,
)
    requires
        vars_below(factors, point.len() as int),
        variable < point.len(),
    ensures
        monomial_value(factors, point.update(variable as int, value)) == pow(
            value,
            power_of(factors, variable),
        ) * monomial_value(without_variable(factors, variable), point),
    decreases factors.len(),
{
    let moved = point.update(variable as int, value);
    if factors.len() == 0 {
        lemma_pow0(value);
    } else {
        let rest = factors.drop_last();
        let x = factors.last();
        assert(x == factors[factors.len() - 1]);
        assert(vars_below(rest, point.len() as int)) by {
            assert forall|i: int| 0 <= i < rest.len() implies (#[trigger] rest[i]).0 < point.len() by {
                assert(rest[i] == factors[i]);
            }
        }
        lemma_monomial_assign(rest, point, variable, value);
        let kept_rest = without_variable(rest, variable);
        let head = pow(value, power_of(rest, variable));
        let tail = monomial_value(kept_rest, point);
        assert(monomial_value(rest, moved) == head * tail);
        if x.0 == variable {
            assert(moved[x.0 as int] == value);
            lemma_pow_adds(value, power_of(rest, variable), x.1 as nat);
            assert((head * tail) * pow(value, x.1 as nat) == (head * pow(value, x.1 as nat))
                * tail) by (nonlinear_arith);
        } else {
            assert(moved[x.0 as int] == point[x.0 as int]);
            let kept = without_variable(factors, variable);
            assert(kept == kept_rest.push(x));
            assert(kept.drop_last() == kept_rest);
            assert(kept.last() == x);
            assert((head * tail) * pow(point[x.0 as int], x.1 as nat) == head * (tail * pow(
                point[x.0 as int],
                x.1 as nat,
            ))) by (nonlinear_arith);
        }
    }
}

} // verus!
