//! The boolean hypercube: how an enumeration index names a point of `{0,1}^n`, and sums
//! of a polynomial's values over the points.
//!
//! Bit `j` of the index is the coordinate of variable `j`. Both the claimed sum and the
//! round polynomials use this mapping.

use crate::polynomial::point_model;
use crate::polynomial::terms_value;
use crate::polynomial::PolyModel;
use vstd::arithmetic::div_mod::*;
use vstd::arithmetic::mul::*;
use vstd::arithmetic::power2::*;
use vstd::prelude::*;

verus! {

/// Bit `index` of `number`, as zero or one.
pub open spec fn bit(number: nat, index: nat) -> int {
    (number / pow2(index)) as int % 2
}

/// The point of `{0,1}^domain` that `number` names: coordinate `j` is bit `j`.
pub open spec fn domain_point(number: nat, domain: nat) -> Seq<int> {
    Seq::new(domain, |j: int| bit(number, j as nat))
}

/// The sum of `f(0), .., f(count - 1)`.
pub open spec fn sum_to(f: spec_fn(nat) -> int, count: nat) -> int
    decreases count,
{
    if count == 0 {
        0
    } else {
        sum_to(f, (count - 1) as nat) + f((count - 1) as nat)
    }
}

/// The sum of `f` over the indices that `order` lists.
pub open spec fn sum_over(f: spec_fn(nat) -> int, order: Seq<nat>) -> int
    decreases order.len(),
{
    if order.len() == 0 {
        0
    } else {
        sum_over(f, order.drop_last()) + f(order.last())
    }
}

/// `order` lists each index below `count` exactly once.
pub open spec fn is_enumeration(order: Seq<nat>, count: nat) -> bool {
    &&& order.len() == count
    &&& order.no_duplicates()
    &&& forall|i: nat| i < count ==> #[trigger] order.contains(i)
}

/// The value of `poly` at each point that extends `prefix` by the bits of an index.
pub open spec fn point_values(poly: PolyModel, prefix: Seq<int>) -> spec_fn(nat) -> int {
    |i: nat| poly.eval(prefix + domain_point(i, (poly.num_vars - prefix.len()) as nat))
}

/// The sum of `poly` over every boolean assignment to the variables after `prefix`, the
/// variables before them being fixed to `prefix`; a residue.
pub open spec fn partial_sum(poly: PolyModel, prefix: Seq<int>) -> int {
    sum_to(point_values(poly, prefix), pow2((poly.num_vars - prefix.len()) as nat))
        % poly.modulus
}

/// The coordinates of the point that `number` names in `{0,1}^domain`.
pub fn number_to_domain(number: usize, domain: usize) -> (r: Vec<u64>)
    ensures
        r@.len() == domain,
        point_model(r@) == domain_point(number as nat, domain as nat),
        forall|j: int| 0 <= j < domain ==> #[trigger] r@[j] == bit(number as nat, j as nat),
{
    let mut bits: Vec<u64> = Vec::new();
    let mut rest: usize = number;
    let mut j: usize = 0;
    proof {
        lemma2_to64();
    }
    while j < domain
        invariant
            j <= domain,
            bits@.len() == j,
            rest == number as nat / pow2(j as nat),
            forall|k: int| 0 <= k < j ==> #[trigger] bits@[k] == bit(number as nat, k as nat),
        decreases domain - j,
    {
        let low: u64 = if rest % 2 == 1 {
            1
        } else {
            0
        };
        bits.push(low);
        proof {
            lemma_pow2_pos(j as nat);
            lemma_pow2_unfold((j + 1) as nat);
            lemma_div_denominator(number as int, pow2(j as nat) as int, 2);
        }
        rest = rest / 2;
        j += 1;
    }
    proof {
        assert(point_model(bits@) =~= domain_point(number as nat, domain as nat));
    }
    bits
}

/// The number of points of `{0,1}^dimension`, where it fits in `usize`.
pub fn hypercube_size(dimension: usize) -> (r: Option<usize>)
    ensures
        r is Some <==> pow2(dimension as nat) <= usize::MAX,
        r is Some ==> r->Some_0 == pow2(dimension as nat),
{
    let mut size: usize = 1;
    let mut i: usize = 0;
    proof {
        lemma2_to64();
    }
    while i < dimension
        invariant
            i <= dimension,
            size == pow2(i as nat),
        decreases dimension - i,
    {
        if size > usize::MAX / 2 {
            proof {
                lemma_pow2_unfold((i + 1) as nat);
                if i + 1 < dimension {
                    lemma_pow2_strictly_increases((i + 1) as nat, dimension as nat);
                }
            }
            return None;
        }
        proof {
            lemma_pow2_unfold((i + 1) as nat);
        }
        size = size * 2;
        i += 1;
    }
    Some(size)
}

/// Sums of functions that agree below `count` are equal.
pub proof fn lemma_sum_equal(f: spec_fn(nat) -> int, g: spec_fn(nat) -> int, count: nat)
    requires
        forall|i: nat| i < count ==> #[trigger] f(i) == g(i),
    ensures
        sum_to(f, count) == sum_to(g, count),
    decreases count,
{
    if count > 0 {
        lemma_sum_equal(f, g, (count - 1) as nat);
    }
}

/// A sum over `2 * half` indices is the sum over the even ones plus the sum over the odd
/// ones.
pub proof fn lemma_sum_halves(f: spec_fn(nat) -> int, half: nat)
    ensures
        sum_to(f, 2 * half) == sum_to(|i: nat| f(2 * i), half) + sum_to(
            |i: nat| f(2 * i + 1),
            half,
        ),
    decreases half,
{
    if half > 0 {
        let less = (half - 1) as nat;
        lemma_sum_halves(f, less);
        assert(sum_to(f, 2 * half) == sum_to(f, (2 * half - 1) as nat) + f((2 * half - 1) as nat));
        assert(sum_to(f, (2 * half - 1) as nat) == sum_to(f, 2 * less) + f(2 * less));
        let even = |i: nat| f(2 * i);
        let odd = |i: nat| f(2 * i + 1);
        assert(sum_to(even, half) == sum_to(even, less) + even(less));
        assert(sum_to(odd, half) == sum_to(odd, less) + odd(less));
    }
}

/// The sum of a sum of two functions is the sum of their sums.
pub proof fn lemma_sum_add(
    both: spec_fn(nat) -> int,
    f: spec_fn(nat) -> int,
    g: spec_fn(nat) -> int,
    count: nat,
)
    requires
        forall|k: nat| k < count ==> #[trigger] both(k) == f(k) + g(k),
    ensures
        sum_to(both, count) == sum_to(f, count) + sum_to(g, count),
    decreases count,
{
    if count > 0 {
        lemma_sum_add(both, f, g, (count - 1) as nat);
    }
}

/// The sum of a function that is zero but at one index is its value there.
pub proof fn lemma_sum_single(f: spec_fn(nat) -> int, at: nat, count: nat)
    requires
        forall|k: nat| k < count && k != at ==> #[trigger] f(k) == 0,
    ensures
        sum_to(f, count) == if at < count {
            f(at)
        } else {
            0
        },
    decreases count,
{
    if count > 0 {
        lemma_sum_single(f, at, (count - 1) as nat);
    }
}

/// Taking one index out of a list takes its value out of the sum.
proof fn lemma_sum_over_remove(f: spec_fn(nat) -> int, order: Seq<nat>, at: int)
    requires
        0 <= at < order.len(),
    ensures
        sum_over(f, order) == sum_over(f, order.remove(at)) + f(order[at]),
    decreases order.len(),
{
    if at == order.len() - 1 {
        assert(order.remove(at) =~= order.drop_last());
    } else {
        lemma_sum_over_remove(f, order.drop_last(), at);
        assert(order.remove(at).drop_last() =~= order.drop_last().remove(at));
        assert(order.remove(at).last() == order.last());
    }
}

/// An enumeration without the place of its largest index enumerates the indices below
/// that one.
pub proof fn lemma_enumeration_remove(order: Seq<nat>, count: nat, at: int)
    requires
        count > 0,
        is_enumeration(order, count),
        0 <= at < order.len(),
        order[at] == count - 1,
    ensures
        is_enumeration(order.remove(at), (count - 1) as nat),
        forall|i: int|
            0 <= i < order.len() - 1 ==> #[trigger] order.remove(at)[i] == order[if i < at {
                i
            } else {
                i + 1
            }],
        forall|i: int| 0 <= i < order.len() - 1 ==> #[trigger] order.remove(at)[i] != count - 1,
{
    let top = (count - 1) as nat;
    let rest = order.remove(at);
    assert forall|i: int| 0 <= i < rest.len() implies #[trigger] rest[i] == order[if i < at {
        i
    } else {
        i + 1
    }] && rest[i] != top by {}
    assert forall|i: int, j: int| 0 <= i < rest.len() && 0 <= j < rest.len() && i
        != j implies rest[i] != rest[j] by {
        let i0 = if i < at { i } else { i + 1 };
        let j0 = if j < at { j } else { j + 1 };
        assert(rest[i] == order[i0]);
        assert(rest[j] == order[j0]);
    }
    assert forall|i: nat| i < top implies #[trigger] rest.contains(i) by {
        assert(order.contains(i));
        let k = choose|k: int| 0 <= k < order.len() && order[k] == i;
        if k < at {
            assert(rest[k] == i);
        } else {
            assert(rest[k - 1] == i);
        }
    }
}

/// A sum over the indices below `count` does not depend on the order in which they are
/// taken.
pub proof fn lemma_sum_order(f: spec_fn(nat) -> int, order: Seq<nat>, count: nat)
    requires
        is_enumeration(order, count),
    ensures
        sum_over(f, order) == sum_to(f, count),
    decreases count,
{
    if count > 0 {
        let top = (count - 1) as nat;
        assert(order.contains(top));
        let at = choose|at: int| 0 <= at < order.len() && order[at] == top;
        lemma_sum_over_remove(f, order, at);
        lemma_enumeration_remove(order, count, at);
        lemma_sum_order(f, order.remove(at), top);
    }
}

/// Index `2 * number + low` names the point of `number` with `low` put in front.
pub proof fn lemma_domain_point_step(number: nat, low: nat, domain: nat)
    requires
        low < 2,
    ensures
        domain_point(2 * number + low, domain + 1) == seq![low as int] + domain_point(
            number,
            domain,
        ),
{
    let whole = 2 * number + low;
    let left = domain_point(whole, domain + 1);
    let right = seq![low as int] + domain_point(number, domain);
    assert forall|k: int| 0 <= k < left.len() implies left[k] == right[k] by {
        if k == 0 {
            lemma2_to64();
            assert(pow2(0) == 1);
        } else {
            let j = (k - 1) as nat;
            lemma_pow2_pos(j);
            lemma_pow2_unfold(k as nat);
            assert(pow2(k as nat) == 2 * pow2(j));
            lemma_div_denominator(whole as int, 2, pow2(j) as int);
            assert(whole / 2 == number);
            assert(right[k] == domain_point(number, domain)[k - 1]);
        }
    }
    assert(left =~= right);
}

/// Summing over the next variable: the sum after `prefix` is the sum after `prefix, 0`
/// plus the sum after `prefix, 1`.
pub proof fn lemma_partial_sum_split(poly: PolyModel, prefix: Seq<int>)
    requires
        poly.modulus > 0,
        prefix.len() < poly.num_vars,
    ensures
        partial_sum(poly, prefix) == (partial_sum(poly, prefix.push(0)) + partial_sum(
            poly,
            prefix.push(1),
        )) % poly.modulus,
{
    let width = (poly.num_vars - prefix.len() - 1) as nat;
    let half = pow2(width);
    let f = point_values(poly, prefix);
    let zero = point_values(poly, prefix.push(0));
    let one = point_values(poly, prefix.push(1));
    lemma_pow2_unfold(width + 1);
    lemma_sum_halves(f, half);
    assert forall|i: nat| i < half implies #[trigger] f(2 * i) == zero(i) by {
        lemma_domain_point_step(i, 0, width);
        assert(prefix + (seq![0int] + domain_point(i, width)) =~= prefix.push(0) + domain_point(
            i,
            width,
        ));
    }
    assert forall|i: nat| i < half implies #[trigger] f(2 * i + 1) == one(i) by {
        lemma_domain_point_step(i, 1, width);
        assert(prefix + (seq![1int] + domain_point(i, width)) =~= prefix.push(1) + domain_point(
            i,
            width,
        ));
    }
    lemma_sum_equal(|i: nat| f(2 * i), zero, half);
    lemma_sum_equal(|i: nat| f(2 * i + 1), one, half);
    lemma_add_mod_noop(sum_to(zero, half), sum_to(one, half), poly.modulus);
}

/// With every variable fixed nothing is left to sum over.
pub proof fn lemma_partial_sum_full(poly: PolyModel, prefix: Seq<int>)
    requires
        poly.modulus > 0,
        prefix.len() == poly.num_vars,
    ensures
        partial_sum(poly, prefix) == poly.eval(prefix),
{
    lemma2_to64();
    let f = point_values(poly, prefix);
    assert(sum_to(f, 1) == sum_to(f, 0) + f(0));
    assert(prefix + domain_point(0, 0) =~= prefix);
    lemma_mod_twice(terms_value(poly.terms, prefix), poly.modulus);
}

/// The claimed sum does not depend on the order in which the hypercube is walked:
/// adding up the values over any enumeration of the indices gives the same residue.
pub proof fn lemma_sum_invariance(poly: PolyModel, order: Seq<nat>)
    requires
        poly.num_vars >= 0,
        is_enumeration(order, pow2(poly.num_vars as nat)),
    ensures
        sum_over(point_values(poly, Seq::empty()), order) % poly.modulus == partial_sum(
            poly,
            Seq::empty(),
        ),
{
    lemma_sum_order(point_values(poly, Seq::empty()), order, pow2(poly.num_vars as nat));
}

} // verus!
