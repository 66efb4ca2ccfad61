//! How often two different polynomials over a prime field can agree: a polynomial of
//! degree `d` that is not zero has at most `d` roots among the residues.
//!
//! Polynomials are taken here as lists of integer coefficients, lowest power first, and
//! evaluated by Horner's rule. Dividing by `t - r` leaves a quotient with integer
//! coefficients, so the argument needs the primality of the modulus in one place only:
//! a prime that divides a product divides one of the factors.

use crate::univariate::coeff_sum;
use crate::univariate::entries_value;
use crate::univariate::Entry;
use vstd::arithmetic::div_mod::*;
use vstd::arithmetic::mul::*;
use vstd::arithmetic::power::*;
use vstd::prelude::*;

verus! {

/// `p` is a prime number.
pub open spec fn is_prime(p: int) -> bool {
    p >= 2 && forall|d: int| 1 < d < p ==> #[trigger] (p % d) != 0
}

/// The value at `t` of the polynomial with the coefficients `c`, lowest power first.
pub open spec fn horner(c: Seq<int>, t: int) -> int
    decreases c.len(),
{
    if c.len() == 0 {
        0
    } else {
        c[0] + t * horner(c.skip(1), t)
    }
}

/// `t` is a residue at which the polynomial `c` vanishes modulo `p`.
pub open spec fn is_root(c: Seq<int>, p: int, t: int) -> bool {
    0 <= t < p && horner(c, t) % p == 0
}

/// The quotient of the polynomial `c` by `t - r`: coefficient `k` is the value at `r` of
/// the polynomial that `c` is above power `k`.
pub open spec fn quotient(c: Seq<int>, r: int) -> Seq<int> {
    Seq::new(
        if c.len() == 0 {
            0
        } else {
            (c.len() - 1) as nat
        },
        |k: int| horner(c.skip(k + 1), r),
    )
}

/// The coefficients that `entries` spell out, lowest power first, `len` of them.
pub open spec fn dense(entries: Seq<Entry>, len: nat) -> Seq<int>
    decreases entries.len(),
{
    if entries.len() == 0 {
        Seq::new(len, |k: int| 0int)
    } else {
        let before = dense(entries.drop_last(), len);
        let at = entries.last().0 as int;
        before.update(at, before[at] + entries.last().1)
    }
}

/// A prime that divides a product divides one of its factors.
pub proof fn lemma_prime_divides_product(p: int, x: int, y: int)
    requires
        is_prime(p),
        (x * y) % p == 0,
    ensures
        x % p == 0 || y % p == 0,
{
    if y % p != 0 {
        lemma_mul_mod_noop_left(x, y, p);
        lemma_mod_bound(x, p);
        lemma_least_multiplier(p, x % p, y);
    }
}

/// Where a prime divides `a * y` but not `y`, and `a` is a residue, `a` is zero.
proof fn lemma_least_multiplier(p: int, a: int, y: int)
    requires
        is_prime(p),
        0 <= a < p,
        (a * y) % p == 0,
        y % p != 0,
    ensures
        a == 0,
    decreases a,
{
    if a == 1 {
        assert(1 * y == y);
    } else if a >= 2 {
        let r = p % a;
        let q = p / a;
        assert(r != 0);
        lemma_fundamental_div_mod(p, a);
        lemma_mod_bound(p, a);
        let k = (a * y) / p;
        lemma_fundamental_div_mod(a * y, p);
        assert(r * y == p * (y - q * k)) by (nonlinear_arith)
            requires
                p == a * q + r,
                a * y == p * k,
        ;
        lemma_mod_multiples_basic(y - q * k, p);
        assert((r * y) % p == 0) by {
            assert(p * (y - q * k) == (y - q * k) * p) by (nonlinear_arith);
        }
        lemma_least_multiplier(p, r, y);
    }
}

/// The value of a polynomial whose coefficients are all zero is zero.
proof fn lemma_horner_zero(len: nat, t: int)
    ensures
        horner(Seq::new(len, |k: int| 0int), t) == 0,
    decreases len,
{
    let zero = Seq::new(len, |k: int| 0int);
    if len > 0 {
        lemma_horner_zero((len - 1) as nat, t);
        assert(zero.skip(1) =~= Seq::new((len - 1) as nat, |k: int| 0int));
        assert(t * 0 == 0);
    }
}

/// The value of a polynomial is the value without its highest coefficient plus that
/// coefficient's monomial.
proof fn lemma_horner_top(c: Seq<int>, t: int)
    requires
        c.len() > 0,
    ensures
        horner(c, t) == horner(c.drop_last(), t) + c.last() * pow(t, (c.len() - 1) as nat),
    decreases c.len(),
{
    let front = c.drop_last();
    if c.len() == 1 {
        lemma_pow0(t);
        assert(horner(c.skip(1), t) == 0);
        assert(t * 0 == 0);
        assert(horner(front, t) == 0);
    } else {
        let rest = c.skip(1);
        lemma_horner_top(rest, t);
        assert(front.skip(1) =~= rest.drop_last());
        assert(front[0] == c[0]);
        assert(rest.last() == c.last());
        let high = pow(t, (c.len() - 2) as nat);
        lemma_pow_adds(t, 1, (c.len() - 2) as nat);
        lemma_pow1(t);
        assert(pow(t, (c.len() - 1) as nat) == t * high);
        let low = horner(rest.drop_last(), t);
        assert(c[0] + t * (low + c.last() * high) == (c[0] + t * low) + c.last() * (t * high))
            by (nonlinear_arith);
    }
}

/// Adding to one coefficient adds its monomial to the value.
proof fn lemma_horner_add_monomial(c: Seq<int>, power: int, x: int, t: int)
    requires
        0 <= power < c.len(),
    ensures
        horner(c.update(power, c[power] + x), t) == horner(c, t) + x * pow(t, power as nat),
    decreases power,
{
    let changed = c.update(power, c[power] + x);
    if power == 0 {
        lemma_pow0(t);
        assert(changed.skip(1) =~= c.skip(1));
    } else {
        let rest = c.skip(1);
        lemma_horner_add_monomial(rest, power - 1, x, t);
        assert(changed.skip(1) =~= rest.update(power - 1, rest[power - 1] + x));
        lemma_pow_adds(t, 1, (power - 1) as nat);
        lemma_pow1(t);
        let high = pow(t, (power - 1) as nat);
        assert(pow(t, power as nat) == t * high);
        assert(c[0] + t * (horner(rest, t) + x * high) == (c[0] + t * horner(rest, t)) + x * (t
            * high)) by (nonlinear_arith);
    }
}

/// The value of a difference of polynomials is the difference of their values.
pub proof fn lemma_horner_difference(x: Seq<int>, y: Seq<int>, t: int)
    requires
        x.len() == y.len(),
    ensures
        horner(Seq::new(x.len(), |k: int| x[k] - y[k]), t) == horner(x, t) - horner(y, t),
    decreases x.len(),
{
    let d = Seq::new(x.len(), |k: int| x[k] - y[k]);
    if x.len() > 0 {
        lemma_horner_difference(x.skip(1), y.skip(1), t);
        assert(d.skip(1) =~= Seq::new(x.skip(1).len(), |k: int| x.skip(1)[k] - y.skip(1)[k]));
        let a = horner(x.skip(1), t);
        let b = horner(y.skip(1), t);
        assert((x[0] - y[0]) + t * (a - b) == (x[0] + t * a) - (y[0] + t * b))
            by (nonlinear_arith);
    }
}

/// Division by `t - r`: the value at `t` less the value at `r` is `t - r` times the
/// value of the quotient, and the quotient keeps the highest coefficient.
pub proof fn lemma_quotient(c: Seq<int>, r: int, t: int)
    ensures
        horner(c, t) - horner(c, r) == (t - r) * horner(quotient(c, r), t),
        c.len() >= 2 ==> quotient(c, r).last() == c.last(),
    decreases c.len(),
{
    let q = quotient(c, r);
    if c.len() == 0 {
        assert(q.len() == 0);
        assert((t - r) * 0 == 0);
    } else {
        let rest = c.skip(1);
        lemma_quotient(rest, r, t);
        let at_t = horner(rest, t);
        let at_r = horner(rest, r);
        if c.len() == 1 {
            assert(rest.len() == 0);
            assert(q.len() == 0);
            assert(at_t == 0 && at_r == 0);
            assert(t * 0 == 0 && r * 0 == 0);
            assert((t - r) * 0 == 0);
            assert(horner(c, t) == c[0] + t * at_t);
            assert(horner(c, r) == c[0] + r * at_r);
            assert(horner(q, t) == 0);
        } else {
            let inner = quotient(rest, r);
            assert(q.skip(1) =~= inner) by {
                assert forall|k: int| 0 <= k < inner.len() implies q.skip(1)[k] == inner[k] by {
                    assert(rest.skip(k + 1) =~= c.skip(k + 2));
                }
            }
            assert(q[0] == at_r);
            let below = horner(inner, t);
            assert(horner(q, t) == q[0] + t * horner(q.skip(1), t));
            assert(horner(q, t) == at_r + t * below);
            assert(horner(c, t) == c[0] + t * at_t);
            assert(horner(c, r) == c[0] + r * at_r);
            assert((c[0] + t * at_t) - (c[0] + r * at_r) == (t - r) * (at_r + t * below))
                by (nonlinear_arith)
                requires
                    at_t - at_r == (t - r) * below,
            ;
            let top = c.skip(c.len() - 1);
            assert(top.len() == 1);
            assert(top[0] == c.last());
            assert(top.skip(1).len() == 0);
            assert(horner(top.skip(1), r) == 0);
            assert(r * 0 == 0);
            assert(horner(top, r) == c.last());
            assert(q.last() == q[c.len() - 2]);
            assert(q[c.len() - 2] == horner(c.skip((c.len() - 2) + 1), r));
        }
    }
}

/// A polynomial over a prime field with a coefficient that is not zero has fewer roots
/// among the residues than it has coefficients: at most as many as its degree.
pub proof fn lemma_roots_bound(c: Seq<int>, p: int, roots: Set<int>)
    requires
        is_prime(p),
        roots.finite(),
        forall|t: int| #[trigger] roots.contains(t) ==> is_root(c, p, t),
        exists|k: int| 0 <= k < c.len() && #[trigger] c[k] % p != 0,
    ensures
        roots.len() + 1 <= c.len(),
    decreases c.len(),
{
    let k = choose|k: int| 0 <= k < c.len() && #[trigger] c[k] % p != 0;
    if c.last() % p == 0 {
        let front = c.drop_last();
        assert(front[k] == c[k]);
        assert forall|t: int| #[trigger] roots.contains(t) implies is_root(front, p, t) by {
            assert(is_root(c, p, t));
            lemma_horner_top(c, t);
            let high = pow(t, (c.len() - 1) as nat);
            lemma_mul_mod_noop_left(c.last(), high, p);
            assert((0 * high) % p == 0) by {
                assert(0 * high == 0);
                lemma_small_mod(0, p as nat);
            }
            lemma_add_mod_noop_right(horner(front, t), c.last() * high, p);
        }
        lemma_roots_bound(front, p, roots);
    } else if roots.len() != 0 {
        let r = roots.choose();
        assert(roots.contains(r));
        assert(is_root(c, p, r));
        if c.len() == 1 {
            assert(horner(c.skip(1), r) == 0);
            assert(r * 0 == 0);
            assert(false);
        }
        let q = quotient(c, r);
        let rest = roots.remove(r);
        lemma_quotient(c, r, r);
        assert(q[q.len() - 1] % p != 0);
        assert forall|t: int| #[trigger] rest.contains(t) implies is_root(q, p, t) by {
            assert(roots.contains(t));
            assert(is_root(c, p, t));
            lemma_quotient(c, r, t);
            lemma_mod_equivalence(horner(c, t), horner(c, r), p);
            lemma_prime_divides_product(p, t - r, horner(q, t));
            if t > r {
                lemma_small_mod((t - r) as nat, p as nat);
            } else {
                lemma_small_mod((t - r + p) as nat, p as nat);
                lemma_mod_add_multiples_vanish(t - r, p);
            }
        }
        lemma_roots_bound(q, p, rest);
        assert(roots.len() == rest.len() + 1);
    }
}

/// The coefficient list of a sparse polynomial has the polynomial's value and the
/// polynomial's coefficients, where it is long enough for every power.
pub proof fn lemma_dense(entries: Seq<Entry>, len: nat, t: int)
    requires
        len <= usize::MAX + 1,
        forall|i: int| 0 <= i < entries.len() ==> (#[trigger] entries[i]).0 < len,
    ensures
        dense(entries, len).len() == len,
        horner(dense(entries, len), t) == entries_value(entries, t),
        forall|k: int|
            0 <= k < len ==> #[trigger] dense(entries, len)[k] == coeff_sum(entries, k as usize),
    decreases entries.len(),
{
    if entries.len() == 0 {
        lemma_horner_zero(len, t);
    } else {
        let front = entries.drop_last();
        let last = entries.last();
        assert(last == entries[entries.len() - 1]);
        assert forall|i: int| 0 <= i < front.len() implies (#[trigger] front[i]).0 < len by {
            assert(front[i] == entries[i]);
        }
        lemma_dense(front, len, t);
        lemma_horner_add_monomial(dense(front, len), last.0 as int, last.1, t);
        let before = dense(front, len);
        let now = dense(entries, len);
        assert forall|k: int| 0 <= k < len implies #[trigger] now[k] == coeff_sum(
            entries,
            k as usize,
        ) by {
            assert(before[k] == coeff_sum(front, k as usize));
            if k == last.0 as int {
                assert(k as usize == last.0);
            } else {
                assert(k as usize != last.0);
            }
        }
    }
}

} // verus!
