//! How unequal decimal numbers are, to the unit.

use vstd::prelude::*;

use crate::exact::{all_in_limits, law_totals_are_exact, lemma_sum_is_not_negative, sum_units};
use crate::fixed::{
    abs, law_same_units_same_number, law_units_are_kept, lemma_literal_units, lemma_parts,
    lemma_quot_exact, lemma_ten_to_twelve, limited, quot, Fixed, LIMIT, ONE,
};
use crate::metrics::{add_distances, all_distances, gini_of, is_negative};
use crate::number::{total, zero, Number};

verus! {

broadcast use law_units_are_kept;

/// The distance between two numbers of units.
pub open spec fn distance(x: int, y: int) -> int {
    abs(x - y)
}

/// The distances of a number of units to each number of a sequence, added up.
pub open spec fn distances_to(x: int, ys: Seq<Fixed>) -> int
    decreases ys.len(),
{
    if ys.len() == 0 {
        0
    } else {
        distances_to(x, ys.drop_last()) + distance(x, ys.last()@)
    }
}

/// The distances of each number of a sequence to each number of another, added up.
pub open spec fn distances_between(xs: Seq<Fixed>, ys: Seq<Fixed>) -> int
    decreases xs.len(),
{
    if xs.len() == 0 {
        0
    } else {
        distances_between(xs.drop_last(), ys) + distances_to(xs.last()@, ys)
    }
}

proof fn lemma_add_distances(acc: Fixed, x: Fixed, ys: Seq<Fixed>)
    requires
        0 <= acc@ <= LIMIT,
        0 <= x@ <= LIMIT,
        all_in_limits(ys),
    ensures
        add_distances(acc, x, ys)@ == limited(acc@ + distances_to(x@, ys)),
        distances_to(x@, ys) >= 0,
    decreases ys.len(),
{
    if ys.len() > 0 {
        assert(0 <= ys[ys.len() - 1]@ <= LIMIT);
        lemma_add_distances(acc, x, ys.drop_last());
    }
}

proof fn lemma_all_distances(xs: Seq<Fixed>, ys: Seq<Fixed>)
    requires
        all_in_limits(xs),
        all_in_limits(ys),
    ensures
        all_distances(xs, ys)@ == limited(distances_between(xs, ys)),
        distances_between(xs, ys) >= 0,
    decreases xs.len(),
{
    lemma_literal_units();
    if xs.len() > 0 {
        assert(0 <= xs[xs.len() - 1]@ <= LIMIT);
        lemma_all_distances(xs.drop_last(), ys);
        lemma_add_distances(all_distances(xs.drop_last(), ys), xs.last(), ys);
    }
}

proof fn lemma_distances_bound(x: int, ys: Seq<Fixed>)
    requires
        0 <= x,
        all_in_limits(ys),
    ensures
        distances_to(x, ys) <= ys.len() * x + sum_units(ys),
        (exists|i: int| 0 <= i < ys.len() && #[trigger] ys[i]@ == x) ==> distances_to(x, ys)
            <= ys.len() * x + sum_units(ys) - 2 * x,
    decreases ys.len(),
{
    if ys.len() > 0 {
        let rest = ys.drop_last();
        assert(0 <= ys[ys.len() - 1]@);
        lemma_distances_bound(x, rest);
        assert((ys.len() - 1) * x + x == ys.len() * x) by (nonlinear_arith);
        if exists|i: int| 0 <= i < ys.len() && #[trigger] ys[i]@ == x {
            let i = choose|i: int| 0 <= i < ys.len() && #[trigger] ys[i]@ == x;
            if i < ys.len() - 1 {
                assert(rest[i]@ == x);
            }
        }
    } else {
        assert(0 * x == 0) by (nonlinear_arith);
    }
}

proof fn lemma_all_distances_bound(xs: Seq<Fixed>, ys: Seq<Fixed>)
    requires
        all_in_limits(xs),
        all_in_limits(ys),
        forall|i: int| 0 <= i < xs.len() ==> ys.contains(#[trigger] xs[i]),
    ensures
        distances_between(xs, ys) <= (ys.len() - 2) * sum_units(xs) + xs.len() * sum_units(ys),
    decreases xs.len(),
{
    let m = sum_units(ys);
    let n = ys.len() as int;
    if xs.len() > 0 {
        let rest = xs.drop_last();
        let x = xs.last()@;
        assert(ys.contains(xs[xs.len() - 1]));
        let j = ys.index_of(xs.last());
        assert(ys[j]@ == x);
        assert forall|i: int| 0 <= i < rest.len() implies ys.contains(#[trigger] rest[i]) by {
            assert(rest[i] == xs[i]);
        }
        lemma_all_distances_bound(rest, ys);
        lemma_distances_bound(x, ys);
        let s = sum_units(rest);
        assert((n - 2) * (s + x) == (n - 2) * s + n * x - 2 * x) by (nonlinear_arith);
        assert((xs.len() - 1) * m + m == xs.len() * m) by (nonlinear_arith);
    } else {
        assert((n - 2) * 0 == 0 && 0 * m == 0) by (nonlinear_arith);
    }
}

proof fn lemma_gini_sums(v: Seq<Fixed>)
    requires
        all_in_limits(v),
    ensures
        0 <= distances_between(v, v) <= 2 * (v.len() - 1) * sum_units(v) || v.len() == 0,
        sum_units(v) >= 0,
{
    lemma_all_distances(v, v);
    lemma_sum_is_not_negative(v);
    assert forall|i: int| 0 <= i < v.len() implies v.contains(#[trigger] v[i]) by {}
    lemma_all_distances_bound(v, v);
    let n = v.len() as int;
    let m = sum_units(v);
    assert((n - 2) * m + n * m == 2 * (n - 1) * m) by (nonlinear_arith);
}

/// The Gini coefficient in units: the distances over twice the number of values times their sum.
/// It is zero where all values are.
pub proof fn law_gini_in_units(v: Seq<Fixed>)
    requires
        all_in_limits(v),
        0 < v.len() <= u64::MAX,
        2 * v.len() * sum_units(v) <= LIMIT,
    ensures
        sum_units(v) == 0 ==> gini_of(v)@ == 0,
        sum_units(v) > 0 ==> gini_of(v)@ == (distances_between(v, v) * ONE) / (2 * v.len()
            * sum_units(v)),
        0 <= gini_of(v)@,
        gini_of(v)@ * v.len() <= (v.len() - 1) * ONE,
{
    lemma_literal_units();
    lemma_ten_to_twelve();
    let one = ONE as int;
    let n = v.len();
    let m = sum_units(v);
    let d = distances_between(v, v);
    law_totals_are_exact(v);
    lemma_all_distances(v, v);
    lemma_gini_sums(v);
    assert(m <= 2 * n * m) by (nonlinear_arith)
        requires
            n >= 1,
            m >= 0,
    ;
    assert(total(v)@ == m);
    assert forall|i: int| 0 <= i < v.len() implies !is_negative(#[trigger] v[i]) by {
        assert(0 <= v[i]@);
    }
    assert(crate::fixed::ten_to(0) == 1);
    assert(Fixed::lit(1, 12)@ == 1);
    assert((n - 1) * one >= 0) by (nonlinear_arith)
        requires
            n >= 1,
            one > 0,
    ;
    if m > 0 {
        let base = 2 * n * m;
        assert(base > 0) by (nonlinear_arith)
            requires
                base == 2 * n * m,
                n >= 1,
                m > 0,
        ;
        assert(2 * n <= base) by (nonlinear_arith)
            requires
                base == 2 * n * m,
                n >= 1,
                m >= 1,
        ;
        lemma_gini_base(n, total(v));
        assert(d <= base) by (nonlinear_arith)
            requires
                d <= 2 * (n - 1) * m,
                base == 2 * n * m,
                m >= 0,
        ;
        let g = (d * one) / base;
        lemma_parts(d * one, base);
        assert(0 <= d * one) by (nonlinear_arith)
            requires
                d >= 0,
                one > 0,
        ;
        vstd::arithmetic::div_mod::lemma_div_pos_is_pos(d * one, base);
        assert(g * n <= (n - 1) * one) by (nonlinear_arith)
            requires
                g * base <= d * one,
                base == 2 * n * m,
                d <= 2 * (n - 1) * m,
                m > 0,
                n >= 1,
                one > 0,
        ;
        assert(g <= one) by (nonlinear_arith)
            requires
                g * n <= (n - 1) * one,
                n >= 1,
                one > 0,
        ;
        assert(quot(d * one, base) == g);
    } else {
        assert(0 * n == 0) by (nonlinear_arith);
    }
}

proof fn lemma_gini_base(n: nat, sum: Fixed)
    requires
        0 < sum@,
        0 < n,
        2 * n * sum@ <= LIMIT,
        2 * n <= LIMIT / ONE,
    ensures
        Fixed::lit(2, 0).mul(Fixed::count_of(n)).mul(sum)@ == 2 * n * sum@,
{
    let one = ONE as int;
    lemma_ten_to_twelve();
    assert(Fixed::lit(2, 0)@ == 2 * one);
    assert(Fixed::count_of(n)@ == n * one);
    assert((2 * one) * (n * one) == (2 * n * one) * one) by (nonlinear_arith);
    lemma_quot_exact(2 * n * one, one);
    let twice = Fixed::lit(2, 0).mul(Fixed::count_of(n));
    assert(twice@ == 2 * n * one);
    assert((2 * n * one) * sum@ == (2 * n * sum@) * one) by (nonlinear_arith);
    lemma_quot_exact(2 * n * sum@, one);
}

/// What a sequence of numbers adds up to does not depend on their order.
proof fn lemma_sums_ignore_order(x: int, v: Seq<Fixed>, w: Seq<Fixed>)
    requires
        v.to_multiset() == w.to_multiset(),
    ensures
        v.len() == w.len(),
        sum_units(v) == sum_units(w),
        distances_to(x, v) == distances_to(x, w),
    decreases v.len(),
{
    broadcast use vstd::seq_lib::group_to_multiset_ensures;

    assert(v.len() == v.to_multiset().len());
    assert(w.len() == w.to_multiset().len());
    if v.len() > 0 {
        let a = v.last();
        assert(v.contains(a));
        assert(w.contains(a)) by {
            assert(v.to_multiset().count(a) > 0);
        }
        let j = w.index_of(a);
        let rest = w.remove(j);
        assert(v.drop_last() =~= v.remove(v.len() - 1));
        assert(rest.to_multiset() =~= v.drop_last().to_multiset());
        lemma_sums_ignore_order(x, v.drop_last(), rest);
        lemma_removed(x, w, j);
    }
}

proof fn lemma_removed(x: int, w: Seq<Fixed>, j: int)
    requires
        0 <= j < w.len(),
    ensures
        sum_units(w) == sum_units(w.remove(j)) + w[j]@,
        distances_to(x, w) == distances_to(x, w.remove(j)) + distance(x, w[j]@),
    decreases w.len(),
{
    if j == w.len() - 1 {
        assert(w.remove(j) =~= w.drop_last());
    } else {
        lemma_removed(x, w.drop_last(), j);
        assert(w.remove(j).drop_last() =~= w.drop_last().remove(j));
        assert(w.remove(j).last() == w.last());
    }
}

proof fn lemma_pairs_ignore_right_order(xs: Seq<Fixed>, v: Seq<Fixed>, w: Seq<Fixed>)
    requires
        v.to_multiset() == w.to_multiset(),
    ensures
        distances_between(xs, v) == distances_between(xs, w),
    decreases xs.len(),
{
    if xs.len() > 0 {
        lemma_pairs_ignore_right_order(xs.drop_last(), v, w);
        lemma_sums_ignore_order(xs.last()@, v, w);
    }
}

proof fn lemma_pair_removed(w: Seq<Fixed>, ys: Seq<Fixed>, j: int)
    requires
        0 <= j < w.len(),
    ensures
        distances_between(w, ys) == distances_between(w.remove(j), ys) + distances_to(w[j]@, ys),
    decreases w.len(),
{
    if j == w.len() - 1 {
        assert(w.remove(j) =~= w.drop_last());
    } else {
        lemma_pair_removed(w.drop_last(), ys, j);
        assert(w.remove(j).drop_last() =~= w.drop_last().remove(j));
        assert(w.remove(j).last() == w.last());
    }
}

proof fn lemma_pairs_ignore_left_order(v: Seq<Fixed>, w: Seq<Fixed>, ys: Seq<Fixed>)
    requires
        v.to_multiset() == w.to_multiset(),
    ensures
        distances_between(v, ys) == distances_between(w, ys),
    decreases v.len(),
{
    broadcast use vstd::seq_lib::group_to_multiset_ensures;

    assert(v.len() == v.to_multiset().len());
    assert(w.len() == w.to_multiset().len());
    if v.len() > 0 {
        let a = v.last();
        assert(v.contains(a));
        assert(w.contains(a)) by {
            assert(v.to_multiset().count(a) > 0);
        }
        let j = w.index_of(a);
        assert(v.drop_last() =~= v.remove(v.len() - 1));
        assert(w.remove(j).to_multiset() =~= v.drop_last().to_multiset());
        lemma_pairs_ignore_left_order(v.drop_last(), w.remove(j), ys);
        lemma_pair_removed(w, ys, j);
    }
}

/// The Gini coefficient does not depend on the order of the values.
pub proof fn law_gini_ignores_order(v: Seq<Fixed>, w: Seq<Fixed>)
    requires
        all_in_limits(v),
        v.to_multiset() == w.to_multiset(),
    ensures
        gini_of(v) == gini_of(w),
{
    broadcast use vstd::seq_lib::group_to_multiset_ensures;

    lemma_literal_units();
    lemma_sums_ignore_order(0, v, w);
    assert forall|i: int| 0 <= i < w.len() implies 0 <= (#[trigger] w[i])@ <= LIMIT by {
        assert(w.contains(w[i]));
        assert(w.to_multiset().count(w[i]) > 0);
        assert(v.contains(w[i]));
        let j = v.index_of(w[i]);
        assert(0 <= v[j]@ <= LIMIT);
    }
    law_totals_are_exact(v);
    law_totals_are_exact(w);
    lemma_pairs_ignore_right_order(v, v, w);
    lemma_pairs_ignore_left_order(v, w, w);
    lemma_all_distances(v, v);
    lemma_all_distances(w, w);
    law_same_units_same_number(total(v), total(w));
    law_same_units_same_number(all_distances(v, v), all_distances(w, w));
    assert forall|i: int| 0 <= i < v.len() implies !is_negative(#[trigger] v[i]) by {
        assert(0 <= v[i]@);
    }
    assert forall|i: int| 0 <= i < w.len() implies !is_negative(#[trigger] w[i]) by {
        assert(0 <= w[i]@);
    }
}

/// Whether each value of a sequence is the same multiple of the value of another.
pub open spec fn is_scaled(v: Seq<Fixed>, w: Seq<Fixed>, a: int, b: int) -> bool {
    &&& v.len() == w.len()
    &&& forall|i: int| 0 <= i < v.len() ==> (#[trigger] w[i])@ * b == v[i]@ * a
}

proof fn lemma_sums_scale(v: Seq<Fixed>, w: Seq<Fixed>, a: int, b: int)
    requires
        is_scaled(v, w, a, b),
    ensures
        sum_units(w) * b == sum_units(v) * a,
    decreases v.len(),
{
    if v.len() > 0 {
        let (x, y) = (sum_units(v.drop_last()), sum_units(w.drop_last()));
        let (p, q) = (v.last()@, w.last()@);
        assert(w[w.len() - 1]@ * b == v[v.len() - 1]@ * a);
        assert(is_scaled(v.drop_last(), w.drop_last(), a, b)) by {
            assert forall|i: int| 0 <= i < v.len() - 1 implies (#[trigger] w.drop_last()[i])@ * b
                == v.drop_last()[i]@ * a by {
                assert(w[i]@ * b == v[i]@ * a);
            }
        }
        lemma_sums_scale(v.drop_last(), w.drop_last(), a, b);
        assert((y + q) * b == (x + p) * a) by (nonlinear_arith)
            requires
                y * b == x * a,
                q * b == p * a,
        ;
    } else {
        assert(0 * a == 0 && 0 * b == 0) by (nonlinear_arith);
    }
}

proof fn lemma_distances_scale(x: int, y: int, v: Seq<Fixed>, w: Seq<Fixed>, a: int, b: int)
    requires
        is_scaled(v, w, a, b),
        a > 0,
        b > 0,
        y * b == x * a,
    ensures
        distances_to(y, w) * b == distances_to(x, v) * a,
    decreases v.len(),
{
    if v.len() > 0 {
        let (p, q) = (v.last()@, w.last()@);
        assert(w[w.len() - 1]@ * b == v[v.len() - 1]@ * a);
        assert(is_scaled(v.drop_last(), w.drop_last(), a, b)) by {
            assert forall|i: int| 0 <= i < v.len() - 1 implies (#[trigger] w.drop_last()[i])@ * b
                == v.drop_last()[i]@ * a by {
                assert(w[i]@ * b == v[i]@ * a);
            }
        }
        lemma_distances_scale(x, y, v.drop_last(), w.drop_last(), a, b);
        assert((y - q) * b == (x - p) * a) by (nonlinear_arith)
            requires
                y * b == x * a,
                q * b == p * a,
        ;
        let (g, h) = (x - p, y - q);
        assert(abs(h) * b == abs(g) * a) by (nonlinear_arith)
            requires
                h * b == g * a,
                a > 0,
                b > 0,
        ;
        let (s, t) = (distances_to(x, v.drop_last()), distances_to(y, w.drop_last()));
        assert((t + abs(h)) * b == (s + abs(g)) * a) by (nonlinear_arith)
            requires
                t * b == s * a,
                abs(h) * b == abs(g) * a,
        ;
    } else {
        assert(0 * a == 0 && 0 * b == 0) by (nonlinear_arith);
    }
}

proof fn lemma_pairs_scale(
    xs: Seq<Fixed>,
    ys: Seq<Fixed>,
    v: Seq<Fixed>,
    w: Seq<Fixed>,
    a: int,
    b: int,
)
    requires
        is_scaled(xs, ys, a, b),
        is_scaled(v, w, a, b),
        a > 0,
        b > 0,
    ensures
        distances_between(ys, w) * b == distances_between(xs, v) * a,
    decreases xs.len(),
{
    if xs.len() > 0 {
        let (p, q) = (xs.last()@, ys.last()@);
        assert(ys[ys.len() - 1]@ * b == xs[xs.len() - 1]@ * a);
        assert(is_scaled(xs.drop_last(), ys.drop_last(), a, b)) by {
            assert forall|i: int| 0 <= i < xs.len() - 1 implies (#[trigger] ys.drop_last()[i])@ * b
                == xs.drop_last()[i]@ * a by {
                assert(ys[i]@ * b == xs[i]@ * a);
            }
        }
        lemma_pairs_scale(xs.drop_last(), ys.drop_last(), v, w, a, b);
        lemma_distances_scale(p, q, v, w, a, b);
        let (s, t) = (
            distances_between(xs.drop_last(), v),
            distances_between(ys.drop_last(), w),
        );
        let (d, e) = (distances_to(p, v), distances_to(q, w));
        assert((t + e) * b == (s + d) * a) by (nonlinear_arith)
            requires
                t * b == s * a,
                e * b == d * a,
        ;
    } else {
        assert(0 * a == 0 && 0 * b == 0) by (nonlinear_arith);
    }
}

proof fn lemma_same_fraction(p: int, q: int, r: int, s: int)
    requires
        q > 0,
        s > 0,
        p * s == r * q,
    ensures
        p / q == r / s,
{
    let k = p / q;
    lemma_parts(p, q);
    assert((k + 1) * q == k * q + q) by (nonlinear_arith);
    assert(k * s <= r && r < (k + 1) * s) by (nonlinear_arith)
        requires
            k * q <= p,
            p < (k + 1) * q,
            p * s == r * q,
            q > 0,
            s > 0,
    ;
    assert((k + 1) * s == k * s + s && k * s == s * k) by (nonlinear_arith);
    vstd::arithmetic::div_mod::lemma_fundamental_div_mod_converse(r, s, k, r - k * s);
}

/// The Gini coefficient does not depend on the unit in which values are measured: if each value is
/// the same multiple of another's, the coefficients are the same.
pub proof fn law_gini_ignores_scale(v: Seq<Fixed>, w: Seq<Fixed>, a: int, b: int)
    requires
        all_in_limits(v),
        all_in_limits(w),
        0 < v.len() <= u64::MAX,
        is_scaled(v, w, a, b),
        a > 0,
        b > 0,
        2 * v.len() * sum_units(v) <= LIMIT,
        2 * w.len() * sum_units(w) <= LIMIT,
    ensures
        gini_of(v) == gini_of(w),
{
    law_gini_in_units(v);
    law_gini_in_units(w);
    lemma_sums_scale(v, w, a, b);
    lemma_pairs_scale(v, w, v, w, a, b);
    lemma_sum_is_not_negative(v);
    lemma_sum_is_not_negative(w);
    let n = v.len() as int;
    let one = ONE as int;
    let (s, t) = (sum_units(v), sum_units(w));
    let (d, e) = (distances_between(v, v), distances_between(w, w));
    assert(s == 0 <==> t == 0) by (nonlinear_arith)
        requires
            t * b == s * a,
            a > 0,
            b > 0,
    ;
    if s > 0 {
        let (x, y) = (2 * n * s, 2 * n * t);
        assert(x > 0 && y > 0) by (nonlinear_arith)
            requires
                x == 2 * n * s,
                y == 2 * n * t,
                n > 0,
                s > 0,
                t > 0,
        ;
        assert(d * t == e * s) by (nonlinear_arith)
            requires
                t * b == s * a,
                e * b == d * a,
                a > 0,
                b > 0,
        ;
        assert((d * one) * y == (e * one) * x) by (nonlinear_arith)
            requires
                x == 2 * n * s,
                y == 2 * n * t,
                d * t == e * s,
        ;
        lemma_same_fraction(d * one, x, e * one, y);
    }
    law_same_units_same_number(gini_of(v), gini_of(w));
}

/// Whether each value of a sequence is the value of another with the same amount added.
pub open spec fn is_raised(v: Seq<Fixed>, w: Seq<Fixed>, gain: int) -> bool {
    &&& v.len() == w.len()
    &&& forall|i: int| 0 <= i < v.len() ==> (#[trigger] w[i])@ == v[i]@ + gain
}

proof fn lemma_raised(xs: Seq<Fixed>, ys: Seq<Fixed>, v: Seq<Fixed>, w: Seq<Fixed>, gain: int)
    requires
        is_raised(xs, ys, gain),
        is_raised(v, w, gain),
    ensures
        distances_between(ys, w) == distances_between(xs, v),
        sum_units(ys) == sum_units(xs) + xs.len() * gain,
    decreases xs.len(),
{
    if xs.len() > 0 {
        assert(ys[ys.len() - 1]@ == xs[xs.len() - 1]@ + gain);
        assert(is_raised(xs.drop_last(), ys.drop_last(), gain)) by {
            assert forall|i: int| 0 <= i < xs.len() - 1 implies (#[trigger] ys.drop_last()[i])@
                == xs.drop_last()[i]@ + gain by {
                assert(ys[i]@ == xs[i]@ + gain);
            }
        }
        lemma_raised(xs.drop_last(), ys.drop_last(), v, w, gain);
        lemma_raised_row(xs.last()@, v, w, gain);
        assert((xs.len() - 1) * gain + gain == xs.len() * gain) by (nonlinear_arith);
    } else {
        assert(0 * gain == 0) by (nonlinear_arith);
    }
}

proof fn lemma_raised_row(x: int, v: Seq<Fixed>, w: Seq<Fixed>, gain: int)
    requires
        is_raised(v, w, gain),
    ensures
        distances_to(x + gain, w) == distances_to(x, v),
    decreases v.len(),
{
    if v.len() > 0 {
        assert(w[w.len() - 1]@ == v[v.len() - 1]@ + gain);
        assert(is_raised(v.drop_last(), w.drop_last(), gain)) by {
            assert forall|i: int| 0 <= i < v.len() - 1 implies (#[trigger] w.drop_last()[i])@
                == v.drop_last()[i]@ + gain by {
                assert(w[i]@ == v[i]@ + gain);
            }
        }
        lemma_raised_row(x, v.drop_last(), w.drop_last(), gain);
    }
}

/// The Gini coefficient does not rise when all gain the same.
pub proof fn law_gini_does_not_rise_when_all_gain(v: Seq<Fixed>, w: Seq<Fixed>, gain: int)
    requires
        all_in_limits(v),
        all_in_limits(w),
        0 < v.len() <= u64::MAX,
        gain >= 0,
        is_raised(v, w, gain),
        2 * w.len() * sum_units(w) <= LIMIT,
    ensures
        gini_of(w)@ <= gini_of(v)@,
{
    lemma_raised(v, w, v, w, gain);
    lemma_sum_is_not_negative(v);
    lemma_gini_sums(v);
    let n = v.len() as int;
    let one = ONE as int;
    let (s, t) = (sum_units(v), sum_units(w));
    let d = distances_between(v, v);
    assert(n * gain >= 0) by (nonlinear_arith)
        requires
            n > 0,
            gain >= 0,
    ;
    assert(2 * n * s <= 2 * n * t) by (nonlinear_arith)
        requires
            s <= t,
            n > 0,
    ;
    law_gini_in_units(v);
    law_gini_in_units(w);
    assert(d * one >= 0) by (nonlinear_arith)
        requires
            d >= 0,
            one > 0,
    ;
    if s > 0 {
        let (x, y) = (2 * n * s, 2 * n * t);
        assert(x > 0) by (nonlinear_arith)
            requires
                x == 2 * n * s,
                n > 0,
                s > 0,
        ;
        vstd::arithmetic::div_mod::lemma_div_is_ordered_by_denominator(d * one, x, y);
    } else if t > 0 {
        let y = 2 * n * t;
        assert(d == 0) by (nonlinear_arith)
            requires
                0 <= d <= 2 * (n - 1) * s,
                s == 0,
        ;
        assert(y > 0) by (nonlinear_arith)
            requires
                y == 2 * n * t,
                n > 0,
                t > 0,
        ;
        vstd::arithmetic::div_mod::lemma_div_basics(y);
    }
}

proof fn lemma_equal_rows(x: int, v: Seq<Fixed>)
    requires
        forall|i: int| 0 <= i < v.len() ==> (#[trigger] v[i])@ == x,
    ensures
        distances_to(x, v) == 0,
    decreases v.len(),
{
    if v.len() > 0 {
        assert(v[v.len() - 1]@ == x);
        lemma_equal_rows(x, v.drop_last());
    }
}

proof fn lemma_equal_pairs(xs: Seq<Fixed>, v: Seq<Fixed>, x: int)
    requires
        forall|i: int| 0 <= i < xs.len() ==> (#[trigger] xs[i])@ == x,
        forall|i: int| 0 <= i < v.len() ==> (#[trigger] v[i])@ == x,
    ensures
        distances_between(xs, v) == 0,
    decreases xs.len(),
{
    if xs.len() > 0 {
        assert(xs[xs.len() - 1]@ == x);
        lemma_equal_pairs(xs.drop_last(), v, x);
        lemma_equal_rows(x, v);
    }
}

/// The Gini coefficient of equal values is zero.
pub proof fn law_gini_of_equals_is_zero(v: Seq<Fixed>, x: int)
    requires
        all_in_limits(v),
        0 < v.len() <= u64::MAX,
        2 * v.len() * sum_units(v) <= LIMIT,
        forall|i: int| 0 <= i < v.len() ==> (#[trigger] v[i])@ == x,
    ensures
        gini_of(v)@ == 0,
{
    lemma_equal_pairs(v, v, x);
    law_gini_in_units(v);
    lemma_sum_is_not_negative(v);
    let base = 2 * v.len() * sum_units(v);
    if sum_units(v) > 0 {
        assert(base > 0) by (nonlinear_arith)
            requires
                base == 2 * v.len() * sum_units(v),
                v.len() > 0,
                sum_units(v) > 0,
        ;
        vstd::arithmetic::div_mod::lemma_div_basics(base);
    }
}

proof fn lemma_lone_row(x: int, v: Seq<Fixed>, k: int)
    requires
        0 <= k < v.len(),
        v[k]@ >= 0,
        x == 0 || x == v[k]@,
        forall|i: int| 0 <= i < v.len() && i != k ==> (#[trigger] v[i])@ == 0,
    ensures
        sum_units(v) == v[k]@,
        distances_to(x, v) == (if x == 0 {
            v[k]@
        } else {
            (v.len() - 1) * v[k]@
        }),
    decreases v.len(),
{
    let rest = v.drop_last();
    let n = v.len();
    let big = v[k]@;
    if k == n - 1 {
        assert forall|i: int| 0 <= i < rest.len() implies (#[trigger] rest[i])@ == 0 by {
            assert(v[i]@ == 0);
        }
        lemma_zero_row(x, rest);
    } else {
        assert(v[n - 1]@ == 0);
        assert(rest[k] == v[k]);
        assert forall|i: int| 0 <= i < rest.len() && i != k implies (#[trigger] rest[i])@ == 0 by {
            assert(v[i]@ == 0);
        }
        lemma_lone_row(x, rest, k);
        assert((n - 2) * big + big == (n - 1) * big) by (nonlinear_arith);
    }
}

proof fn lemma_zero_row(x: int, v: Seq<Fixed>)
    requires
        x >= 0,
        forall|i: int| 0 <= i < v.len() ==> (#[trigger] v[i])@ == 0,
    ensures
        sum_units(v) == 0,
        distances_to(x, v) == v.len() * x,
    decreases v.len(),
{
    if v.len() > 0 {
        assert(v[v.len() - 1]@ == 0);
        lemma_zero_row(x, v.drop_last());
        assert((v.len() - 1) * x + x == v.len() * x) by (nonlinear_arith);
    } else {
        assert(0 * x == 0) by (nonlinear_arith);
    }
}

proof fn lemma_lone_pairs(xs: Seq<Fixed>, v: Seq<Fixed>, k: int, m: int)
    requires
        0 <= k < v.len(),
        v[k]@ >= 0,
        forall|i: int| 0 <= i < v.len() && i != k ==> (#[trigger] v[i])@ == 0,
        0 <= m <= v.len(),
        xs == v.take(m),
    ensures
        distances_between(xs, v) == (if k < m {
            (m - 1) * v[k]@ + (v.len() - 1) * v[k]@
        } else {
            m * v[k]@
        }),
    decreases m,
{
    let big = v[k]@;
    if m > 0 {
        assert(xs.drop_last() =~= v.take(m - 1));
        lemma_lone_pairs(xs.drop_last(), v, k, m - 1);
        lemma_lone_row(v[m - 1]@, v, k);
        assert((m - 1) * big + big == m * big) by (nonlinear_arith);
        if k < m - 1 {
            assert((m - 2) * big + big == (m - 1) * big) by (nonlinear_arith);
        }
        if k == m - 1 && big == 0 {
            assert((v.len() - 1) * big == 0 && (m - 1) * big == 0) by (nonlinear_arith)
                requires
                    big == 0,
            ;
        }
    } else {
        assert(0 * big == 0) by (nonlinear_arith);
    }
}

/// Where one has everything, the Gini coefficient is one less the part of one, without its
/// fraction of a unit.
pub proof fn law_gini_of_one_owner(v: Seq<Fixed>, k: int)
    requires
        all_in_limits(v),
        0 <= k < v.len() <= u64::MAX,
        2 * v.len() * v[k]@ <= LIMIT,
        v[k]@ > 0,
        forall|i: int| 0 <= i < v.len() && i != k ==> (#[trigger] v[i])@ == 0,
    ensures
        gini_of(v)@ == ((v.len() - 1) * ONE) / (v.len() as int),
{
    let n = v.len() as int;
    let one = ONE as int;
    let big = v[k]@;
    lemma_lone_row(0, v, k);
    assert(v.take(n) =~= v);
    lemma_lone_pairs(v, v, k, n);
    law_gini_in_units(v);
    let d = distances_between(v, v);
    let base = 2 * n * big;
    assert(base > 0) by (nonlinear_arith)
        requires
            base == 2 * n * big,
            n > 0,
            big > 0,
    ;
    assert((d * one) * n == ((n - 1) * one) * base) by (nonlinear_arith)
        requires
            d == (n - 1) * big + (n - 1) * big,
            base == 2 * n * big,
    ;
    lemma_same_fraction(d * one, base, (n - 1) * one, n);
}

} // verus!
