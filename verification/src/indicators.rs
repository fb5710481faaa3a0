//! What the indicators measure, over decimal numbers and in units.

use vstd::prelude::*;

use crate::correlation::{
    covariation, is_moderate, law_rescaling_keeps_correlations, lemma_correlation_in_units,
    lemma_moderate_mean, lemma_rounded_co_moment, rescaled, units_of, variation, MODERATE,
};
use crate::exact::sum_units;
use crate::fixed::{
    abs, law_same_units_same_number, law_units_are_kept, lemma_floor_root_exists,
    lemma_literal_units, lemma_parts, ten_to, Fixed, LIMIT, ONE,
};
use crate::laws::{
    all_negated, all_numbers, law_correlations_flip_with_a_sample,
    law_samples_correlate_with_themselves,
};
use crate::metrics::{
    gdp_of, gini_of, growth_points, inflation_of, is_negative, mean_of, okun_of, pearson_of,
    phillips_of, settled_rows, unemployment_of, MacroMetrics,
};
use crate::moments::moment;
use crate::number::{negated, one, zero, Number};

verus! {

broadcast use law_units_are_kept;

/// A product falls short of the exact one by less than a unit, in magnitude.
pub proof fn law_products_fall_short(a: Fixed, b: Fixed)
    requires
        abs(a@ * b@) <= LIMIT * ONE,
    ensures
        abs(a@ * b@ - ONE * a.mul(b)@) < ONE,
        abs(ONE * a.mul(b)@) <= abs(a@ * b@),
        a@ * b@ >= 0 ==> a.mul(b)@ >= 0,
        a@ * b@ <= 0 ==> a.mul(b)@ <= 0,
{
    let x = a@ * b@;
    lemma_parts(abs(x), ONE as int);
    let q = abs(x) / (ONE as int);
    assert(0 <= q <= LIMIT);
}

/// A quotient falls short of the exact one by less than a unit, in magnitude.
pub proof fn law_quotients_fall_short(a: Fixed, b: Fixed)
    requires
        b@ > 0,
        abs(a@) * ONE <= LIMIT * b@,
    ensures
        abs(a@ * ONE - b@ * a.div(b)@) < b@,
        abs(b@ * a.div(b)@) <= abs(a@) * ONE,
        a@ >= 0 ==> a.div(b)@ >= 0,
        a@ <= 0 ==> a.div(b)@ <= 0,
{
    let (x, d) = (a@ * ONE, b@);
    assert(abs(x) == abs(a@) * ONE);
    lemma_parts(abs(x), d);
    let q = abs(x) / d;
    assert(0 <= q <= LIMIT) by (nonlinear_arith)
        requires
            q * d <= abs(x),
            abs(x) <= LIMIT * d,
            abs(x) < (q + 1) * d || abs(x) - q * d < d,
            abs(x) >= 0,
            d > 0,
    ;
    assert(d * q == q * d && d * (-q) == -(q * d)) by (nonlinear_arith);
}

/// Inflation is what the last annual price exceeds the one before by, in parts of the one before.
pub proof fn law_inflation_is_relative(history: Seq<Fixed>)
    requires
        history.len() >= 2,
        0 < history[history.len() - 2]@,
        abs(history[history.len() - 1]@ - history[history.len() - 2]@) <= LIMIT,
        abs(history[history.len() - 1]@ - history[history.len() - 2]@) * ONE <= LIMIT * history[
        history.len() - 2]@,
    ensures
        ({
            let before = history[history.len() - 2]@;
            let last = history[history.len() - 1]@;
            let r = inflation_of(history)@;
            &&& abs(r * before - (last - before) * ONE) < before
            &&& last == before ==> r == 0
            &&& last >= before ==> r >= 0
            &&& last <= before ==> r <= 0
        }),
{
    lemma_literal_units();
    reveal_with_fuel(ten_to, 14);
    let n = history.len();
    let (p, c) = (history[n - 2], history[n - 1]);
    assert(Fixed::lit(1, 12)@ == 1);
    assert(c.sub(p)@ == c@ - p@);
    law_quotients_fall_short(c.sub(p), p);
    let r = inflation_of(history)@;
    assert(r * p@ == p@ * r) by (nonlinear_arith);
}

/// Before there are two annual prices, there is no inflation.
pub proof fn law_no_inflation_at_first(history: Seq<Fixed>)
    requires
        history.len() < 2,
    ensures
        inflation_of(history)@ == 0,
{
    lemma_literal_units();
}

/// Unemployment is the part of those without work, rounded up to a unit.
pub proof fn law_unemployment_counts_the_idle(n_employed: nat, n_total: nat)
    requires
        n_employed <= n_total,
        0 < n_total <= u64::MAX,
    ensures
        0 <= unemployment_of::<Fixed>(n_employed, n_total)@ * n_total - (n_total - n_employed) * ONE
            < n_total,
{
    lemma_literal_units();
    let (e, n) = (Fixed::count_of(n_employed), Fixed::count_of(n_total));
    assert(e@ == n_employed * ONE && n@ == n_total * ONE);
    let (k, m, one) = (n_employed as int, n_total as int, ONE as int);
    assert(abs(e@) * one <= LIMIT * n@) by (nonlinear_arith)
        requires
            0 <= e@ <= n@,
            one <= LIMIT,
    ;
    law_quotients_fall_short(e, n);
    let q = e.div(n)@;
    assert((k * one) * one == one * (k * one) && (m * one) * q == one * (m * q)) by (nonlinear_arith);
    let (ko, mq) = (k * one, m * q);
    assert(0 <= ko - mq < m) by (nonlinear_arith)
        requires
            one > 0,
            0 <= one * ko - one * mq,
            one * ko - one * mq < m * one,
    ;
    assert(ko <= m * one) by (nonlinear_arith)
        requires
            ko == k * one,
            k <= m,
            one > 0,
    ;
    assert(q <= one) by (nonlinear_arith)
        requires
            m * q <= m * one,
            m > 0,
    ;
    assert((one - q) * m == one * m - mq) by (nonlinear_arith)
        requires
            mq == m * q,
    ;
    assert((m - k) * one == one * m - ko) by (nonlinear_arith)
        requires
            ko == k * one,
    ;
}

/// Output is the number of those who work times the hours of each times productivity times the
/// price, up to a unit and a unit's price.
pub proof fn law_output_is_valued_work(n_employed: nat, hours: Fixed, productivity: Fixed, price: Fixed)
    requires
        0 <= hours@,
        0 <= productivity@,
        0 <= price@,
        n_employed * ONE <= LIMIT,
        n_employed * hours@ <= LIMIT,
        (n_employed * hours@) * productivity@ <= LIMIT * ONE,
        ((n_employed * hours@) * productivity@) * price@ <= LIMIT * ONE,
    ensures
        ({
            let exact = ((n_employed * hours@) * productivity@) * price@;
            let r = gdp_of(n_employed, hours, productivity, price)@;
            &&& (r * ONE) * ONE <= exact
            &&& exact < (r * ONE) * ONE + (ONE + price@) * ONE
        }),
{
    let one = ONE as int;
    let (n, h, p, c) = (n_employed as int, hours@, productivity@, price@);
    let count = Fixed::count_of(n_employed);
    assert(count@ == n * one);
    let nh = n * h;
    assert(nh >= 0) by (nonlinear_arith)
        requires
            nh == n * h,
            n >= 0,
            h >= 0,
    ;
    let a = count.mul(hours);
    assert(a@ == nh) by {
        assert((n * one) * h == nh * one) by (nonlinear_arith)
            requires
                nh == n * h,
        ;
        crate::fixed::lemma_quot_exact(nh, one);
    }
    let x = nh * p;
    assert(x >= 0) by (nonlinear_arith)
        requires
            x == nh * p,
            nh >= 0,
            p >= 0,
    ;
    law_products_fall_short(a, productivity);
    let b = a.mul(productivity);
    let bc = b@ * c;
    let xc = x * c;
    assert(0 <= one * bc && one * bc <= xc && xc <= one * bc + one * c) by (nonlinear_arith)
        requires
            0 <= b@,
            0 <= x - one * b@,
            x - one * b@ < one,
            bc == b@ * c,
            xc == x * c,
            c >= 0,
            one > 0,
    ;
    assert(bc <= LIMIT * one) by (nonlinear_arith)
        requires
            one * bc <= xc,
            xc <= LIMIT * one,
            bc >= 0,
            one >= 1,
    ;
    law_products_fall_short(b, price);
    let r = b.mul(price)@;
    assert((r * one) * one == one * (one * r)) by (nonlinear_arith);
    let or = one * r;
    assert(one * or <= one * bc && one * bc < one * or + one * one) by (nonlinear_arith)
        requires
            or <= bc,
            bc < or + one,
            one > 0,
    ;
    assert((one + c) * one == one * one + one * c) by (nonlinear_arith);
}

/// A mean times the number of values is their sum, up to a unit for each; it lies between the
/// smallest and the largest.
pub proof fn law_means_divide_the_sum(s: Seq<Fixed>, lo: int, hi: int)
    requires
        is_moderate(s),
        s.len() > 0,
        forall|i: int| 0 <= i < s.len() ==> lo <= (#[trigger] s[i])@ <= hi,
    ensures
        abs(sum_units(s) - s.len() * mean_of(s)@) < s.len(),
        lo <= mean_of(s)@ <= hi,
{
    lemma_moderate_mean(s);
    lemma_sum_between(s, lo, hi);
    let (n, m, t) = (s.len() as int, mean_of(s)@, sum_units(s));
    assert(lo <= m <= hi) by (nonlinear_arith)
        requires
            abs(t - n * m) < n,
            n * lo <= t <= n * hi,
            n > 0,
    ;
}

/// What lies between two bounds adds up to between as many times each.
pub proof fn lemma_sum_between(s: Seq<Fixed>, lo: int, hi: int)
    requires
        forall|i: int| 0 <= i < s.len() ==> lo <= (#[trigger] s[i])@ <= hi,
    ensures
        s.len() * lo <= sum_units(s) <= s.len() * hi,
    decreases s.len(),
{
    if s.len() > 0 {
        assert(lo <= s[s.len() - 1]@ <= hi);
        lemma_sum_between(s.drop_last(), lo, hi);
        let n = s.len() as int;
        assert((n - 1) * lo + lo == n * lo && (n - 1) * hi + hi == n * hi) by (nonlinear_arith);
    } else {
        assert(0 * lo == 0 && 0 * hi == 0) by (nonlinear_arith);
    }
}

/// Inequality is not defined, and taken as none, where a value is negative.
pub proof fn law_no_gini_with_debts(v: Seq<Fixed>, i: int)
    requires
        0 <= i < v.len(),
        -LIMIT <= v[i]@ < 0,
    ensures
        gini_of(v)@ == 0,
{
    lemma_literal_units();
    assert(is_negative(v[i]));
}

/// A correlation is the covariance of two samples over the root of the product of their variances.
/// Each of the three is the exact one, which a moment is so many times, up to a unit for each value
/// and another; the root and the quotient are without their fractions.
pub proof fn law_correlations_are_relative_covariances(x: Seq<Fixed>, y: Seq<Fixed>) -> (r: (
    int,
    int,
    int,
    int,
))
    requires
        is_moderate(x),
        is_moderate(y),
        x.len() == y.len(),
        x.len() >= 2,
        variation(x)@ > 0,
        variation(y)@ > 0,
    ensures
        ({
            let (c, v, u, g) = r;
            let n = x.len() as int;
            let off = n * (n * ONE) + n * n;
            &&& abs(n * (ONE * c) - moment(units_of(x), units_of(y))) <= off
            &&& abs(n * (ONE * v) - moment(units_of(x), units_of(x))) <= off
            &&& abs(n * (ONE * u) - moment(units_of(y), units_of(y))) <= off
            &&& v > 0
            &&& u > 0
            &&& g > 0
            &&& g * g <= v * u < (g + 1) * (g + 1)
            &&& pearson_of(x, y) is Some
            &&& -ONE <= pearson_of(x, y)->0@ <= ONE
            &&& abs(c * ONE) < ONE * g ==> abs(c * ONE - g * pearson_of(x, y)->0@) < g
            &&& c >= g ==> pearson_of(x, y)->0@ == ONE
            &&& c <= -g ==> pearson_of(x, y)->0@ == -ONE
        }),
{
    lemma_rounded_co_moment(x, y);
    lemma_rounded_co_moment(x, x);
    lemma_rounded_co_moment(y, y);
    let (c, v, u) = (covariation(x, y)@, variation(x)@, variation(y)@);
    assert(v * u >= 1) by (nonlinear_arith)
        requires
            v >= 1,
            u >= 1,
    ;
    let g = lemma_floor_root_exists((v * u) as nat);
    if g == 0 {
        assert((g + 1) * (g + 1) == 1) by (nonlinear_arith)
            requires
                g == 0,
        ;
    }
    lemma_correlation_in_units(x, y, g);
    let one = ONE as int;
    let a = c * one;
    lemma_parts(abs(a), g);
    let q = abs(a) / g;
    assert(g * q == q * g && g * (-q) == -(q * g)) by (nonlinear_arith);
    assert(abs(a) < one * g ==> q < one) by (nonlinear_arith)
        requires
            q * g <= abs(a),
            g > 0,
    ;
    assert((c >= g || c <= -g) ==> q >= one) by (nonlinear_arith)
        requires
            a == c * one,
            abs(a) - q * g < g,
            g > 0,
            one > 0,
    ;
    (c, v, u, g)
}

/// The Phillips curve is the correlation of unemployment with inflation, month by month, over the
/// months from the third year on.
pub proof fn law_phillips_pairs_unemployment_with_inflation<R: Number>(
    early: Seq<MacroMetrics<R>>,
    late: Seq<MacroMetrics<R>>,
    u: Seq<R>,
    pi: Seq<R>,
)
    requires
        forall|i: int| 0 <= i < early.len() ==> (#[trigger] early[i]).month < 36,
        forall|i: int| 0 <= i < late.len() ==> (#[trigger] late[i]).month >= 36,
        late.len() >= 2,
        u.len() == late.len(),
        pi.len() == late.len(),
        forall|i: int| 0 <= i < late.len() ==> (#[trigger] late[i]).unemployment_rate == u[i],
        forall|i: int| 0 <= i < late.len() ==> (#[trigger] late[i]).inflation_rate == pi[i],
    ensures
        phillips_of(early + late) == pearson_of(u, pi),
{
    lemma_settled(early, late);
    assert(crate::metrics::unemployment_series(late) =~= u);
    assert(crate::metrics::inflation_series(late) =~= pi);
}

/// Where fewer than two months are from the third year on, the Phillips curve is taken over all.
pub proof fn law_phillips_of_short_runs<R: Number>(
    early: Seq<MacroMetrics<R>>,
    late: Seq<MacroMetrics<R>>,
    u: Seq<R>,
    pi: Seq<R>,
)
    requires
        forall|i: int| 0 <= i < early.len() ==> (#[trigger] early[i]).month < 36,
        forall|i: int| 0 <= i < late.len() ==> (#[trigger] late[i]).month >= 36,
        late.len() < 2,
        u.len() == early.len() + late.len(),
        pi.len() == u.len(),
        forall|i: int|
            0 <= i < u.len() ==> (#[trigger] (early + late)[i]).unemployment_rate == u[i],
        forall|i: int| 0 <= i < u.len() ==> (#[trigger] (early + late)[i]).inflation_rate == pi[i],
    ensures
        phillips_of(early + late) == pearson_of(u, pi),
{
    lemma_settled(early, late);
    assert(crate::metrics::unemployment_series(early + late) =~= u);
    assert(crate::metrics::inflation_series(early + late) =~= pi);
}

proof fn lemma_none_settled<R>(early: Seq<MacroMetrics<R>>)
    requires
        forall|i: int| 0 <= i < early.len() ==> (#[trigger] early[i]).month < 36,
    ensures
        settled_rows(early) == Seq::<MacroMetrics<R>>::empty(),
    decreases early.len(),
{
    reveal(Seq::filter);
    if early.len() > 0 {
        let rest = early.drop_last();
        assert(early[early.len() - 1].month < 36);
        assert forall|i: int| 0 <= i < rest.len() implies (#[trigger] rest[i]).month < 36 by {
            assert(rest[i] == early[i]);
        }
        lemma_none_settled(rest);
    }
}

/// The settled months of a run are those from the third year on.
pub proof fn lemma_settled<R>(early: Seq<MacroMetrics<R>>, late: Seq<MacroMetrics<R>>)
    requires
        forall|i: int| 0 <= i < early.len() ==> (#[trigger] early[i]).month < 36,
        forall|i: int| 0 <= i < late.len() ==> (#[trigger] late[i]).month >= 36,
    ensures
        settled_rows(early + late) == late,
{
    assert(early + late.take(0) =~= early);
    lemma_none_settled(early);
    assert(late.take(0) =~= Seq::empty());
    lemma_settled_up_to(early, late, late.len());
    assert(late.take(late.len() as int) =~= late);
}

proof fn lemma_settled_up_to<R>(early: Seq<MacroMetrics<R>>, late: Seq<MacroMetrics<R>>, k: nat)
    requires
        settled_rows(early + late.take(0)) == late.take(0),
        forall|i: int| 0 <= i < late.len() ==> (#[trigger] late[i]).month >= 36,
        k <= late.len(),
    ensures
        settled_rows(early + late.take(k as int)) == late.take(k as int),
    decreases k,
{
    if k > 0 {
        lemma_settled_up_to(early, late, (k - 1) as nat);
        let all = early + late.take(k as int);
        let rest = early + late.take(k - 1);
        let last = late[k - 1];
        assert(all.drop_last() =~= rest);
        assert(all.last() == last);
        lemma_settled_last(all);
        assert(late.take(k - 1).push(last) =~= late.take(k as int));
    }
}

proof fn lemma_settled_last<R>(rows: Seq<MacroMetrics<R>>)
    requires
        rows.len() > 0,
    ensures
        rows.last().month >= 36 ==> settled_rows(rows) == settled_rows(rows.drop_last()).push(
            rows.last(),
        ),
{
    reveal(Seq::filter);
}

/// Whether a month has output to grow from.
pub open spec fn has_output<R: Number>(m: MacroMetrics<R>) -> bool {
    !m.nominal_gdp.magnitude().below(R::lit(1, 12))
}

/// Where every month has output, the pairs that Okun's law is about are, month by month, what
/// unemployment changes by and what output grows by in parts of the output of the month before.
pub proof fn law_okun_pairs_changes_with_growth<R: Number>(rows: Seq<MacroMetrics<R>>)
    requires
        forall|i: int| 0 <= i < rows.len() ==> has_output(#[trigger] rows[i]),
        rows.len() >= 1,
    ensures
        growth_points(rows).len() == rows.len() - 1,
        forall|k: int|
            0 <= k < rows.len() - 1 ==> (#[trigger] growth_points(rows)[k]).0 == rows[k
                + 1].unemployment_rate.sub(rows[k].unemployment_rate),
        forall|k: int|
            0 <= k < rows.len() - 1 ==> (#[trigger] growth_points(rows)[k]).1 == rows[k
                + 1].nominal_gdp.sub(rows[k].nominal_gdp).div(rows[k].nominal_gdp),
    decreases rows.len(),
{
    if rows.len() >= 2 {
        assert(has_output(rows[rows.len() - 2]));
        let rest = rows.drop_last();
        assert forall|i: int| 0 <= i < rest.len() implies has_output(#[trigger] rest[i]) by {
            assert(has_output(rows[i]));
        }
        law_okun_pairs_changes_with_growth(rest);
        assert forall|k: int| 0 <= k < rows.len() - 1 implies (#[trigger] growth_points(rows)[k]).0
            == rows[k + 1].unemployment_rate.sub(rows[k].unemployment_rate)
            && growth_points(rows)[k].1 == rows[k + 1].nominal_gdp.sub(rows[k].nominal_gdp).div(
            rows[k].nominal_gdp,
        ) by {
            if k < rest.len() - 1 {
                assert(growth_points(rows)[k] == growth_points(rest)[k]);
                assert(rest[k] == rows[k] && rest[k + 1] == rows[k + 1]);
            }
        }
    }
}

/// A month after one without output adds no pair, and any other adds one.
pub proof fn law_okun_skips_months_without_output<R: Number>(
    rows: Seq<MacroMetrics<R>>,
    next: MacroMetrics<R>,
)
    requires
        rows.len() >= 1,
    ensures
        !has_output(rows.last()) ==> growth_points(rows.push(next)) == growth_points(rows),
        has_output(rows.last()) ==> growth_points(rows.push(next)).len() == growth_points(rows).len()
            + 1,
        forall|k: int|
            0 <= k < growth_points(rows).len() ==> #[trigger] growth_points(rows.push(next))[k]
                == growth_points(rows)[k],
{
    assert(rows.push(next).drop_last() =~= rows);
}

/// The pairs of Okun's law in units.
pub proof fn law_okun_pairs_in_units(rows: Seq<MacroMetrics<Fixed>>, k: int)
    requires
        0 <= k < rows.len() - 1,
        forall|i: int| 0 <= i < rows.len() ==> 0 < (#[trigger] rows[i]).nominal_gdp@ <= LIMIT,
        forall|i: int|
            0 <= i < rows.len() ==> abs((#[trigger] rows[i]).unemployment_rate@) <= MODERATE,
        rows[k + 1].nominal_gdp@ * ONE <= LIMIT * rows[k].nominal_gdp@,
    ensures
        growth_points(rows).len() == rows.len() - 1,
        growth_points(rows)[k].0@ == rows[k + 1].unemployment_rate@ - rows[k].unemployment_rate@,
        abs(
            growth_points(rows)[k].1@ * rows[k].nominal_gdp@ - (rows[k + 1].nominal_gdp@
                - rows[k].nominal_gdp@) * ONE,
        ) < rows[k].nominal_gdp@,
{
    lemma_literal_units();
    reveal_with_fuel(ten_to, 14);
    assert(Fixed::lit(1, 12)@ == 1);
    assert forall|i: int| 0 <= i < rows.len() implies has_output(#[trigger] rows[i]) by {
        assert(0 < rows[i].nominal_gdp@ <= LIMIT);
    }
    law_okun_pairs_changes_with_growth(rows);
    let p = growth_points(rows)[k];
    assert(abs(rows[k].unemployment_rate@) <= MODERATE);
    assert(abs(rows[k + 1].unemployment_rate@) <= MODERATE);
    let (a, b) = (rows[k].nominal_gdp, rows[k + 1].nominal_gdp);
    assert(0 < a@ && 0 < b@);
    assert(b.sub(a)@ == b@ - a@);
    assert(abs(b@ - a@) * ONE <= LIMIT * a@) by (nonlinear_arith)
        requires
            b@ * ONE <= LIMIT * a@,
            0 < a@,
            0 < b@,
            ONE <= LIMIT,
    ;
    law_quotients_fall_short(b.sub(a), a);
    let r = p.1@;
    assert(r * a@ == a@ * r) by (nonlinear_arith);
}

/// Raising unemployment by the same in every month keeps the correlation of Okun's law.
pub proof fn law_okun_ignores_the_level_of_unemployment(
    rows: Seq<MacroMetrics<Fixed>>,
    raised: Seq<MacroMetrics<Fixed>>,
    gain: int,
)
    requires
        rows.len() == raised.len(),
        forall|i: int| 0 <= i < rows.len() ==> has_output(#[trigger] rows[i]),
        forall|i: int|
            0 <= i < rows.len() ==> (#[trigger] rows[i]).nominal_gdp == raised[i].nominal_gdp,
        forall|i: int|
            0 <= i < rows.len() ==> raised[i].unemployment_rate@ == (
            #[trigger] rows[i]).unemployment_rate@ + gain,
    ensures
        okun_of(rows) == okun_of(raised),
{
    if rows.len() >= 3 {
        assert forall|i: int| 0 <= i < raised.len() implies has_output(#[trigger] raised[i]) by {
            assert(has_output(rows[i]));
        }
        law_okun_pairs_changes_with_growth(rows);
        law_okun_pairs_changes_with_growth(raised);
        let (p, q) = (growth_points(rows), growth_points(raised));
        assert forall|k: int| 0 <= k < p.len() implies #[trigger] p[k] == q[k] by {
            let (a, b) = (rows[k], rows[k + 1]);
            assert(raised[k].unemployment_rate@ == a.unemployment_rate@ + gain);
            assert(raised[k + 1].unemployment_rate@ == b.unemployment_rate@ + gain);
            law_same_units_same_number(p[k].0, q[k].0);
        }
        assert(p =~= q);
    }
}

/// Where output grows by the opposite of what unemployment changes by, Okun's law holds fully.
pub proof fn law_okun_of_opposite_changes<R: crate::number::Ordered>(rows: Seq<MacroMetrics<R>>, u: Seq<R>)
    requires
        rows.len() >= 3,
        forall|i: int| 0 <= i < rows.len() ==> has_output(#[trigger] rows[i]),
        u.len() == rows.len() - 1,
        all_numbers(u),
        forall|k: int|
            0 <= k < u.len() ==> #[trigger] u[k] == rows[k + 1].unemployment_rate.sub(
                rows[k].unemployment_rate,
            ),
        forall|k: int|
            0 <= k < u.len() ==> negated(#[trigger] u[k]) == rows[k + 1].nominal_gdp.sub(
                rows[k].nominal_gdp,
            ).div(rows[k].nominal_gdp),
        pearson_of(u, u) is Some,
    ensures
        okun_of(rows) == Some(R::lit(-1, 0)),
{
    law_okun_pairs_changes_with_growth(rows);
    let p = growth_points(rows);
    assert forall|k: int| 0 <= k < u.len() implies (#[trigger] p[k]).0 == u[k] && p[k].1 == negated(
        u[k],
    ) by {
        assert(negated(u[k]) == rows[k + 1].nominal_gdp.sub(rows[k].nominal_gdp).div(
            rows[k].nominal_gdp,
        ));
    }
    assert(p.map_values(|q: (R, R)| q.0) =~= u);
    assert(p.map_values(|q: (R, R)| q.1) =~= all_negated(u));
    law_samples_correlate_with_themselves(u);
    law_correlations_flip_with_a_sample(u, u);
    crate::laws::lemma_order::<R>();
    assert(all_numbers(all_negated(u))) by {
        assert forall|i: int| 0 <= i < u.len() implies crate::number::is_number(
            #[trigger] all_negated(u)[i],
        ) by {
            assert(crate::number::is_number(u[i]));
            R::differences(u[i], u[i], zero());
        }
    }
    crate::laws::law_correlations_are_bounded(all_negated(u), u);
    R::signs(one(), one());
}

/// Where output grows by a fixed multiple, one or more, of the opposite of what unemployment changes
/// by, Okun's law holds up to rounding.
pub proof fn law_okun_of_proportional_changes(
    rows: Seq<MacroMetrics<Fixed>>,
    u: Seq<Fixed>,
    factor: Fixed,
)
    requires
        rows.len() >= 3,
        forall|i: int| 0 <= i < rows.len() ==> has_output(#[trigger] rows[i]),
        u.len() == rows.len() - 1,
        forall|k: int|
            0 <= k < u.len() ==> #[trigger] u[k] == rows[k + 1].unemployment_rate.sub(
                rows[k].unemployment_rate,
            ),
        forall|k: int|
            0 <= k < u.len() ==> negated(factor.mul(#[trigger] u[k])) == rows[k + 1].nominal_gdp.sub(
                rows[k].nominal_gdp,
            ).div(rows[k].nominal_gdp),
        is_moderate(u),
        is_moderate(rescaled(u, factor, zero())),
        ONE <= factor@ <= MODERATE,
        u.len() * ONE <= 1_000_000 * variation(u)@,
    ensures
        okun_of(rows) is Some,
        abs(okun_of(rows)->0@ + ONE) < 10_000_000,
{
    lemma_literal_units();
    law_okun_pairs_changes_with_growth(rows);
    let p = growth_points(rows);
    let w = rescaled(u, factor, zero());
    assert forall|k: int| 0 <= k < u.len() implies (#[trigger] p[k]).0 == u[k] && p[k].1 == negated(
        w[k],
    ) by {
        let x = factor.mul(u[k]);
        assert(negated(x) == rows[k + 1].nominal_gdp.sub(rows[k].nominal_gdp).div(
            rows[k].nominal_gdp,
        ));
        assert(abs(x@) <= LIMIT);
        law_same_units_same_number(w[k], x);
    }
    assert(p.map_values(|q: (Fixed, Fixed)| q.0) =~= u);
    assert(p.map_values(|q: (Fixed, Fixed)| q.1) =~= all_negated(w));
    lemma_moderate_numbers(u);
    lemma_moderate_numbers(w);
    law_rescaling_keeps_correlations(u, u, factor, zero(), variation(u)@);
    law_samples_correlate_with_themselves(u);
    law_correlations_flip_with_a_sample(w, u);
    assert(all_numbers(all_negated(w))) by {
        assert forall|i: int| 0 <= i < w.len() implies crate::number::is_number(
            #[trigger] all_negated(w)[i],
        ) by {
            assert(crate::number::is_number(w[i]));
        }
    }
    crate::laws::law_correlations_are_bounded(all_negated(w), u);
    crate::laws::law_correlations_are_bounded(w, u);
}

/// Moderate values are numbers.
pub proof fn lemma_moderate_numbers(s: Seq<Fixed>)
    requires
        is_moderate(s),
    ensures
        all_numbers(s),
{
    assert forall|i: int| 0 <= i < s.len() implies crate::number::is_number(#[trigger] s[i]) by {
        assert(abs(s[i]@) <= MODERATE);
    }
}

/// There is no correlation of samples of different sizes or of fewer than two values, and no Okun
/// correlation of fewer than three months.
pub proof fn law_no_correlation_of_too_little<R: Number>(
    x: Seq<R>,
    y: Seq<R>,
    rows: Seq<MacroMetrics<R>>,
)
    ensures
        x.len() != y.len() ==> pearson_of(x, y) is None,
        x.len() < 2 ==> pearson_of(x, y) is None,
        rows.len() < 3 ==> okun_of(rows) is None,
{
}

/// Where the annual price before was nothing, there is no inflation to speak of; and nothing has a
/// mean of zero.
pub proof fn law_no_growth_from_nothing(history: Seq<Fixed>)
    requires
        history.len() >= 2,
        history[history.len() - 2]@ == 0,
    ensures
        inflation_of(history)@ == 0,
        mean_of(Seq::<Fixed>::empty())@ == 0,
{
    lemma_literal_units();
    reveal_with_fuel(ten_to, 14);
    assert(Fixed::lit(1, 12)@ == 1);
}

} // verus!
