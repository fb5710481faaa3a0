//! Macro indicators: output, inflation, unemployment, inequality and the two headline
//! correlations.

use vstd::prelude::*;

use crate::number::{clamp, clamped, sum, total, Number};

verus! {

broadcast use vstd::seq_lib::group_seq_properties;

/// The first month that counts as settled: the model has run for three years.
pub const SETTLED_MONTH: usize = 36;

/// The indicators of one month.
#[derive(Debug, Clone, Copy)]
pub struct MacroMetrics<R> {
    /// Month, counted from zero.
    pub month: usize,
    /// Year, counted from zero.
    pub year: usize,
    pub nominal_gdp: R,
    /// Price level at the end of the month.
    pub price: R,
    /// Interest rate that applied in the month.
    pub interest_rate: R,
    pub unemployment_rate: R,
    /// Annual inflation. It changes at the start of a year and is constant within one.
    pub inflation_rate: R,
    /// Gini coefficient of savings.
    pub gini_savings: R,
    pub avg_work_propensity: R,
    pub avg_consume_propensity: R,
    /// Redistribution per household in the month.
    pub redistribution: R,
}

/// Nominal output: what the employed produce, at the given price.
pub open spec fn gdp_of<R: Number>(n_employed: nat, hours_per_month: R, productivity: R, price: R) -> R {
    R::count_of(n_employed).mul(hours_per_month).mul(productivity).mul(price)
}

pub fn nominal_gdp<R: Number>(n_employed: usize, hours_per_month: R, productivity: R, price: R) -> (r: R)
    ensures
        r == gdp_of(n_employed as nat, hours_per_month, productivity, price),
{
    R::from_count(n_employed as u64).times(hours_per_month).times(productivity).times(price)
}

/// The share of households without work; zero where there are no households.
pub open spec fn unemployment_of<R: Number>(n_employed: nat, n_total: nat) -> R {
    if n_total == 0 {
        R::lit(0, 0)
    } else {
        R::lit(1, 0).sub(R::count_of(n_employed).div(R::count_of(n_total)))
    }
}

pub fn unemployment_rate<R: Number>(n_employed: usize, n_total: usize) -> (r: R)
    ensures
        r == unemployment_of::<R>(n_employed as nat, n_total as nat),
{
    if n_total == 0 {
        return R::decimal(0, 0);
    }
    R::decimal(1, 0).minus(R::from_count(n_employed as u64).over(R::from_count(n_total as u64)))
}

/// The relative change between the last two annual price levels; zero before there are two, and
/// where the earlier one is too close to zero to divide by.
pub open spec fn inflation_of<R: Number>(price_history: Seq<R>) -> R {
    let n = price_history.len();
    if n < 2 || price_history[n - 2].magnitude().below(R::lit(1, 12)) {
        R::lit(0, 0)
    } else {
        price_history[n - 1].sub(price_history[n - 2]).div(price_history[n - 2])
    }
}

pub fn inflation_rate<R: Number>(price_history: &[R]) -> (r: R)
    ensures
        r == inflation_of(price_history@),
{
    let n: usize = price_history.len();
    if n < 2 {
        return R::decimal(0, 0);
    }
    let prev = price_history[n - 2];
    let curr = price_history[n - 1];
    if prev.abs().lt(R::decimal(1, 12)) {
        return R::decimal(0, 0);
    }
    curr.minus(prev).over(prev)
}

/// `acc` with the distances of `x` to each term of `ys` added, in order.
pub open spec fn add_distances<R: Number>(acc: R, x: R, ys: Seq<R>) -> R
    decreases ys.len(),
{
    if ys.len() == 0 {
        acc
    } else {
        add_distances(acc, x, ys.drop_last()).add(x.sub(ys.last()).magnitude())
    }
}

/// The sum of the distances of each term of `xs` to each term of `ys`.
pub open spec fn all_distances<R: Number>(xs: Seq<R>, ys: Seq<R>) -> R
    decreases xs.len(),
{
    if xs.len() == 0 {
        R::lit(0, 0)
    } else {
        add_distances(all_distances(xs.drop_last(), ys), xs.last(), ys)
    }
}

/// Whether a value is below zero.
pub open spec fn is_negative<R: Number>(x: R) -> bool {
    x.below(R::lit(0, 0))
}

/// The Gini coefficient: the mean distance between two values over twice their mean, within zero
/// and one. It is zero where it is not defined: for no values, for a negative value and for a
/// vanishing sum.
pub open spec fn gini_of<R: Number>(values: Seq<R>) -> R {
    if values.len() == 0 || (exists|i: int| 0 <= i < values.len() && is_negative(#[trigger] values[i]))
        || total(values).magnitude().below(R::lit(1, 12)) {
        R::lit(0, 0)
    } else {
        clamped(
            all_distances(values, values).div(
                R::lit(2, 0).mul(R::count_of(values.len())).mul(total(values)),
            ),
            R::lit(0, 0),
            R::lit(1, 0),
        )
    }
}

pub fn gini<R: Number>(values: &[R]) -> (r: R)
    ensures
        r == gini_of(values@),
{
    let n: usize = values.len();
    let zero = R::decimal(0, 0);
    if n == 0 {
        return zero;
    }
    for i in 0..n
        invariant
            n == values.len(),
            zero == R::lit(0, 0),
            forall|k: int| 0 <= k < i ==> !is_negative(#[trigger] values@[k]),
    {
        if values[i].lt(zero) {
            assert(is_negative(values@[i as int]));
            return zero;
        }
    }
    let sum_of_values = sum(values);
    if sum_of_values.abs().lt(R::decimal(1, 12)) {
        return zero;
    }
    let mut sum_abs_diff: R = zero;
    for i in 0..n
        invariant
            n == values.len(),
            sum_abs_diff == all_distances(values@.take(i as int), values@),
    {
        let ghost before = sum_abs_diff;
        let x = values[i];
        for j in 0..n
            invariant
                n == values.len(),
                sum_abs_diff == add_distances(before, x, values@.take(j as int)),
        {
            assert(values@.take(j + 1).drop_last() =~= values@.take(j as int));
            sum_abs_diff = sum_abs_diff.plus(x.minus(values[j]).abs());
        }
        assert(values@.take(n as int) =~= values@);
        assert(values@.take(i + 1).drop_last() =~= values@.take(i as int));
    }
    assert(values@.take(n as int) =~= values@);
    let g = sum_abs_diff.over(
        R::decimal(2, 0).times(R::from_count(n as u64)).times(sum_of_values),
    );
    clamp(g, zero, R::decimal(1, 0))
}

/// The mean; zero for no values.
pub open spec fn mean_of<R: Number>(values: Seq<R>) -> R {
    if values.len() == 0 {
        R::lit(0, 0)
    } else {
        total(values).div(R::count_of(values.len()))
    }
}

pub fn mean<R: Number>(values: &[R]) -> (r: R)
    ensures
        r == mean_of(values@),
{
    if values.len() == 0 {
        return R::decimal(0, 0);
    }
    sum(values).over(R::from_count(values.len() as u64))
}

/// The sum of the products of the deviations of `x` from `mx` and of `y` from `my`.
pub open spec fn co_moment<R: Number>(x: Seq<R>, mx: R, y: Seq<R>, my: R) -> R {
    total(Seq::new(x.len(), |i: int| x[i].sub(mx).mul(y[i].sub(my))))
}

/// A covariance over the root of the product of two variances, within minus one and one.
pub open spec fn correlation_of<R: Number>(cov: R, vx: R, vy: R) -> R {
    clamped(cov.div(vx.geometric(vy)), R::lit(-1, 0), R::lit(1, 0))
}

/// Pearson's correlation coefficient, where it is defined: for two samples of one length, at
/// least two, of which neither is constant.
pub open spec fn pearson_of<R: Number>(x: Seq<R>, y: Seq<R>) -> Option<R> {
    let mx = mean_of(x);
    let my = mean_of(y);
    let vx = co_moment(x, mx, x, mx);
    let vy = co_moment(y, my, y, my);
    if x.len() != y.len() || x.len() < 2 || vx.below(R::lit(1, 12)) || vy.below(R::lit(1, 12)) {
        None
    } else {
        Some(correlation_of(co_moment(x, mx, y, my), vx, vy))
    }
}

pub fn pearson<R: Number>(x: &[R], y: &[R]) -> (r: Option<R>)
    ensures
        r == pearson_of(x@, y@),
{
    if x.len() != y.len() || x.len() < 2 {
        return None;
    }
    let n: usize = x.len();
    let mx = mean(x);
    let my = mean(y);
    let mut cov: R = R::decimal(0, 0);
    let mut vx: R = R::decimal(0, 0);
    let mut vy: R = R::decimal(0, 0);
    let ghost xy = Seq::new(x@.len(), |i: int| x@[i].sub(mx).mul(y@[i].sub(my)));
    let ghost xx = Seq::new(x@.len(), |i: int| x@[i].sub(mx).mul(x@[i].sub(mx)));
    let ghost yy = Seq::new(y@.len(), |i: int| y@[i].sub(my).mul(y@[i].sub(my)));
    for i in 0..n
        invariant
            n == x.len(),
            n == y.len(),
            xy == Seq::new(x@.len(), |i: int| x@[i].sub(mx).mul(y@[i].sub(my))),
            xx == Seq::new(x@.len(), |i: int| x@[i].sub(mx).mul(x@[i].sub(mx))),
            yy == Seq::new(y@.len(), |i: int| y@[i].sub(my).mul(y@[i].sub(my))),
            cov == total(xy.take(i as int)),
            vx == total(xx.take(i as int)),
            vy == total(yy.take(i as int)),
    {
        let dx = x[i].minus(mx);
        let dy = y[i].minus(my);
        assert(xy.take(i + 1).drop_last() =~= xy.take(i as int));
        assert(xx.take(i + 1).drop_last() =~= xx.take(i as int));
        assert(yy.take(i + 1).drop_last() =~= yy.take(i as int));
        cov = cov.plus(dx.times(dy));
        vx = vx.plus(dx.times(dx));
        vy = vy.plus(dy.times(dy));
    }
    assert(xy.take(n as int) =~= xy);
    assert(xx.take(n as int) =~= xx);
    assert(yy.take(n as int) =~= yy);
    if vx.lt(R::decimal(1, 12)) || vy.lt(R::decimal(1, 12)) {
        return None;
    }
    Some(clamp(cov.over(vx.geometric_mean(vy)), R::decimal(-1, 0), R::decimal(1, 0)))
}

/// The rows of the settled months.
pub open spec fn settled_rows<R>(metrics: Seq<MacroMetrics<R>>) -> Seq<MacroMetrics<R>> {
    metrics.filter(|m: MacroMetrics<R>| m.month >= SETTLED_MONTH)
}

pub fn settled<R: Number>(metrics: &[MacroMetrics<R>]) -> (r: Vec<MacroMetrics<R>>)
    ensures
        r@ == settled_rows(metrics@),
{
    let mut out: Vec<MacroMetrics<R>> = Vec::new();
    let ghost keep = |m: MacroMetrics<R>| m.month >= SETTLED_MONTH;
    for i in 0..metrics.len()
        invariant
            keep == (|m: MacroMetrics<R>| m.month >= SETTLED_MONTH),
            out@ == metrics@.take(i as int).filter(keep),
    {
        let m = metrics[i];
        proof {
            reveal(Seq::filter);
            assert(metrics@.take(i + 1).drop_last() =~= metrics@.take(i as int));
        }
        if m.month >= SETTLED_MONTH {
            out.push(m);
        }
    }
    assert(metrics@.take(metrics.len() as int) =~= metrics@);
    out
}

/// The correlation of the Phillips curve: unemployment against inflation, over the settled
/// months, or over all months where fewer than two are settled.
pub open spec fn phillips_of<R: Number>(metrics: Seq<MacroMetrics<R>>) -> Option<R> {
    let rows = if settled_rows(metrics).len() < 2 {
        metrics
    } else {
        settled_rows(metrics)
    };
    pearson_of(unemployment_series(rows), inflation_series(rows))
}

pub open spec fn unemployment_series<R>(rows: Seq<MacroMetrics<R>>) -> Seq<R> {
    rows.map_values(|m: MacroMetrics<R>| m.unemployment_rate)
}

pub open spec fn inflation_series<R>(rows: Seq<MacroMetrics<R>>) -> Seq<R> {
    rows.map_values(|m: MacroMetrics<R>| m.inflation_rate)
}

pub fn unemployment_rates<R: Number>(rows: &[MacroMetrics<R>]) -> (r: Vec<R>)
    ensures
        r@ == unemployment_series(rows@),
{
    let mut out: Vec<R> = Vec::new();
    for i in 0..rows.len()
        invariant
            out@ == unemployment_series(rows@).take(i as int),
    {
        out.push(rows[i].unemployment_rate);
        assert(out@ =~= unemployment_series(rows@).take(i + 1));
    }
    assert(out@ =~= unemployment_series(rows@));
    out
}

pub fn inflation_rates<R: Number>(rows: &[MacroMetrics<R>]) -> (r: Vec<R>)
    ensures
        r@ == inflation_series(rows@),
{
    let mut out: Vec<R> = Vec::new();
    for i in 0..rows.len()
        invariant
            out@ == inflation_series(rows@).take(i as int),
    {
        out.push(rows[i].inflation_rate);
        assert(out@ =~= inflation_series(rows@).take(i + 1));
    }
    assert(out@ =~= inflation_series(rows@));
    out
}

pub fn phillips_correlation<R: Number>(metrics: &[MacroMetrics<R>]) -> (r: Option<R>)
    ensures
        r == phillips_of(metrics@),
{
    let rows = settled(metrics);
    if rows.len() < 2 {
        pearson(&unemployment_rates(metrics), &inflation_rates(metrics))
    } else {
        pearson(&unemployment_rates(&rows), &inflation_rates(&rows))
    }
}

/// The month-to-month changes of unemployment, each with the growth of output; a month after one
/// without output has no growth rate and is left out.
pub open spec fn growth_points<R: Number>(metrics: Seq<MacroMetrics<R>>) -> Seq<(R, R)>
    decreases metrics.len(),
{
    if metrics.len() < 2 {
        Seq::empty()
    } else {
        let prev = metrics[metrics.len() - 2];
        let curr = metrics.last();
        let before = growth_points(metrics.drop_last());
        if prev.nominal_gdp.magnitude().below(R::lit(1, 12)) {
            before
        } else {
            before.push(
                (
                    curr.unemployment_rate.sub(prev.unemployment_rate),
                    curr.nominal_gdp.sub(prev.nominal_gdp).div(prev.nominal_gdp),
                ),
            )
        }
    }
}

/// The correlation of Okun's law: the change of unemployment against the growth of output, from
/// three months on.
pub open spec fn okun_of<R: Number>(metrics: Seq<MacroMetrics<R>>) -> Option<R> {
    let points = growth_points(metrics);
    if metrics.len() < 3 {
        None
    } else {
        pearson_of(
            points.map_values(|p: (R, R)| p.0),
            points.map_values(|p: (R, R)| p.1),
        )
    }
}

pub fn okun_correlation<R: Number>(metrics: &[MacroMetrics<R>]) -> (r: Option<R>)
    ensures
        r == okun_of(metrics@),
{
    if metrics.len() < 3 {
        return None;
    }
    let mut du: Vec<R> = Vec::new();
    let mut growth: Vec<R> = Vec::new();
    for i in 1..metrics.len()
        invariant
            du@ =~= growth_points(metrics@.take(i as int)).map_values(|p: (R, R)| p.0),
            growth@ =~= growth_points(metrics@.take(i as int)).map_values(|p: (R, R)| p.1),
    {
        assert(metrics@.take(i + 1).drop_last() =~= metrics@.take(i as int));
        let prev = metrics[i - 1];
        let curr = metrics[i];
        if !prev.nominal_gdp.abs().lt(R::decimal(1, 12)) {
            du.push(curr.unemployment_rate.minus(prev.unemployment_rate));
            growth.push(curr.nominal_gdp.minus(prev.nominal_gdp).over(prev.nominal_gdp));
        }
    }
    assert(metrics@.take(metrics.len() as int) =~= metrics@);
    pearson(&du, &growth)
}

} // verus!
