//! What holds of the model over numbers whose arithmetic goes with their order.

use vstd::prelude::*;

use crate::config::{scaled_rate, schedule_of, Config, PolicyRegime};
use crate::json::{json_members, JsonFieldView};
use crate::mechanisms::{
    decided, demand_of, employed_count, imbalance_of, interest_of, metrics_of, moved, policy_set,
    price_floor, price_moved, redistribution_of, reflected, remembered, settled_household,
    settled_world, spending_of, stocked, tax_below, tax_due, tax_of, usable_price, wage_moved,
};
use crate::metrics::{
    add_distances, all_distances, co_moment, correlation_of, gdp_of, gini_of, growth_points,
    inflation_of, inflation_series, is_negative, mean_of, okun_of, pearson_of, phillips_of,
    settled_rows, unemployment_of, unemployment_series, MacroMetrics,
};
use crate::mock::{mock_consume, mock_work};
use crate::number::{
    clamped, is_number, max_of, min_of, negated, number_in, one, total, zero, Number, Ordered,
};
use crate::prompts::{
    braced, consume_keys, decision_of, first_number, json_decision, numbers_from, without_points,
    work_keys,
};
use crate::run::{
    law_parameters_never_change, law_runs_start_in_order, law_runs_stay_in_order, lemma_places,
    lemma_with_household, started, EventView, SimulationView, StageView,
};
use crate::simulation::{initial_world, lemma_initial_households};
use crate::text::{in_number, lemma_run_end, run_end};
use crate::sweep::scales_between;
use crate::world::{
    is_ascending_of, lemma_ascending_len, snapped, HouseholdView, MacroEnvView, WorldView,
    HOURS_PER_MONTH,
};

verus! {

/// Whether a value lies between zero and one.
pub open spec fn is_share<R: Number>(x: R) -> bool {
    zero::<R>().at_most(x) && x.at_most(one())
}

/// Whether a value is zero or more.
pub open spec fn is_amount<R: Number>(x: R) -> bool {
    zero::<R>().at_most(x)
}

/// The numbers are totally ordered, for all at once.
pub proof fn lemma_order<R: Ordered>()
    ensures
        forall|a: R, b: R| #[trigger] a.at_most(b) ==> a.at_most(a) && b.at_most(b),
        forall|a: R, b: R|
            a.at_most(a) && b.at_most(b) ==> (#[trigger] a.below(b) <==> !b.at_most(a)),
        forall|a: R, b: R| #[trigger] a.below(b) ==> a.at_most(b),
        forall|a: R, b: R, c: R| #[trigger]
            a.at_most(b) && #[trigger] b.at_most(c) ==> a.at_most(c),
        zero::<R>().below(one()),
        is_number(zero::<R>()),
        is_number(one::<R>()),
{
    assert forall|a: R, b: R| #[trigger] a.at_most(b) implies a.at_most(a) && b.at_most(b) by {
        R::order(a, b, b);
    }
    assert forall|a: R, b: R| a.at_most(a) && b.at_most(b) implies (#[trigger] a.below(b)
        <==> !b.at_most(a)) by {
        R::order(a, b, b);
    }
    assert forall|a: R, b: R| #[trigger] a.below(b) implies a.at_most(b) by {
        R::order(a, b, b);
    }
    assert forall|a: R, b: R, c: R| #[trigger] a.at_most(b) && #[trigger] b.at_most(c) implies a.at_most(
        c,
    ) by {
        R::order(a, b, c);
    }
    R::literals(1, 0, 1);
    R::literals(0, 0, 0);
}

/// Unemployment is a share. It is zero where all work, and one where nobody does.
pub proof fn law_unemployment_is_a_share<R: Ordered>(n_employed: nat, n_total: nat)
    requires
        n_employed <= n_total,
    ensures
        is_share(unemployment_of::<R>(n_employed, n_total)),
        n_employed == n_total ==> unemployment_of::<R>(n_employed, n_total) == zero::<R>(),
        n_employed == 0 && n_total > 0 ==> unemployment_of::<R>(n_employed, n_total) == one::<R>(),
{
    lemma_order::<R>();
    if n_total > 0 {
        let e = R::count_of(n_employed);
        let n = R::count_of(n_total);
        R::counts(n_employed, n_total);
        R::counts(n_total, n_total);
        R::counts(0, n_employed);
        R::quotients(e, n, n);
        R::quotients(zero(), e, n);
        let q = e.div(n);
        R::differences(q, one(), one());
        R::differences(zero(), q, one());
    }
}

/// Nobody who works, nothing produced.
pub proof fn law_no_work_no_output<R: Ordered>(hours_per_month: R, productivity: R, price: R)
    requires
        is_number(hours_per_month),
        is_number(productivity),
        is_number(price),
    ensures
        gdp_of(0, hours_per_month, productivity, price) == zero::<R>(),
{
    lemma_order::<R>();
    R::counts(0, 0);
    R::products(hours_per_month, hours_per_month, zero());
    R::products(productivity, productivity, zero());
    R::products(price, price, zero());
}

proof fn lemma_product_is_an_amount<R: Ordered>(a: R, b: R)
    requires
        is_amount(a),
        is_amount(b),
    ensures
        is_amount(a.mul(b)),
{
    lemma_order::<R>();
    R::products(zero(), a, b);
    R::products(b, b, b);
}

proof fn lemma_sum_is_an_amount<R: Ordered>(a: R, b: R)
    requires
        is_amount(a),
        is_amount(b),
    ensures
        is_amount(a.add(b)),
{
    lemma_order::<R>();
    R::sums(zero(), a, b);
}

/// Output is an amount, and the more work, the more output.
pub proof fn law_output_grows_with_work<R: Ordered>(
    n: nat,
    m: nat,
    hours_per_month: R,
    productivity: R,
    price: R,
)
    requires
        n <= m,
        is_amount(hours_per_month),
        is_amount(productivity),
        is_amount(price),
    ensures
        is_amount(gdp_of(n, hours_per_month, productivity, price)),
        gdp_of(n, hours_per_month, productivity, price).at_most(
            gdp_of(m, hours_per_month, productivity, price),
        ),
{
    lemma_order::<R>();
    R::counts(n, m);
    R::counts(0, n);
    let a = R::count_of(n);
    let b = R::count_of(m);
    R::products(a, b, hours_per_month);
    R::products(a.mul(hours_per_month), b.mul(hours_per_month), productivity);
    R::products(
        a.mul(hours_per_month).mul(productivity),
        b.mul(hours_per_month).mul(productivity),
        price,
    );
    lemma_product_is_an_amount(a, hours_per_month);
    lemma_product_is_an_amount(a.mul(hours_per_month), productivity);
    lemma_product_is_an_amount(a.mul(hours_per_month).mul(productivity), price);
}

proof fn lemma_total_of_numbers<R: Ordered>(s: Seq<R>)
    requires
        forall|i: int| 0 <= i < s.len() ==> is_number(#[trigger] s[i]),
    ensures
        is_number(total(s)),
    decreases s.len(),
{
    lemma_order::<R>();
    if s.len() > 0 {
        lemma_total_of_numbers(s.drop_last());
        R::sums(total(s.drop_last()), total(s.drop_last()), s.last());
    }
}

proof fn lemma_total_of_amounts<R: Ordered>(s: Seq<R>)
    requires
        forall|i: int| 0 <= i < s.len() ==> is_amount(#[trigger] s[i]),
    ensures
        is_amount(total(s)),
    decreases s.len(),
{
    lemma_order::<R>();
    if s.len() > 0 {
        lemma_total_of_amounts(s.drop_last());
        R::sums(zero(), total(s.drop_last()), s.last());
        R::sums(zero(), s.last(), total(s.drop_last()));
    }
}

proof fn lemma_total_of_shares<R: Ordered>(s: Seq<R>)
    requires
        forall|i: int| 0 <= i < s.len() ==> is_share(#[trigger] s[i]),
    ensures
        is_amount(total(s)),
        total(s).at_most(R::count_of(s.len())),
    decreases s.len(),
{
    lemma_order::<R>();
    R::counts(0, 0);
    if s.len() > 0 {
        let rest = s.drop_last();
        lemma_total_of_shares(rest);
        R::sums(zero(), total(rest), s.last());
        R::sums(total(rest), R::count_of(rest.len()), s.last());
        R::counts(rest.len(), rest.len());
        R::sums(s.last(), one(), R::count_of(rest.len()));
    }
}

/// The mean of shares is a share.
pub proof fn law_mean_of_shares_is_a_share<R: Ordered>(s: Seq<R>)
    requires
        forall|i: int| 0 <= i < s.len() ==> is_share(#[trigger] s[i]),
    ensures
        is_share(mean_of(s)),
{
    lemma_order::<R>();
    if s.len() > 0 {
        lemma_total_of_shares(s);
        let n = R::count_of(s.len());
        R::counts(s.len(), s.len());
        R::quotients(zero(), total(s), n);
        R::quotients(total(s), n, n);
    }
}

proof fn lemma_add_distances<R: Ordered>(acc: R, x: R, ys: Seq<R>)
    requires
        is_number(acc),
        is_number(x),
        forall|i: int| 0 <= i < ys.len() ==> is_number(#[trigger] ys[i]),
    ensures
        is_number(add_distances(acc, x, ys)),
    decreases ys.len(),
{
    lemma_order::<R>();
    if ys.len() > 0 {
        lemma_add_distances(acc, x, ys.drop_last());
        let before = add_distances(acc, x, ys.drop_last());
        R::differences(x, x, ys.last());
        R::magnitudes(x.sub(ys.last()));
        R::sums(before, before, x.sub(ys.last()).magnitude());
    }
}

proof fn lemma_all_distances<R: Ordered>(xs: Seq<R>, ys: Seq<R>)
    requires
        forall|i: int| 0 <= i < xs.len() ==> is_number(#[trigger] xs[i]),
        forall|i: int| 0 <= i < ys.len() ==> is_number(#[trigger] ys[i]),
    ensures
        is_number(all_distances(xs, ys)),
    decreases xs.len(),
{
    lemma_order::<R>();
    if xs.len() > 0 {
        lemma_all_distances(xs.drop_last(), ys);
        lemma_add_distances(all_distances(xs.drop_last(), ys), xs.last(), ys);
    }
}

/// The Gini coefficient is a share.
pub proof fn law_gini_is_a_share<R: Ordered>(values: Seq<R>)
    requires
        forall|i: int| 0 <= i < values.len() ==> is_number(#[trigger] values[i]),
    ensures
        is_share(gini_of(values)),
{
    lemma_order::<R>();
    let sum = total(values);
    if gini_of(values) != zero::<R>() {
        assert forall|i: int| 0 <= i < values.len() implies is_amount(#[trigger] values[i]) by {
            assert(!is_negative(values[i]));
        }
        lemma_total_of_amounts(values);
        R::magnitudes(sum);
        R::literals(1, 12, 1);
        assert(zero::<R>().below(sum));
        let n = R::count_of(values.len());
        R::counts(1, values.len());
        R::counts(0, 0);
        assert(one::<R>().at_most(R::count_of(1))) by {
            R::sums(zero(), zero(), one());
        }
        R::literals(1, 0, 2);
        R::products(one(), R::lit(2, 0), n);
        R::products(n, n, one());
        R::products(sum, sum, one());
        let twice = R::lit(2, 0).mul(n);
        R::products(one(), twice, sum);
        let base = twice.mul(sum);
        assert(zero::<R>().below(base));
        lemma_all_distances(values, values);
        let all = all_distances(values, values);
        R::quotients(all, all, base);
    }
}

/// Interest is never negative.
pub proof fn law_interest_is_an_amount<R: Ordered>(env: MacroEnvView<R>)
    ensures
        is_amount(interest_of(env)),
{
    lemma_order::<R>();
}

proof fn lemma_clamped<R: Ordered>(x: R, lo: R, hi: R)
    requires
        is_number(x),
        lo.at_most(hi),
    ensures
        lo.at_most(clamped(x, lo, hi)),
        clamped(x, lo, hi).at_most(hi),
{
    lemma_order::<R>();
}

/// A scaled tax rate is a share.
pub proof fn law_scaled_rate_is_a_share<R: Ordered>(rate: R, tax_scale: R)
    requires
        is_amount(rate),
        is_number(tax_scale),
    ensures
        is_share(scaled_rate(rate, tax_scale)),
{
    lemma_order::<R>();
    R::products(tax_scale, tax_scale, rate);
    lemma_clamped(rate.mul(tax_scale), zero(), one());
}

/// Whether a tax schedule is in order: its borders rise from zero, there is one border more than
/// there are rates, and its rates are shares.
pub open spec fn is_fair<R: Number>(brackets: Seq<R>, rates: Seq<R>) -> bool {
    &&& brackets.len() == rates.len() + 1
    &&& brackets[0] == zero::<R>()
    &&& forall|i: int, j: int|
        0 <= i <= j < brackets.len() ==> (#[trigger] brackets[i]).at_most(#[trigger] brackets[j])
    &&& forall|i: int| 0 <= i < rates.len() ==> is_share(#[trigger] rates[i])
}

/// The schedules of all regimes are in order.
pub proof fn law_schedules_are_fair<R: Ordered>(regime: PolicyRegime, tax_scale: R)
    requires
        is_number(tax_scale),
    ensures
        is_fair(schedule_of(regime, tax_scale).0, schedule_of(regime, tax_scale).1),
{
    lemma_order::<R>();
    let (brackets, rates) = schedule_of(regime, tax_scale);
    R::literals(0, 0, 9_700);
    R::literals(9_700, 0, 39_475);
    R::literals(39_475, 0, 84_200);
    R::literals(84_200, 0, 160_725);
    R::literals(160_725, 0, 204_100);
    R::literals(204_100, 0, 510_300);
    R::literals(510_300, 0, 510_300);
    R::order(R::lit(510_300, 0), zero(), zero());
    R::order(zero(), zero(), zero());
    R::order(R::top(), R::top(), R::top());
    assert forall|i: int, j: int| 0 <= i <= j < brackets.len() implies (
    #[trigger] brackets[i]).at_most(#[trigger] brackets[j]) by {
        lemma_rises(brackets, i, j);
    }
    R::literals(10, 2, 10);
    R::literals(12, 2, 12);
    R::literals(22, 2, 22);
    R::literals(24, 2, 24);
    R::literals(32, 2, 32);
    R::literals(35, 2, 35);
    R::literals(37, 2, 37);
    law_scaled_rate_is_a_share(R::lit(10, 2), tax_scale);
    law_scaled_rate_is_a_share(R::lit(12, 2), tax_scale);
    law_scaled_rate_is_a_share(R::lit(22, 2), tax_scale);
    law_scaled_rate_is_a_share(R::lit(24, 2), tax_scale);
    law_scaled_rate_is_a_share(R::lit(32, 2), tax_scale);
    law_scaled_rate_is_a_share(R::lit(35, 2), tax_scale);
    law_scaled_rate_is_a_share(R::lit(37, 2), tax_scale);
}

proof fn lemma_rises<R: Ordered>(s: Seq<R>, i: int, j: int)
    requires
        0 <= i <= j < s.len(),
        forall|k: int| 0 <= k < s.len() ==> is_number(#[trigger] s[k]),
        forall|k: int| 0 < k < s.len() ==> s[k - 1].at_most(#[trigger] s[k]),
    ensures
        s[i].at_most(s[j]),
    decreases j - i,
{
    lemma_order::<R>();
    if i < j {
        lemma_rises(s, i, j - 1);
        assert(s[j - 1].at_most(s[j]));
    } else {
        assert(is_number(s[i]));
    }
}

proof fn lemma_rises_strictly<R: Ordered>(s: Seq<R>, i: int, j: int)
    requires
        0 <= i < j < s.len(),
        forall|k: int| 0 < k < s.len() ==> s[k - 1].below(#[trigger] s[k]),
    ensures
        s[i].below(s[j]),
    decreases j - i,
{
    lemma_order::<R>();
    assert(s[j - 1].below(s[j]));
    if i < j - 1 {
        lemma_rises_strictly(s, i, j - 1);
    }
}

proof fn lemma_scaled_rates<R: Ordered>(rate: R, higher: R, tax_scale: R)
    requires
        is_amount(rate),
        rate.at_most(higher),
        is_number(tax_scale),
    ensures
        scaled_rate(rate, tax_scale).at_most(scaled_rate(higher, tax_scale)),
{
    lemma_order::<R>();
    law_scaled_rate_is_a_share(rate, tax_scale);
    law_scaled_rate_is_a_share(higher, tax_scale);
    if is_amount(tax_scale) {
        R::products(rate, higher, tax_scale);
    } else {
        R::order(tax_scale, zero(), zero());
        R::products(tax_scale, zero(), rate);
        R::products(tax_scale, zero(), higher);
        R::products(rate, rate, zero());
        R::products(higher, higher, zero());
    }
    R::products(tax_scale, tax_scale, rate);
    R::products(tax_scale, tax_scale, higher);
}

/// The borders of every schedule rise strictly from zero to no limit, and its rates do not fall.
pub proof fn law_schedules_rise<R: Ordered>(regime: PolicyRegime, tax_scale: R)
    requires
        is_number(tax_scale),
    ensures
        ({
            let (brackets, rates) = schedule_of(regime, tax_scale);
            &&& brackets.len() == rates.len() + 1
            &&& rates.len() == (if regime == PolicyRegime::Progressive {
                7int
            } else {
                1
            })
            &&& brackets[0] == zero::<R>()
            &&& brackets.last() == R::top()
            &&& forall|i: int, j: int|
                0 <= i < j < brackets.len() ==> (#[trigger] brackets[i]).below(#[trigger] brackets[j])
            &&& forall|i: int, j: int|
                0 <= i <= j < rates.len() ==> (#[trigger] rates[i]).at_most(#[trigger] rates[j])
            &&& regime == PolicyRegime::NoTax ==> rates =~= seq![zero::<R>()]
        }),
{
    lemma_order::<R>();
    let (brackets, rates) = schedule_of(regime, tax_scale);
    R::literals(0, 0, 9_700);
    R::literals(9_700, 0, 39_475);
    R::literals(39_475, 0, 84_200);
    R::literals(84_200, 0, 160_725);
    R::literals(160_725, 0, 204_100);
    R::literals(204_100, 0, 510_300);
    R::literals(510_300, 0, 510_300);
    assert forall|i: int, j: int| 0 <= i < j < brackets.len() implies (
    #[trigger] brackets[i]).below(#[trigger] brackets[j]) by {
        lemma_rises_strictly(brackets, i, j);
    }
    R::literals(10, 2, 12);
    R::literals(12, 2, 22);
    R::literals(22, 2, 24);
    R::literals(24, 2, 32);
    R::literals(32, 2, 35);
    R::literals(35, 2, 37);
    R::literals(0, 2, 10);
    lemma_scaled_rates(R::lit(10, 2), R::lit(12, 2), tax_scale);
    lemma_scaled_rates(R::lit(12, 2), R::lit(22, 2), tax_scale);
    lemma_scaled_rates(R::lit(22, 2), R::lit(24, 2), tax_scale);
    lemma_scaled_rates(R::lit(24, 2), R::lit(32, 2), tax_scale);
    lemma_scaled_rates(R::lit(32, 2), R::lit(35, 2), tax_scale);
    lemma_scaled_rates(R::lit(35, 2), R::lit(37, 2), tax_scale);
    law_schedules_are_fair(regime, tax_scale);
    assert forall|i: int, j: int| 0 <= i <= j < rates.len() implies (
    #[trigger] rates[i]).at_most(#[trigger] rates[j]) by {
        assert forall|k: int| 0 <= k < rates.len() implies is_number(#[trigger] rates[k]) by {
            assert(is_share(rates[k]));
        }
        lemma_rises(rates, i, j);
    }
}

/// The tax scales of a sweep lie within its range.
pub proof fn law_scales_lie_in_the_range<R: Ordered>(lo: R, hi: R, step: R, i: int)
    requires
        lo.at_most(hi),
        is_number(step),
        0 <= i < scales_between(lo, hi, step).len(),
    ensures
        lo.at_most(scales_between(lo, hi, step)[i]),
        scales_between(lo, hi, step)[i].at_most(hi),
{
    lemma_order::<R>();
    if !step.at_most(R::lit(0, 0)) {
        let million = R::lit(1_000_000, 0);
        R::literals(1_000_000, 0, 1_000_000);
        R::counts(i as nat, i as nat);
        let far = step.mul(R::count_of(i as nat));
        R::signs(step, R::count_of(i as nat));
        R::sums(lo, lo, far);
        let at = lo.add(far);
        R::signs(at, million);
        R::roundings(at.mul(million), at.mul(million));
        let rounded = at.mul(million).nearest();
        R::quotients(rounded, rounded, million);
        lemma_clamped(rounded.div(million), lo, hi);
    }
}

proof fn lemma_min<R: Ordered>(a: R, b: R, c: R)
    requires
        a.at_most(b),
        is_number(c),
    ensures
        min_of(a, c).at_most(min_of(b, c)),
        min_of(a, c).at_most(a),
        min_of(a, c).at_most(c),
        c.at_most(a) ==> c.at_most(min_of(a, c)),
{
    lemma_order::<R>();
}

proof fn lemma_tax_below<R: Ordered>(y: R, z: R, brackets: Seq<R>, rates: Seq<R>, k: nat)
    requires
        is_fair(brackets, rates),
        k <= rates.len(),
        y.at_most(z),
    ensures
        is_amount(tax_below(y, brackets, rates, k)),
        tax_below(y, brackets, rates, k).at_most(tax_below(z, brackets, rates, k)),
    decreases k,
{
    lemma_order::<R>();
    if k > 0 {
        let j = (k - 1) as nat;
        lemma_tax_below(y, z, brackets, rates, j);
        let lo = brackets[k - 1];
        let hi = brackets[k as int];
        let rate = rates[k - 1];
        assert(lo.at_most(hi));
        assert(is_share(rate));
        let less = tax_below(y, brackets, rates, j);
        let more = tax_below(z, brackets, rates, j);
        let py = min_of(y, hi).sub(lo);
        let pz = min_of(z, hi).sub(lo);
        if lo.below(z) {
            lemma_min(z, z, hi);
            assert(lo.at_most(min_of(z, hi)));
            R::differences(lo, min_of(z, hi), lo);
            lemma_product_is_an_amount(rate, pz);
            R::sums(zero(), rate.mul(pz), more);
            if lo.below(y) {
                lemma_min(y, z, hi);
                lemma_min(y, y, hi);
                R::differences(lo, min_of(y, hi), lo);
                lemma_product_is_an_amount(rate, py);
                R::differences(min_of(y, hi), min_of(z, hi), lo);
                R::products(py, pz, rate);
                R::sums(less, more, rate.mul(py));
                R::sums(rate.mul(py), rate.mul(pz), more);
                R::sums(zero(), rate.mul(py), less);
                R::sums(zero(), less, less);
            }
        }
    }
}

/// Tax is never negative, and who earns more pays no less.
pub proof fn law_tax_grows_with_income<R: Ordered>(y: R, z: R, brackets: Seq<R>, rates: Seq<R>)
    requires
        is_fair(brackets, rates),
        y.at_most(z),
    ensures
        is_amount(tax_of(y, brackets, rates)),
        tax_of(y, brackets, rates).at_most(tax_of(z, brackets, rates)),
{
    lemma_order::<R>();
    lemma_tax_below(y, z, brackets, rates, rates.len());
    lemma_tax_below(z, z, brackets, rates, rates.len());
}

proof fn lemma_tax_within<R: Ordered>(z: R, brackets: Seq<R>, rates: Seq<R>, k: nat)
    requires
        is_fair(brackets, rates),
        k <= rates.len(),
        is_amount(z),
    ensures
        tax_below(z, brackets, rates, k).at_most(min_of(z, brackets[k as int])),
    decreases k,
{
    lemma_order::<R>();
    let hi = brackets[k as int];
    assert(brackets[0].at_most(hi));
    lemma_min(z, z, hi);
    if k > 0 {
        lemma_tax_within(z, brackets, rates, (k - 1) as nat);
        lemma_tax_below(z, z, brackets, rates, (k - 1) as nat);
        let lo = brackets[k - 1];
        let rate = rates[k - 1];
        assert(brackets[0].at_most(lo));
        assert(lo.at_most(hi));
        assert(is_share(rate));
        lemma_min(z, z, lo);
        let before = tax_below(z, brackets, rates, (k - 1) as nat);
        if lo.below(z) {
            let reach = min_of(z, hi);
            assert(lo.at_most(reach));
            let part = reach.sub(lo);
            R::differences(lo, reach, lo);
            R::products(rate, one(), part);
            R::products(part, part, one());
            R::sums(before, lo, rate.mul(part));
            R::sums(rate.mul(part), part, lo);
            R::refills(lo, reach);
        }
    }
}

/// Nobody pays more tax than they earn.
pub proof fn law_tax_is_within_income<R: Ordered>(z: R, brackets: Seq<R>, rates: Seq<R>)
    requires
        is_fair(brackets, rates),
        is_amount(z),
    ensures
        tax_of(z, brackets, rates).at_most(z),
{
    lemma_order::<R>();
    lemma_tax_within(z, brackets, rates, rates.len());
    assert(brackets[0].at_most(brackets[rates.len() as int]));
    lemma_min(z, z, brackets[rates.len() as int]);
}

/// Whether a schedule taxes nothing.
pub open spec fn is_untaxed<R: Number>(brackets: Seq<R>, rates: Seq<R>) -> bool {
    &&& is_fair(brackets, rates)
    &&& forall|i: int| 0 <= i < rates.len() ==> #[trigger] rates[i] == zero::<R>()
}

/// The schedule of the regime without tax taxes nothing.
pub proof fn law_no_tax_schedule<R: Ordered>(tax_scale: R)
    requires
        is_number(tax_scale),
    ensures
        is_untaxed(
            schedule_of(PolicyRegime::NoTax, tax_scale).0,
            schedule_of(PolicyRegime::NoTax, tax_scale).1,
        ),
{
    law_schedules_are_fair(PolicyRegime::NoTax, tax_scale);
}

proof fn lemma_untaxed_below<R: Ordered>(z: R, brackets: Seq<R>, rates: Seq<R>, k: nat)
    requires
        is_untaxed(brackets, rates),
        k <= rates.len(),
        is_number(z),
    ensures
        tax_below(z, brackets, rates, k) == zero::<R>(),
    decreases k,
{
    lemma_order::<R>();
    if k > 0 {
        lemma_untaxed_below(z, brackets, rates, (k - 1) as nat);
        let lo = brackets[k - 1];
        let hi = brackets[k as int];
        assert(lo.at_most(hi));
        assert(rates[k - 1] == zero::<R>());
        lemma_min(z, z, hi);
        let part = min_of(z, hi).sub(lo);
        R::differences(min_of(z, hi), min_of(z, hi), lo);
        R::products(part, part, zero());
        R::sums(zero(), zero(), zero());
    }
}

/// A schedule without rates above zero takes nothing from any income.
pub proof fn law_untaxed_income<R: Ordered>(z: R, brackets: Seq<R>, rates: Seq<R>)
    requires
        is_untaxed(brackets, rates),
        is_number(z),
    ensures
        tax_of(z, brackets, rates) == zero::<R>(),
{
    lemma_untaxed_below(z, brackets, rates, rates.len());
}

/// A probability on its grid is a share.
pub proof fn law_snapped_is_a_share<R: Ordered>(p: R)
    requires
        is_number(p),
    ensures
        is_share(snapped(p)),
{
    lemma_order::<R>();
    let step = R::lit(2, 2);
    let within = clamped(p, zero(), one());
    lemma_clamped(p, zero(), one());
    R::literals(2, 2, 2);
    R::quotients(zero(), within, step);
    R::quotients(within, one(), step);
    R::roundings(zero(), within.div(step));
    R::roundings(within.div(step), one::<R>().div(step));
    R::products(zero(), within.div(step).nearest(), step);
    R::products(within.div(step).nearest(), one::<R>().div(step).nearest(), step);
    R::products(step, step, zero());
    R::fiftieths();
}

/// Snapping keeps the order of probabilities.
pub proof fn law_snapping_keeps_order<R: Ordered>(p: R, q: R)
    requires
        p.at_most(q),
    ensures
        snapped(p).at_most(snapped(q)),
{
    lemma_order::<R>();
    let step = R::lit(2, 2);
    let a = clamped(p, zero(), one());
    let b = clamped(q, zero(), one());
    R::literals(2, 2, 2);
    assert(a.at_most(b));
    R::quotients(a, b, step);
    R::roundings(a.div(step), b.div(step));
    R::products(a.div(step).nearest(), b.div(step).nearest(), step);
}

proof fn lemma_first_number<R: Ordered>(members: Seq<(Seq<char>, JsonFieldView)>, keys: Seq<Seq<char>>)
    ensures
        first_number::<R>(members, keys) matches Some(x) ==> is_number(x),
    decreases keys.len(),
{
    if keys.len() > 0 {
        lemma_first_number::<R>(members, keys.drop_first());
    }
}

proof fn lemma_numbers_from<R: Ordered>(s: Seq<char>, i: int)
    ensures
        forall|k: int|
            0 <= k < numbers_from::<R>(s, i).len() ==> is_number(#[trigger] numbers_from::<R>(s, i)[k]),
    decreases s.len() - i + 1,
{
    if i < s.len() {
        if in_number(s[i]) || s[i] == '-' {
            lemma_run_end(s, i + 1);
            let end = run_end(s, i + 1);
            lemma_numbers_from::<R>(s, end + 1);
            let rest = numbers_from::<R>(s, end + 1);
            assert forall|k: int| 0 <= k < numbers_from::<R>(s, i).len() implies is_number(
                #[trigger] numbers_from::<R>(s, i)[k],
            ) by {
                match number_in::<R>(s.subrange(i, without_points(s, i, end))) {
                    Some(x) => {
                        if k > 0 {
                            assert((seq![x] + rest)[k] == rest[k - 1]);
                        }
                    },
                    None => {
                        assert(numbers_from::<R>(s, i) == rest);
                    },
                }
            }
        } else {
            lemma_numbers_from::<R>(s, i + 1);
            assert(numbers_from::<R>(s, i) == numbers_from::<R>(s, i + 1));
        }
    }
}

/// Every reply comes down to two numbers brought onto the grid, or to an even chance for both.
pub proof fn law_decisions_are_on_the_grid<R: Ordered>(reply: Seq<char>) -> (p: (R, R))
    ensures
        is_number(p.0),
        is_number(p.1),
        decision_of::<R>(reply) == (snapped(p.0), snapped(p.1)) || decision_of::<R>(reply) == (
            R::lit(5, 1),
            R::lit(5, 1),
        ),
{
    R::literals(5, 1, 5);
    let half = R::lit(5, 1);
    let numbers = numbers_from::<R>(reply, 0);
    lemma_numbers_from::<R>(reply, 0);
    match json_decision::<R>(reply) {
        Some((work, consume)) => {
            let members = json_members(braced(reply)->0)->0;
            lemma_first_number::<R>(members, work_keys());
            lemma_first_number::<R>(members, consume_keys());
            (work, consume)
        },
        None => if numbers.len() >= 2 {
            assert(is_number(numbers[0]));
            assert(is_number(numbers[1]));
            (numbers[0], numbers[1])
        } else {
            (half, half)
        },
    }
}

/// Every reply comes down to a decision between zero and one.
pub proof fn law_decisions_are_shares<R: Ordered>(reply: Seq<char>)
    ensures
        is_share(decision_of::<R>(reply).0),
        is_share(decision_of::<R>(reply).1),
{
    lemma_order::<R>();
    R::literals(0, 1, 5);
    R::literals(5, 1, 10);
    R::literals(1, 0, 1);
    let p = law_decisions_are_on_the_grid::<R>(reply);
    law_snapped_is_a_share(p.0);
    law_snapped_is_a_share(p.1);
}

/// Whether a household is in bounds: its wage and its savings are amounts, and what it decided are
/// shares.
pub open spec fn household_in_bounds<R: Number>(h: HouseholdView<R>) -> bool {
    &&& is_amount(h.wage)
    &&& is_amount(h.savings)
    &&& is_share(h.p_work)
    &&& is_share(h.p_consume)
}

/// Whether all values of a sequence are amounts.
pub open spec fn all_amounts<R: Number>(s: Seq<R>) -> bool {
    forall|i: int| 0 <= i < s.len() ==> is_amount(#[trigger] s[i])
}

/// Whether an economy is in bounds: its price is at or above the lowest, interest, stock,
/// productivity and past prices are amounts, its tax schedule is in order, and its households are
/// in bounds.
pub open spec fn economy_in_bounds<R: Number>(w: WorldView<R>) -> bool {
    &&& price_floor::<R>().at_most(w.env.price)
    &&& is_amount(w.env.interest_rate)
    &&& is_amount(w.env.inventory)
    &&& is_amount(w.env.productivity)
    &&& is_fair(w.env.tax_brackets, w.env.tax_rates)
    &&& all_amounts(w.env.price_history)
    &&& all_amounts(w.env.year_price_buffer)
    &&& forall|id: u64|
        w.households.contains_key(id) ==> household_in_bounds(#[trigger] w.households[id])
}

/// Whether the indicators of a month are in bounds.
pub open spec fn row_in_bounds<R: Number>(m: MacroMetrics<R>) -> bool {
    &&& is_amount(m.nominal_gdp)
    &&& price_floor::<R>().at_most(m.price)
    &&& is_amount(m.interest_rate)
    &&& is_share(m.unemployment_rate)
    &&& is_number(m.inflation_rate)
    &&& is_share(m.gini_savings)
    &&& is_share(m.avg_work_propensity)
    &&& is_share(m.avg_consume_propensity)
    &&& is_amount(m.redistribution)
}

/// Whether a run is in bounds: its economy is, and so are the indicators of all its months.
pub open spec fn run_in_bounds<R: Number>(s: SimulationView<R>) -> bool {
    &&& economy_in_bounds(s.world)
    &&& forall|i: int| 0 <= i < s.metrics.len() ==> row_in_bounds(#[trigger] s.metrics[i])
    &&& s.stage matches StageView::Hiring { p_work, p_consume, .. } ==> is_share(p_work)
        && is_share(p_consume)
}

proof fn lemma_inflation_is_a_number<R: Ordered>(history: Seq<R>)
    requires
        all_amounts(history),
    ensures
        is_number(inflation_of(history)),
{
    lemma_order::<R>();
    let n = history.len();
    if n >= 2 {
        let prev = history[n - 2];
        let curr = history[n - 1];
        assert(is_amount(prev) && is_amount(curr));
        R::magnitudes(prev);
        R::literals(1, 12, 1);
        if !prev.magnitude().below(R::lit(1, 12)) {
            R::differences(curr, curr, prev);
            R::quotients(curr.sub(prev), curr.sub(prev), prev);
        }
    }
}

proof fn lemma_mean_is_an_amount<R: Ordered>(s: Seq<R>)
    requires
        all_amounts(s),
    ensures
        is_amount(mean_of(s)),
{
    lemma_order::<R>();
    if s.len() > 0 {
        lemma_total_of_amounts(s);
        R::counts(s.len(), s.len());
        R::quotients(zero(), total(s), R::count_of(s.len()));
    }
}

/// The households in their order are as many as there are, and in bounds.
pub proof fn lemma_roster_in_bounds<R: Ordered>(w: WorldView<R>)
    requires
        economy_in_bounds(w),
        is_ascending_of(w.ids(), w.households.dom()),
    ensures
        w.roster().len() == w.n(),
        forall|i: int| 0 <= i < w.roster().len() ==> household_in_bounds(#[trigger] w.roster()[i]),
{
    lemma_ascending_len(w.ids(), w.households.dom());
    assert forall|i: int| 0 <= i < w.roster().len() implies household_in_bounds(
        #[trigger] w.roster()[i],
    ) by {
        assert(w.ids().contains(w.ids()[i]));
        assert(w.roster()[i] == w.households[w.ids()[i]]);
    }
}

/// An income is an amount.
pub proof fn lemma_income_is_an_amount<R: Ordered>(h: HouseholdView<R>)
    requires
        household_in_bounds(h),
    ensures
        is_amount(h.income()),
{
    lemma_order::<R>();
    R::literals(168, 0, 168);
    lemma_product_is_an_amount(h.wage, R::lit(168, 0));
}

/// Nobody spends more than they have saved.
pub proof fn lemma_spending_within_savings<R: Ordered>(h: HouseholdView<R>)
    requires
        household_in_bounds(h),
    ensures
        is_amount(spending_of(h)),
        spending_of(h).at_most(h.savings),
{
    lemma_order::<R>();
    let spendable = max_of(h.savings, zero());
    lemma_product_is_an_amount(h.p_consume, spendable);
    R::products(h.p_consume, one(), h.savings);
    R::products(h.savings, h.savings, one());
    R::products(h.p_consume, one(), zero());
    R::products(zero(), zero(), one());
}

proof fn lemma_redistribution_is_an_amount<R: Ordered>(w: WorldView<R>)
    requires
        economy_in_bounds(w),
        is_ascending_of(w.ids(), w.households.dom()),
    ensures
        is_amount(redistribution_of(w)),
{
    lemma_order::<R>();
    lemma_roster_in_bounds(w);
    let taxes = w.roster().map_values(|h: HouseholdView<R>| tax_due(h, w.env));
    assert forall|i: int| 0 <= i < taxes.len() implies is_amount(#[trigger] taxes[i]) by {
        let h = w.roster()[i];
        lemma_income_is_an_amount(h);
        law_tax_grows_with_income(h.income(), h.income(), w.env.tax_brackets, w.env.tax_rates);
    }
    lemma_total_of_amounts(taxes);
    if w.n() > 0 {
        R::counts(w.n(), w.n());
        R::quotients(zero(), total(taxes), R::count_of(w.n()));
    }
}

proof fn lemma_settled_in_bounds<R: Ordered>(w: WorldView<R>)
    requires
        economy_in_bounds(w),
        is_ascending_of(w.ids(), w.households.dom()),
    ensures
        economy_in_bounds(settled_world(w)),
        settled_world(w).households.dom() == w.households.dom(),
{
    lemma_order::<R>();
    lemma_redistribution_is_an_amount(w);
    R::literals(1, 6, 1);
    let prices = w.env.year_price_buffer.push(w.env.price);
    assert(all_amounts(prices));
    lemma_mean_is_an_amount(prices);
    let after = settled_world(w);
    assert(after.households.dom() =~= w.households.dom());
    let share = redistribution_of(w);
    assert forall|id: u64| after.households.contains_key(id) implies household_in_bounds(
        #[trigger] after.households[id],
    ) by {
        let h = w.households[id];
        assert(household_in_bounds(h));
        assert(after.households[id] == settled_household(h, w.env, share));
        lemma_income_is_an_amount(h);
        lemma_spending_within_savings(h);
        let tax = tax_due(h, w.env);
        law_tax_grows_with_income(h.income(), h.income(), w.env.tax_brackets, w.env.tax_rates);
        law_tax_is_within_income(h.income(), w.env.tax_brackets, w.env.tax_rates);
        let kept = h.savings.sub(spending_of(h));
        R::differences(spending_of(h), h.savings, spending_of(h));
        let net = h.income().sub(tax);
        R::differences(tax, h.income(), tax);
        lemma_sum_is_an_amount(kept, net);
        lemma_sum_is_an_amount(kept.add(net), share);
    }
}

proof fn lemma_employed_count<R>(roster: Seq<HouseholdView<R>>)
    ensures
        employed_count(roster) <= roster.len(),
    decreases roster.len(),
{
    reveal(Seq::filter);
    if roster.len() > 0 {
        lemma_employed_count(roster.drop_last());
    }
}

proof fn lemma_row_in_bounds<R: Ordered>(w: WorldView<R>)
    requires
        economy_in_bounds(w),
        is_ascending_of(w.ids(), w.households.dom()),
    ensures
        row_in_bounds(metrics_of(w)),
{
    lemma_order::<R>();
    lemma_roster_in_bounds(w);
    lemma_employed_count(w.roster());
    law_unemployment_is_a_share::<R>(employed_count(w.roster()), w.n());
    lemma_redistribution_is_an_amount(w);
    lemma_inflation_is_a_number(w.env.price_history);
    lemma_settled_in_bounds(w);
    lemma_roster_in_bounds(settled_world(w));
    R::literals(1, 6, 1);
    R::literals(1, 9, 1);
    R::literals(168, 0, 168);
    law_output_grows_with_work(
        employed_count(w.roster()),
        employed_count(w.roster()),
        R::lit(168, 0),
        w.env.productivity,
        usable_price(w.env.price),
    );
    let after = settled_world(w).roster();
    let savings = after.map_values(|h: HouseholdView<R>| max_of(h.savings, R::lit(0, 0)));
    assert forall|i: int| 0 <= i < savings.len() implies is_number(#[trigger] savings[i]) by {
        assert(household_in_bounds(after[i]));
    }
    law_gini_is_a_share(savings);
    let works = after.map_values(|h: HouseholdView<R>| h.p_work);
    assert forall|i: int| 0 <= i < works.len() implies is_share(#[trigger] works[i]) by {
        assert(household_in_bounds(after[i]));
    }
    law_mean_of_shares_is_a_share(works);
    let consumes = after.map_values(|h: HouseholdView<R>| h.p_consume);
    assert forall|i: int| 0 <= i < consumes.len() implies is_share(#[trigger] consumes[i]) by {
        assert(household_in_bounds(after[i]));
    }
    law_mean_of_shares_is_a_share(consumes);
}

proof fn lemma_stocked_in_bounds<R: Ordered>(w: WorldView<R>)
    requires
        economy_in_bounds(w),
    ensures
        economy_in_bounds(stocked(w)),
{
    lemma_order::<R>();
    let units = Seq::new(
        employed_count(w.roster()),
        |i: int| R::lit(HOURS_PER_MONTH as int, 0).mul(w.env.productivity),
    );
    R::literals(168, 0, 168);
    lemma_product_is_an_amount(R::lit(168, 0), w.env.productivity);
    assert forall|i: int| 0 <= i < units.len() implies is_amount(#[trigger] units[i]) by {}
    lemma_total_of_amounts(units);
    R::sums(zero(), w.env.inventory, total(units));
}

proof fn lemma_next_month_in_bounds<R: Ordered>(s: SimulationView<R>)
    requires
        run_in_bounds(s),
        !(s.stage is Hiring),
    ensures
        run_in_bounds(s.next_month()),
{
    let w = WorldView { t: s.world.t + 1, ..s.world };
    law_interest_is_an_amount(w.env);
    let set = policy_set(w);
    assert(economy_in_bounds(set));
    lemma_stocked_in_bounds(set);
}

proof fn lemma_month_closed_in_bounds<R: Ordered>(s: SimulationView<R>)
    requires
        run_in_bounds(s),
        s.sound(),
        !(s.stage is Hiring),
    ensures
        run_in_bounds(s.month_closed()),
{
    lemma_row_in_bounds(s.world);
    lemma_settled_in_bounds(s.world);
    let settled = settled_world(s.world);
    let noted = remembered(settled, s.memory_length);
    assert forall|id: u64| noted.households.contains_key(id) implies household_in_bounds(
        #[trigger] noted.households[id],
    ) by {
        assert(household_in_bounds(settled.households[id]));
    }
    let closed = SimulationView {
        world: noted,
        metrics: s.metrics.push(metrics_of(s.world)),
        ..s
    };
    assert(run_in_bounds(closed));
    lemma_next_month_in_bounds(closed);
}

proof fn lemma_with_household_in_bounds<R: Ordered>(w: WorldView<R>, id: u64, h: HouseholdView<R>)
    requires
        economy_in_bounds(w),
        household_in_bounds(h),
    ensures
        economy_in_bounds(w.with_household(id, h)),
{
}

/// A run that is in bounds stays so, whatever is answered: nobody goes into debt, and at every
/// month's end unemployment, inequality and the mean propensities are shares, output, interest and
/// redistribution are amounts, and the price is at or above the lowest.
pub proof fn law_runs_stay_in_bounds<R: Ordered>(s: SimulationView<R>, event: EventView<R>)
    requires
        s.valid(),
        run_in_bounds(s),
    ensures
        run_in_bounds(s.after(event)),
{
    lemma_order::<R>();
    let w = s.world;
    match (s.stage, event) {
        (StageView::Deciding { .. }, EventView::Reply { text }) => {
            law_decisions_are_shares::<R>(text);
        },
        (StageView::Hiring { next, perception, p_work, p_consume }, EventView::Drawn { value }) => {
            lemma_places(w, next);
            let id = w.ids()[next as int];
            let h = decided(w.households[id], p_work, p_consume, value);
            assert(household_in_bounds(w.households[id]));
            law_snapped_is_a_share(p_work);
            law_snapped_is_a_share(p_consume);
            lemma_with_household_in_bounds(w, id, h);
            lemma_stocked_in_bounds(w.with_household(id, h));
        },
        (StageView::MovingWages { next, imbalance }, EventView::Drawn { value }) => {
            lemma_places(w, next);
            let id = w.ids()[next as int];
            assert(household_in_bounds(w.households[id]));
            let moved = wage_moved(w, id, imbalance, value);
            lemma_with_household_in_bounds(w, id, moved.households[id]);
        },
        (StageView::MovingPrice { imbalance }, EventView::Drawn { value }) => {
            let priced = SimulationView { world: price_moved(w, imbalance, value), ..s };
            R::literals(1, 6, 1);
            assert(economy_in_bounds(priced.world));
            lemma_month_closed_in_bounds(priced);
        },
        (StageView::Reflecting { next }, EventView::Reply { text }) => {
            lemma_places(w, next);
            let id = w.ids()[next as int];
            assert(household_in_bounds(w.households[id]));
            let entered = SimulationView { world: reflected(w, id, text), ..s };
            lemma_with_household_in_bounds(w, id, entered.world.households[id]);
            lemma_next_month_in_bounds(entered);
        },
        _ => {},
    }
}

/// A run of sound settings starts in bounds.
pub proof fn law_runs_start_in_bounds<R: Ordered>(cfg: Config<R>, sampled: Seq<(R, u32)>)
    requires
        is_number(cfg.tax_scale),
        price_floor::<R>().at_most(cfg.init_price),
        is_amount(cfg.productivity),
        is_amount(cfg.natural_rate),
        is_amount(cfg.target_inflation),
        is_amount(cfg.init_savings),
        forall|i: int| 0 <= i < sampled.len() ==> is_amount((#[trigger] sampled[i]).0),
    ensures
        run_in_bounds(started(cfg, sampled)),
{
    lemma_order::<R>();
    law_schedules_are_fair(cfg.regime, cfg.tax_scale);
    R::literals(1, 6, 1);
    R::sums(zero(), cfg.natural_rate, cfg.target_inflation);
    let w = initial_world(cfg, sampled);
    assert forall|id: u64| w.households.contains_key(id) implies household_in_bounds(
        #[trigger] w.households[id],
    ) by {
        assert(is_amount(sampled[id as int].0));
    }
    let s = SimulationView {
        world: w,
        metrics: Seq::empty(),
        memory_length: if cfg.memory_length < 1 {
            1
        } else {
            cfg.memory_length as nat
        },
        stage: StageView::Finished,
    };
    lemma_next_month_in_bounds(s);
}

proof fn lemma_replay_in_bounds<R: Ordered>(s: SimulationView<R>, events: Seq<EventView<R>>)
    requires
        s.valid(),
        run_in_bounds(s),
    ensures
        run_in_bounds(s.replay(events)),
    decreases events.len(),
{
    if events.len() > 0 {
        law_runs_stay_in_order(s, events[0]);
        law_runs_stay_in_bounds(s, events[0]);
        lemma_replay_in_bounds(s.after(events[0]), events.drop_first());
    }
}

/// A run of sound settings is in bounds at every point, whatever is answered.
pub proof fn law_runs_are_in_bounds<R: Ordered>(
    cfg: Config<R>,
    sampled: Seq<(R, u32)>,
    events: Seq<EventView<R>>,
)
    requires
        sampled.len() == cfg.n_agents,
        is_number(cfg.tax_scale),
        price_floor::<R>().at_most(cfg.init_price),
        is_amount(cfg.productivity),
        is_amount(cfg.natural_rate),
        is_amount(cfg.target_inflation),
        is_amount(cfg.init_savings),
        forall|i: int| 0 <= i < sampled.len() ==> is_amount((#[trigger] sampled[i]).0),
    ensures
        run_in_bounds(started(cfg, sampled).replay(events)),
{
    law_runs_start_in_order(cfg, sampled);
    law_runs_start_in_bounds(cfg, sampled);
    lemma_replay_in_bounds(started(cfg, sampled), events);
}

/// A run that a command asks for starts in bounds.
pub proof fn law_asked_runs_start_in_bounds<R: Ordered>(cfg: Config<R>, sampled: Seq<(R, u32)>)
    requires
        is_number(cfg.tax_scale),
        cfg.init_price == R::lit(1, 0),
        cfg.productivity == R::lit(1, 0),
        cfg.natural_rate == R::lit(1, 2),
        cfg.target_inflation == R::lit(2, 2),
        cfg.init_savings == R::lit(0, 0),
        forall|i: int| 0 <= i < sampled.len() ==> is_amount((#[trigger] sampled[i]).0),
    ensures
        run_in_bounds(started(cfg, sampled)),
{
    lemma_order::<R>();
    R::literals(1, 6, 1_000_000);
    R::literals(1, 0, 1);
    R::literals(10, 1, 1);
    R::literals(100, 2, 1);
    R::literals(1_000, 3, 1);
    R::literals(10_000, 4, 1);
    R::literals(100_000, 5, 1);
    R::literals(1, 2, 1);
    R::literals(2, 2, 2);
    law_runs_start_in_bounds(cfg, sampled);
}

/// No sampled wage is below the smallest.
pub proof fn law_wages_have_a_minimum<R: Ordered>(root: R, x_min: R)
    requires
        zero::<R>().below(root),
        root.at_most(one()),
        is_amount(x_min),
    ensures
        x_min.at_most(x_min.div(root)),
{
    R::parts(x_min, root, one());
}

/// Whether a run has redistributed nothing so far, and will not.
pub open spec fn run_untaxed<R: Number>(s: SimulationView<R>) -> bool {
    &&& is_untaxed(s.world.env.tax_brackets, s.world.env.tax_rates)
    &&& forall|i: int|
        0 <= i < s.metrics.len() ==> (#[trigger] s.metrics[i]).redistribution == zero::<R>()
}

proof fn lemma_total_of_zeros<R: Ordered>(s: Seq<R>)
    requires
        forall|i: int| 0 <= i < s.len() ==> #[trigger] s[i] == zero::<R>(),
    ensures
        total(s) == zero::<R>(),
    decreases s.len(),
{
    lemma_order::<R>();
    if s.len() > 0 {
        lemma_total_of_zeros(s.drop_last());
        R::sums(zero(), zero(), zero());
    }
}

/// Without tax there is nothing to redistribute.
pub proof fn law_no_tax_no_redistribution<R: Ordered>(w: WorldView<R>)
    requires
        economy_in_bounds(w),
        is_ascending_of(w.ids(), w.households.dom()),
        is_untaxed(w.env.tax_brackets, w.env.tax_rates),
    ensures
        redistribution_of(w) == zero::<R>(),
{
    lemma_order::<R>();
    lemma_roster_in_bounds(w);
    let taxes = w.roster().map_values(|h: HouseholdView<R>| tax_due(h, w.env));
    assert forall|i: int| 0 <= i < taxes.len() implies #[trigger] taxes[i] == zero::<R>() by {
        let h = w.roster()[i];
        lemma_income_is_an_amount(h);
        law_untaxed_income(h.income(), w.env.tax_brackets, w.env.tax_rates);
    }
    lemma_total_of_zeros(taxes);
    if w.n() > 0 {
        R::counts(w.n(), w.n());
        R::quotients(zero(), zero(), R::count_of(w.n()));
    }
}

/// A run under the regime without tax starts untaxed.
pub proof fn law_untaxed_runs_start_untaxed<R: Ordered>(cfg: Config<R>, sampled: Seq<(R, u32)>)
    requires
        cfg.regime == PolicyRegime::NoTax,
        is_number(cfg.tax_scale),
    ensures
        run_untaxed(started(cfg, sampled)),
{
    law_no_tax_schedule(cfg.tax_scale);
}

/// A run without tax redistributes nothing in any month.
pub proof fn law_untaxed_runs_stay_untaxed<R: Ordered>(s: SimulationView<R>, event: EventView<R>)
    requires
        s.valid(),
        run_in_bounds(s),
        run_untaxed(s),
    ensures
        run_untaxed(s.after(event)),
{
    law_parameters_never_change(s, event);
    match (s.stage, event) {
        (StageView::MovingPrice { imbalance }, EventView::Drawn { value }) => {
            lemma_order::<R>();
            let w = price_moved(s.world, imbalance, value);
            R::literals(1, 6, 1);
            assert(economy_in_bounds(w));
            law_no_tax_no_redistribution(w);
        },
        _ => {},
    }
}

proof fn lemma_replay_untaxed<R: Ordered>(s: SimulationView<R>, events: Seq<EventView<R>>)
    requires
        s.valid(),
        run_in_bounds(s),
        run_untaxed(s),
    ensures
        run_untaxed(s.replay(events)),
    decreases events.len(),
{
    if events.len() > 0 {
        law_runs_stay_in_order(s, events[0]);
        law_runs_stay_in_bounds(s, events[0]);
        law_untaxed_runs_stay_untaxed(s, events[0]);
        lemma_replay_untaxed(s.after(events[0]), events.drop_first());
    }
}

/// A run of sound settings under the regime without tax redistributes nothing in any month, whatever
/// is answered.
pub proof fn law_untaxed_runs_are_untaxed<R: Ordered>(
    cfg: Config<R>,
    sampled: Seq<(R, u32)>,
    events: Seq<EventView<R>>,
)
    requires
        cfg.regime == PolicyRegime::NoTax,
        sampled.len() == cfg.n_agents,
        is_number(cfg.tax_scale),
        price_floor::<R>().at_most(cfg.init_price),
        is_amount(cfg.productivity),
        is_amount(cfg.natural_rate),
        is_amount(cfg.target_inflation),
        is_amount(cfg.init_savings),
        forall|i: int| 0 <= i < sampled.len() ==> is_amount((#[trigger] sampled[i]).0),
    ensures
        run_untaxed(started(cfg, sampled).replay(events)),
{
    law_runs_start_in_order(cfg, sampled);
    law_runs_start_in_bounds(cfg, sampled);
    law_untaxed_runs_start_untaxed(cfg, sampled);
    lemma_replay_untaxed(started(cfg, sampled), events);
}

proof fn lemma_count_all<R>(roster: Seq<HouseholdView<R>>, work: bool)
    requires
        forall|i: int| 0 <= i < roster.len() ==> (#[trigger] roster[i]).employed == work,
    ensures
        employed_count(roster) == (if work {
            roster.len()
        } else {
            0
        }),
    decreases roster.len(),
{
    reveal(Seq::filter);
    if roster.len() > 0 {
        assert(roster[roster.len() - 1].employed == work);
        lemma_count_all(roster.drop_last(), work);
    }
}

/// A month in which everybody works has no unemployment; one in which nobody does has nothing else,
/// and no output.
pub proof fn law_work_decides_unemployment<R: Ordered>(w: WorldView<R>, work: bool)
    requires
        economy_in_bounds(w),
        is_ascending_of(w.ids(), w.households.dom()),
        w.n() > 0,
        forall|id: u64|
            w.households.contains_key(id) ==> (#[trigger] w.households[id]).employed == work,
    ensures
        work ==> metrics_of(w).unemployment_rate == zero::<R>(),
        !work ==> metrics_of(w).unemployment_rate == one::<R>(),
        !work ==> metrics_of(w).nominal_gdp == zero::<R>(),
{
    lemma_order::<R>();
    lemma_roster_in_bounds(w);
    assert forall|i: int| 0 <= i < w.roster().len() implies (#[trigger] w.roster()[i]).employed
        == work by {
        assert(w.ids().contains(w.ids()[i]));
        assert(w.roster()[i] == w.households[w.ids()[i]]);
    }
    lemma_count_all(w.roster(), work);
    law_unemployment_is_a_share::<R>(employed_count(w.roster()), w.n());
    R::literals(168, 0, 168);
    R::literals(1, 6, 1);
    R::literals(1, 9, 1);
    law_no_work_no_output(R::lit(168, 0), w.env.productivity, usable_price(w.env.price));
}

/// A household that is sure to work finds work, and one that will not work finds none, whatever is
/// drawn.
pub proof fn law_certain_decisions<R: Ordered>(h: HouseholdView<R>, p_consume: R, draw: R)
    requires
        zero::<R>().at_most(draw),
        draw.below(one()),
    ensures
        decided(h, one(), p_consume, draw).employed,
        !decided(h, zero(), p_consume, draw).employed,
{
    lemma_order::<R>();
}

/// The willingness to work of those who are sure to work, or sure not to.
pub open spec fn certain_share<R: Number>(work: bool) -> R {
    if work {
        one()
    } else {
        zero()
    }
}

/// How many of the households, in their order, have decided on the running month.
pub open spec fn decided_count<R>(s: SimulationView<R>) -> nat {
    match s.stage {
        StageView::Deciding { next, .. } => next,
        StageView::Hiring { next, .. } => next,
        StageView::MovingWages { .. } => s.world.n(),
        StageView::MovingPrice { .. } => s.world.n(),
        _ => 0,
    }
}

/// Whether in a run so far everybody has worked, or nobody has.
pub open spec fn run_certain<R: Number>(s: SimulationView<R>, work: bool) -> bool {
    &&& forall|i: int|
        0 <= i < s.metrics.len() ==> (#[trigger] s.metrics[i]).unemployment_rate == certain_share::<R>(
            !work,
        )
    &&& !work ==> forall|i: int|
        0 <= i < s.metrics.len() ==> (#[trigger] s.metrics[i]).nominal_gdp == zero::<R>()
    &&& forall|i: int|
        0 <= i < decided_count(s) ==> s.world.households[#[trigger] s.world.ids()[i]].employed == work
    &&& s.stage matches StageView::Hiring { p_work, .. } ==> p_work == certain_share::<R>(work)
}

/// Whether an answer is certain: a reply decides to work for sure, or not to work for sure, and what
/// is drawn on it lies between zero and one, one excluded.
pub open spec fn is_certain<R: Number>(s: SimulationView<R>, event: EventView<R>, work: bool) -> bool {
    match (s.stage, event) {
        (StageView::Deciding { .. }, EventView::Reply { text }) => decision_of::<R>(text).0
            == certain_share::<R>(work),
        (StageView::Hiring { .. }, EventView::Drawn { value }) => zero::<R>().at_most(value)
            && value.below(one()),
        _ => true,
    }
}

/// Whether all answers of a sequence are certain.
pub open spec fn plays_certain<R: Number>(
    s: SimulationView<R>,
    events: Seq<EventView<R>>,
    work: bool,
) -> bool
    decreases events.len(),
{
    events.len() == 0 || (is_certain(s, events[0], work) && plays_certain(
        s.after(events[0]),
        events.drop_first(),
        work,
    ))
}

proof fn lemma_certain_step<R: Ordered>(s: SimulationView<R>, event: EventView<R>, work: bool)
    requires
        s.valid(),
        run_in_bounds(s),
        s.world.n() > 0,
        run_certain(s, work),
        is_certain(s, event, work),
    ensures
        run_certain(s.after(event), work),
        s.after(event).world.n() > 0,
{
    lemma_order::<R>();
    law_runs_stay_in_order(s, event);
    let w = s.world;
    match (s.stage, event) {
        (StageView::Hiring { next, perception, p_work, p_consume }, EventView::Drawn { value }) => {
            lemma_places(w, next);
            let id = w.ids()[next as int];
            let h = decided(w.households[id], p_work, p_consume, value);
            lemma_with_household(w, id, h);
            R::order(zero(), value, zero());
            assert(h.employed == work);
            assert forall|i: int| 0 <= i < next + 1 implies s.after(event).world.households[#[trigger] s.after(
                event,
            ).world.ids()[i]].employed == work by {
                if i < next {
                    assert(w.households[w.ids()[i]].employed == work);
                }
            }
        },
        (StageView::MovingWages { next, imbalance }, EventView::Drawn { value }) => {
            lemma_places(w, next);
            let id = w.ids()[next as int];
            let moved = wage_moved(w, id, imbalance, value);
            lemma_with_household(w, id, moved.households[id]);
            assert(w.households[w.ids()[next as int]].employed == work);
            assert forall|i: int| 0 <= i < w.n() implies moved.households[#[trigger] moved.ids()[i]].employed
                == work by {
                assert(w.households[w.ids()[i]].employed == work);
            }
        },
        (StageView::MovingPrice { imbalance }, EventView::Drawn { value }) => {
            let priced = price_moved(w, imbalance, value);
            R::literals(1, 6, 1);
            assert(economy_in_bounds(priced));
            lemma_ascending_len(w.ids(), w.households.dom());
            assert forall|id: u64| priced.households.contains_key(id) implies (
            #[trigger] priced.households[id]).employed == work by {
                assert(w.ids().contains(id));
                let i = w.ids().index_of(id);
                assert(w.households[w.ids()[i]].employed == work);
            }
            law_work_decides_unemployment(priced, work);
        },
        _ => {},
    }
}

proof fn lemma_replay_certain<R: Ordered>(
    s: SimulationView<R>,
    events: Seq<EventView<R>>,
    work: bool,
)
    requires
        s.valid(),
        run_in_bounds(s),
        s.world.n() > 0,
        run_certain(s, work),
        plays_certain(s, events, work),
    ensures
        run_certain(s.replay(events), work),
    decreases events.len(),
{
    if events.len() > 0 {
        law_runs_stay_in_order(s, events[0]);
        law_runs_stay_in_bounds(s, events[0]);
        lemma_certain_step(s, events[0], work);
        lemma_replay_certain(s.after(events[0]), events.drop_first(), work);
    }
}

/// Where everybody is sure to work in every month, no month has unemployment; where nobody will work,
/// every month has nothing else, and no output.
pub proof fn law_certain_runs<R: Ordered>(
    cfg: Config<R>,
    sampled: Seq<(R, u32)>,
    events: Seq<EventView<R>>,
    work: bool,
)
    requires
        sampled.len() == cfg.n_agents,
        cfg.n_agents > 0,
        is_number(cfg.tax_scale),
        price_floor::<R>().at_most(cfg.init_price),
        is_amount(cfg.productivity),
        is_amount(cfg.natural_rate),
        is_amount(cfg.target_inflation),
        is_amount(cfg.init_savings),
        forall|i: int| 0 <= i < sampled.len() ==> is_amount((#[trigger] sampled[i]).0),
        plays_certain(started(cfg, sampled), events, work),
    ensures
        run_certain(started(cfg, sampled).replay(events), work),
{
    law_runs_start_in_order(cfg, sampled);
    law_runs_start_in_bounds(cfg, sampled);
    lemma_initial_households(cfg, sampled);
    lemma_replay_certain(started(cfg, sampled), events, work);
}

/// Wages and the price follow demand: they do not fall where it exceeds the stock, and do not rise
/// where it falls short, as long as they are not below their floor.
pub proof fn law_markets_follow_demand<R: Ordered>(x: R, imbalance: R, draw: R, floor: R)
    requires
        is_amount(floor),
        floor.at_most(x),
        is_number(imbalance),
        is_amount(draw),
    ensures
        zero::<R>().at_most(imbalance) ==> x.at_most(moved(x, imbalance, draw, floor)),
        imbalance.below(zero()) ==> moved(x, imbalance, draw, floor).at_most(x),
        floor.at_most(moved(x, imbalance, draw, floor)),
{
    lemma_order::<R>();
    R::literals(-1, 0, 0);
    R::literals(-1, 0, -1);
    let up = one::<R>().mul(draw);
    let down = R::lit(-1, 0).mul(draw);
    R::products(draw, draw, one());
    R::products(draw, draw, zero());
    R::products(R::lit(-1, 0), zero(), draw);
    R::sums(zero(), up, one());
    R::sums(down, zero(), one());
    R::products(one(), one::<R>().add(up), x);
    R::products(one::<R>().add(down), one(), x);
    R::products(x, x, one());
}

proof fn lemma_demand_is_an_amount<R: Ordered>(w: WorldView<R>)
    requires
        economy_in_bounds(w),
        is_ascending_of(w.ids(), w.households.dom()),
    ensures
        is_amount(demand_of(w)),
{
    lemma_order::<R>();
    lemma_roster_in_bounds(w);
    let price = usable_price(w.env.price);
    R::literals(1, 9, 1);
    let wants = w.roster().map_values(|h: HouseholdView<R>| h.p_consume.mul(h.savings).div(price));
    assert forall|i: int| 0 <= i < wants.len() implies is_amount(#[trigger] wants[i]) by {
        let h = w.roster()[i];
        assert(household_in_bounds(h));
        lemma_product_is_an_amount(h.p_consume, h.savings);
        R::quotients(zero(), h.p_consume.mul(h.savings), price);
    }
    lemma_total_of_amounts(wants);
}

/// The imbalance of a market lies between minus one and one.
pub proof fn law_imbalance_is_bounded<R: Ordered>(w: WorldView<R>)
    requires
        economy_in_bounds(w),
        is_ascending_of(w.ids(), w.households.dom()),
    ensures
        R::lit(-1, 0).at_most(imbalance_of(w)),
        imbalance_of(w).at_most(one()),
{
    lemma_order::<R>();
    lemma_demand_is_an_amount(w);
    let demand = demand_of(w);
    let supply = w.env.inventory;
    let larger = max_of(demand, supply);
    let base = max_of(larger, R::lit(1, 9));
    R::literals(1, 9, 1);
    let gap = demand.sub(supply);
    R::differences(zero(), supply, demand);
    R::differences(zero(), demand, supply);
    R::differences(supply, base, zero());
    assert(gap.at_most(base));
    assert(zero::<R>().sub(base).at_most(gap));
    R::quotients(gap, base, base);
    R::quotients(zero::<R>().sub(base), gap, base);
}

/// The stand-in is the more willing to work the higher unemployment is, and its willingness is a
/// share.
pub proof fn law_mock_works_more_in_a_slump<R: Ordered>(u: R, v: R)
    requires
        u.at_most(v),
    ensures
        is_share(mock_work(u)),
        mock_work(u).at_most(mock_work(v)),
{
    lemma_order::<R>();
    R::literals(40, 2, 40);
    R::literals(78, 2, 78);
    let k = R::lit(40, 2);
    R::products(u, v, k);
    R::sums(k.mul(u), k.mul(v), R::lit(78, 2));
}

/// The stand-in spends the less the higher unemployment or inflation is, and what it spends is a
/// share.
pub proof fn law_mock_saves_in_a_slump<R: Ordered>(u: R, v: R, pi: R, rho: R)
    requires
        u.at_most(v),
        pi.at_most(rho),
    ensures
        is_share(mock_consume(u, pi)),
        R::lit(5, 2).at_most(mock_consume(u, pi)),
        mock_consume(v, rho).at_most(mock_consume(u, pi)),
{
    lemma_order::<R>();
    R::literals(30, 2, 30);
    R::literals(50, 2, 50);
    R::literals(60, 2, 60);
    R::literals(5, 2, 100);
    R::literals(10, 1, 10);
    R::literals(1, 0, 1);
    let a = R::lit(30, 2);
    let b = R::lit(50, 2);
    let c = R::lit(60, 2);
    R::products(u, v, b);
    R::products(pi, rho, c);
    R::differences(b.mul(u), b.mul(v), a);
    let x = a.sub(b.mul(u));
    let y = a.sub(b.mul(v));
    R::differences(y, x, c.mul(rho));
    R::differences(c.mul(pi), c.mul(rho), x);
}

/// Whether all values of a sequence are numbers.
pub open spec fn all_numbers<R: Number>(s: Seq<R>) -> bool {
    forall|i: int| 0 <= i < s.len() ==> is_number(#[trigger] s[i])
}

proof fn lemma_mean_is_a_number<R: Ordered>(s: Seq<R>)
    requires
        all_numbers(s),
    ensures
        is_number(mean_of(s)),
{
    lemma_order::<R>();
    if s.len() > 0 {
        lemma_total_of_numbers(s);
        R::counts(s.len(), s.len());
        R::quotients(total(s), total(s), R::count_of(s.len()));
    }
}

proof fn lemma_co_moment_is_a_number<R: Ordered>(x: Seq<R>, mx: R, y: Seq<R>, my: R)
    requires
        x.len() == y.len(),
        all_numbers(x),
        all_numbers(y),
        is_number(mx),
        is_number(my),
    ensures
        is_number(co_moment(x, mx, y, my)),
        co_moment(x, mx, y, my) == co_moment(y, my, x, mx),
{
    lemma_order::<R>();
    let terms = Seq::new(x.len(), |i: int| x[i].sub(mx).mul(y[i].sub(my)));
    let swapped = Seq::new(y.len(), |i: int| y[i].sub(my).mul(x[i].sub(mx)));
    assert forall|i: int| 0 <= i < terms.len() implies is_number(#[trigger] terms[i]) && terms[i]
        == swapped[i] by {
        assert(is_number(x[i]) && is_number(y[i]));
        R::differences(x[i], x[i], mx);
        R::differences(y[i], y[i], my);
        R::signs(x[i].sub(mx), y[i].sub(my));
    }
    assert(terms =~= swapped);
    lemma_total_of_numbers(terms);
}

proof fn lemma_correlation<R: Ordered>(cov: R, vx: R, vy: R)
    requires
        is_number(cov),
        is_number(vx),
        is_number(vy),
        !vx.below(R::lit(1, 12)),
        !vy.below(R::lit(1, 12)),
    ensures
        R::lit(-1, 0).at_most(correlation_of(cov, vx, vy)),
        correlation_of(cov, vx, vy).at_most(one()),
        correlation_of(cov, vx, vy) == correlation_of(cov, vy, vx),
        correlation_of(negated(cov), vx, vy) == negated(correlation_of(cov, vx, vy)),
{
    lemma_order::<R>();
    R::literals(1, 12, 1);
    R::literals(-1, 0, 1);
    R::roots(vx, vy);
    let d = vx.geometric(vy);
    R::quotients(cov, cov, d);
    let r = cov.div(d);
    lemma_clamped(r, R::lit(-1, 0), one());
    R::signs(cov, d);
    R::signs(one(), one());
    R::signs(r, r);
    let lo = R::lit(-1, 0);
    R::differences(r, r, zero());
    lemma_negated_order(r, lo);
    lemma_negated_order(one(), r);
    lemma_negated_order(lo, r);
    lemma_negated_order(r, one());
}

proof fn lemma_negated_order<R: Ordered>(a: R, b: R)
    requires
        is_number(a),
        is_number(b),
    ensures
        is_number(negated(a)),
        a.below(b) <==> negated(b).below(negated(a)),
{
    lemma_order::<R>();
    R::signs(a, b);
    R::signs(b, a);
    R::differences(a, a, zero());
    R::differences(b, b, zero());
    if a.at_most(b) {
        R::differences(a, b, zero());
    }
    if b.at_most(a) {
        R::differences(b, a, zero());
    }
    if negated(a).at_most(negated(b)) {
        R::differences(negated(a), negated(b), zero());
    }
}

/// A correlation lies between minus one and one, and does not depend on which sample comes first.
pub proof fn law_correlations_are_bounded<R: Ordered>(x: Seq<R>, y: Seq<R>)
    requires
        all_numbers(x),
        all_numbers(y),
    ensures
        pearson_of(x, y) matches Some(r) ==> R::lit(-1, 0).at_most(r) && r.at_most(one()),
        pearson_of(x, y) == pearson_of(y, x),
{
    if x.len() == y.len() {
        let mx = mean_of(x);
        let my = mean_of(y);
        lemma_mean_is_a_number(x);
        lemma_mean_is_a_number(y);
        lemma_co_moment_is_a_number(x, mx, y, my);
        lemma_co_moment_is_a_number(x, mx, x, mx);
        lemma_co_moment_is_a_number(y, my, y, my);
        let vx = co_moment(x, mx, x, mx);
        let vy = co_moment(y, my, y, my);
        if !vx.below(R::lit(1, 12)) && !vy.below(R::lit(1, 12)) {
            lemma_correlation(co_moment(x, mx, y, my), vx, vy);
        }
    }
}

/// A sample that has a correlation correlates fully with itself.
pub proof fn law_samples_correlate_with_themselves<R: Ordered>(x: Seq<R>)
    requires
        all_numbers(x),
    ensures
        pearson_of(x, x) matches Some(r) ==> r == one::<R>(),
        pearson_of(x, x) is Some <==> x.len() >= 2 && !co_moment(
            x,
            mean_of(x),
            x,
            mean_of(x),
        ).below(R::lit(1, 12)),
{
    lemma_order::<R>();
    let m = mean_of(x);
    lemma_mean_is_a_number(x);
    lemma_co_moment_is_a_number(x, m, x, m);
    let v = co_moment(x, m, x, m);
    if !v.below(R::lit(1, 12)) {
        R::literals(1, 12, 1);
        R::literals(-1, 0, 1);
        R::roots(v, v);
        R::quotients(v, v, v);
    }
}

/// A correlation does not lie on the other side of zero than the covariance.
pub proof fn law_correlations_have_the_sign_of_the_covariance<R: Ordered>(x: Seq<R>, y: Seq<R>)
    requires
        all_numbers(x),
        all_numbers(y),
    ensures
        pearson_of(x, y) matches Some(r) ==> {
            let cov = co_moment(x, mean_of(x), y, mean_of(y));
            &&& zero::<R>().at_most(cov) ==> zero::<R>().at_most(r)
            &&& cov.at_most(zero()) ==> r.at_most(zero())
        },
{
    if x.len() == y.len() {
        lemma_order::<R>();
        let mx = mean_of(x);
        let my = mean_of(y);
        lemma_mean_is_a_number(x);
        lemma_mean_is_a_number(y);
        lemma_co_moment_is_a_number(x, mx, y, my);
        lemma_co_moment_is_a_number(x, mx, x, mx);
        lemma_co_moment_is_a_number(y, my, y, my);
        let cov = co_moment(x, mx, y, my);
        let vx = co_moment(x, mx, x, mx);
        let vy = co_moment(y, my, y, my);
        if !vx.below(R::lit(1, 12)) && !vy.below(R::lit(1, 12)) {
            R::literals(1, 12, 1);
            R::literals(-1, 0, 0);
            R::literals(0, 0, 1);
            R::roots(vx, vy);
            let d = vx.geometric(vy);
            R::quotients(cov, cov, d);
            if zero::<R>().at_most(cov) {
                R::quotients(zero(), cov, d);
            }
            if cov.at_most(zero()) {
                R::quotients(cov, zero(), d);
            }
        }
    }
}

/// The values of a sequence with their signs changed.
pub open spec fn all_negated<R: Number>(s: Seq<R>) -> Seq<R> {
    s.map_values(|x: R| negated(x))
}

proof fn lemma_total_negated<R: Ordered>(s: Seq<R>)
    requires
        all_numbers(s),
    ensures
        total(all_negated(s)) == negated(total(s)),
        is_number(total(s)),
    decreases s.len(),
{
    lemma_order::<R>();
    R::differences(zero(), zero(), zero());
    if s.len() > 0 {
        let rest = s.drop_last();
        lemma_total_negated(rest);
        lemma_total_of_numbers(rest);
        lemma_total_of_numbers(s);
        assert(all_negated(s).drop_last() =~= all_negated(rest));
        assert(is_number(s[s.len() - 1]));
        R::signs(total(rest), s.last());
    }
}

proof fn lemma_co_moment_negated<R: Ordered>(x: Seq<R>, mx: R, y: Seq<R>, my: R)
    requires
        x.len() == y.len(),
        all_numbers(x),
        all_numbers(y),
        is_number(mx),
        is_number(my),
    ensures
        co_moment(all_negated(x), negated(mx), y, my) == negated(co_moment(x, mx, y, my)),
        co_moment(all_negated(x), negated(mx), all_negated(x), negated(mx)) == co_moment(
            x,
            mx,
            x,
            mx,
        ),
{
    lemma_order::<R>();
    let nx = all_negated(x);
    let nm = negated(mx);
    let terms = Seq::new(x.len(), |i: int| x[i].sub(mx).mul(y[i].sub(my)));
    let flipped = Seq::new(nx.len(), |i: int| nx[i].sub(nm).mul(y[i].sub(my)));
    let squares = Seq::new(x.len(), |i: int| x[i].sub(mx).mul(x[i].sub(mx)));
    let others = Seq::new(nx.len(), |i: int| nx[i].sub(nm).mul(nx[i].sub(nm)));
    assert forall|i: int| 0 <= i < x.len() implies {
        &&& is_number(#[trigger] terms[i])
        &&& flipped[i] == negated(terms[i])
        &&& others[i] == squares[i]
    } by {
        assert(is_number(x[i]) && is_number(y[i]));
        R::differences(x[i], x[i], mx);
        R::differences(y[i], y[i], my);
        R::signs(x[i], mx);
        R::signs(x[i].sub(mx), y[i].sub(my));
        R::signs(x[i].sub(mx), x[i].sub(mx));
    }
    assert(flipped =~= all_negated(terms));
    assert(others =~= squares) by {
        assert forall|i: int| 0 <= i < x.len() implies others[i] == squares[i] by {
            assert(is_number(terms[i]));
        }
    }
    lemma_total_negated(terms);
}

/// A correlation changes its sign, and nothing else, with one of the samples.
pub proof fn law_correlations_flip_with_a_sample<R: Ordered>(x: Seq<R>, y: Seq<R>)
    requires
        all_numbers(x),
        all_numbers(y),
    ensures
        pearson_of(all_negated(x), y) == (match pearson_of(x, y) {
            Some(r) => Some(negated(r)),
            None => None,
        }),
{
    if x.len() == y.len() && x.len() >= 2 {
        let mx = mean_of(x);
        let my = mean_of(y);
        lemma_mean_is_a_number(x);
        lemma_mean_is_a_number(y);
        lemma_total_negated(x);
        R::counts(x.len(), x.len());
        lemma_order::<R>();
        R::signs(total(x), R::count_of(x.len()));
        assert(mean_of(all_negated(x)) == negated(mx));
        lemma_co_moment_negated(x, mx, y, my);
        lemma_co_moment_is_a_number(x, mx, y, my);
        lemma_co_moment_is_a_number(x, mx, x, mx);
        lemma_co_moment_is_a_number(y, my, y, my);
        let vx = co_moment(x, mx, x, mx);
        let vy = co_moment(y, my, y, my);
        if !vx.below(R::lit(1, 12)) && !vy.below(R::lit(1, 12)) {
            lemma_correlation(co_moment(x, mx, y, my), vx, vy);
        }
    }
}

proof fn lemma_growth_points<R: Ordered>(metrics: Seq<MacroMetrics<R>>)
    requires
        forall|i: int| 0 <= i < metrics.len() ==> row_in_bounds(#[trigger] metrics[i]),
    ensures
        forall|i: int|
            0 <= i < growth_points(metrics).len() ==> is_number(
                (#[trigger] growth_points(metrics)[i]).0,
            ) && is_number(growth_points(metrics)[i].1),
    decreases metrics.len(),
{
    lemma_order::<R>();
    if metrics.len() >= 2 {
        let rest = metrics.drop_last();
        assert forall|i: int| 0 <= i < rest.len() implies row_in_bounds(#[trigger] rest[i]) by {
            assert(rest[i] == metrics[i]);
        }
        lemma_growth_points(rest);
        let prev = metrics[metrics.len() - 2];
        let curr = metrics[metrics.len() - 1];
        assert(row_in_bounds(prev) && row_in_bounds(curr));
        R::magnitudes(prev.nominal_gdp);
        R::literals(1, 12, 1);
        R::differences(curr.unemployment_rate, curr.unemployment_rate, prev.unemployment_rate);
        R::differences(curr.nominal_gdp, curr.nominal_gdp, prev.nominal_gdp);
        if !prev.nominal_gdp.magnitude().below(R::lit(1, 12)) {
            let gain = curr.nominal_gdp.sub(prev.nominal_gdp);
            R::quotients(gain, gain, prev.nominal_gdp);
        }
        let before = growth_points(rest);
        let points = growth_points(metrics);
        assert forall|i: int| 0 <= i < points.len() implies is_number((#[trigger] points[i]).0)
            && is_number(points[i].1) by {
            if i < before.len() {
                assert(points[i] == before[i]);
            }
        }
    }
}

/// The two headline correlations of a run in bounds lie between minus one and one.
pub proof fn law_headline_correlations_are_bounded<R: Ordered>(metrics: Seq<MacroMetrics<R>>)
    requires
        forall|i: int| 0 <= i < metrics.len() ==> row_in_bounds(#[trigger] metrics[i]),
    ensures
        phillips_of(metrics) matches Some(r) ==> R::lit(-1, 0).at_most(r) && r.at_most(one()),
        okun_of(metrics) matches Some(r) ==> R::lit(-1, 0).at_most(r) && r.at_most(one()),
{
    lemma_order::<R>();
    let rows = if settled_rows(metrics).len() < 2 {
        metrics
    } else {
        settled_rows(metrics)
    };
    assert forall|i: int| 0 <= i < rows.len() implies row_in_bounds(#[trigger] rows[i]) by {
        if rows != metrics {
            lemma_filter_keeps(metrics, i);
        }
    }
    let u = unemployment_series(rows);
    let pi = inflation_series(rows);
    assert forall|i: int| 0 <= i < u.len() implies is_number(#[trigger] u[i]) by {
        assert(row_in_bounds(rows[i]));
    }
    assert forall|i: int| 0 <= i < pi.len() implies is_number(#[trigger] pi[i]) by {
        assert(row_in_bounds(rows[i]));
    }
    law_correlations_are_bounded(u, pi);
    lemma_growth_points(metrics);
    let points = growth_points(metrics);
    let du = points.map_values(|p: (R, R)| p.0);
    let growth = points.map_values(|p: (R, R)| p.1);
    assert forall|i: int| 0 <= i < du.len() implies is_number(#[trigger] du[i]) by {
        assert(is_number(points[i].0));
    }
    assert forall|i: int| 0 <= i < growth.len() implies is_number(#[trigger] growth[i]) by {
        assert(is_number(points[i].0));
    }
    law_correlations_are_bounded(du, growth);
}

proof fn lemma_filter_keeps<R: Number>(metrics: Seq<MacroMetrics<R>>, i: int)
    requires
        forall|k: int| 0 <= k < metrics.len() ==> row_in_bounds(#[trigger] metrics[k]),
        0 <= i < settled_rows(metrics).len(),
    ensures
        row_in_bounds(settled_rows(metrics)[i]),
    decreases metrics.len(),
{
    reveal(Seq::filter);
    let rest = metrics.drop_last();
    assert forall|k: int| 0 <= k < rest.len() implies row_in_bounds(#[trigger] rest[k]) by {
        assert(rest[k] == metrics[k]);
    }
    if i < settled_rows(rest).len() {
        lemma_filter_keeps(rest, i);
    } else {
        assert(row_in_bounds(metrics[metrics.len() - 1]));
    }
}

} // verus!
