//! What experiments plan and what they report, over decimal numbers and in units.

use vstd::prelude::*;

use crate::config::{schedule_of, PolicyRegime};
use crate::correlation::{is_moderate, MODERATE};
use crate::exact::{law_roundings, sum_units};
use crate::fixed::{
    abs, law_units_are_kept, lemma_literal_units, lemma_parts, lemma_quot_exact, ten_to, Fixed,
    LIMIT, ONE,
};
use crate::indicators::{
    law_means_divide_the_sum, law_products_fall_short, law_quotients_fall_short, lemma_settled,
};
use crate::metrics::{inflation_series, mean_of, unemployment_series, MacroMetrics};
use crate::number::Number;
use crate::replies::law_numerals_have_their_value;
use crate::reproduce::{expected, is_headline, met, ReproduceAnchor, ReproduceScenario};
use crate::sweep::{
    cell_of, counted, field_end, fnv, items_from, last_gdp, last_gini, lemma_over_models_len,
    lemma_over_scales_len, over_models, over_scales, plan_of, rows_at, scale_at, scale_steps,
    scales_between, settled_inflation, settled_unemployment, SweepRow,
};
use crate::text::{is_digit, numeral, trimmed};

verus! {

broadcast use law_units_are_kept;

/// The upper border of a bracket of the progressive schedule, in whole numbers; the last one has
/// none.
pub open spec fn border(k: int) -> int {
    if k == 0 {
        0
    } else if k == 1 {
        9_700
    } else if k == 2 {
        39_475
    } else if k == 3 {
        84_200
    } else if k == 4 {
        160_725
    } else if k == 5 {
        204_100
    } else {
        510_300
    }
}

/// The rate of a bracket of the progressive schedule, in percent.
pub open spec fn percent(k: int) -> int {
    if k == 0 {
        10
    } else if k == 1 {
        12
    } else if k == 2 {
        22
    } else if k == 3 {
        24
    } else if k == 4 {
        32
    } else if k == 5 {
        35
    } else {
        37
    }
}

/// Whether a rate is a percentage times a scale, up to a unit, and not above one.
pub open spec fn is_scaled(rate: Fixed, percent: int, scale: Fixed) -> bool {
    &&& percent * scale@ < 100 * ONE ==> 0 <= percent * scale@ - 100 * rate@ < 100
    &&& percent * scale@ >= 100 * ONE ==> rate@ == ONE
}

proof fn lemma_scaled(percent: int, scale: Fixed)
    requires
        0 <= percent <= 100,
        0 <= scale@ <= MODERATE,
    ensures
        is_scaled(crate::config::scaled_rate(Fixed::lit(percent, 2), scale), percent, scale),
{
    lemma_literal_units();
    reveal_with_fuel(ten_to, 14);
    let (p, s) = (percent, scale@);
    let c = Fixed::lit(percent, 2);
    assert(c@ == p * 10_000_000_000);
    let x = p * s;
    assert(c@ * s == 10_000_000_000 * x) by (nonlinear_arith)
        requires
            c@ == p * 10_000_000_000,
            x == p * s,
    ;
    assert(0 <= x <= 100 * s) by (nonlinear_arith)
        requires
            x == p * s,
            0 <= p <= 100,
            0 <= s,
    ;
    law_products_fall_short(c, scale);
}

/// The progressive schedule has seven brackets, of which each has its border and its rate times the
/// tax scale; the proportional schedule has one rate for all income, and without taxes it is zero.
pub proof fn law_schedules_are_as_published(scale: Fixed, k: int)
    requires
        0 <= scale@ <= MODERATE,
        0 <= k < 7,
    ensures
        ({
            let (brackets, rates) = schedule_of(PolicyRegime::Progressive, scale);
            &&& rates.len() == 7 && brackets.len() == 8
            &&& brackets[k]@ == border(k) * ONE
            &&& brackets[7]@ == LIMIT
            &&& is_scaled(rates[k], percent(k), scale)
        }),
        ({
            let (brackets, rates) = schedule_of(PolicyRegime::Proportional, scale);
            &&& rates.len() == 1 && brackets.len() == 2
            &&& brackets[0]@ == 0 && brackets[1]@ == LIMIT
            &&& is_scaled(rates[0], 22, scale)
        }),
        ({
            let (brackets, rates) = schedule_of(PolicyRegime::NoTax, scale);
            &&& rates.len() == 1 && brackets.len() == 2
            &&& brackets[0]@ == 0 && brackets[1]@ == LIMIT
            &&& rates[0]@ == 0
        }),
{
    lemma_literal_units();
    reveal_with_fuel(ten_to, 14);
    lemma_scaled(percent(k), scale);
    lemma_scaled(22, scale);
}

/// A run's last output and last Gini coefficient are those of its last row.
pub proof fn law_digests_show_the_last_month<R: Number>(
    metrics: Seq<MacroMetrics<R>>,
    row: MacroMetrics<R>,
)
    ensures
        last_gdp(metrics.push(row)) == row.nominal_gdp,
        last_gini(metrics.push(row)) == row.gini_savings,
        last_gdp(Seq::<MacroMetrics<R>>::empty()) == R::lit(0, 0),
        last_gini(Seq::<MacroMetrics<R>>::empty()) == R::lit(0, 0),
{
}

/// The mean inflation and the mean unemployment of a run are those of the months from the fourth
/// year on: their sum over their number, up to a unit. What came before has no part in them.
pub proof fn law_digests_leave_out_the_first_years(
    early: Seq<MacroMetrics<Fixed>>,
    late: Seq<MacroMetrics<Fixed>>,
)
    requires
        forall|i: int| 0 <= i < early.len() ==> (#[trigger] early[i]).month < 36,
        forall|i: int| 0 <= i < late.len() ==> (#[trigger] late[i]).month >= 36,
        0 < late.len() <= 1_000_000,
        forall|i: int|
            0 <= i < late.len() ==> abs((#[trigger] late[i]).inflation_rate@) <= MODERATE && abs(
                late[i].unemployment_rate@,
            ) <= MODERATE,
    ensures
        abs(
            sum_units(late.map_values(|m: MacroMetrics<Fixed>| m.inflation_rate)) - late.len()
                * settled_inflation(early + late)@,
        ) < late.len(),
        abs(
            sum_units(late.map_values(|m: MacroMetrics<Fixed>| m.unemployment_rate)) - late.len()
                * settled_unemployment(early + late)@,
        ) < late.len(),
{
    lemma_settled(early, late);
    let pi = late.map_values(|m: MacroMetrics<Fixed>| m.inflation_rate);
    let u = late.map_values(|m: MacroMetrics<Fixed>| m.unemployment_rate);
    assert(inflation_series(late) == pi);
    assert(unemployment_series(late) == u);
    assert(is_moderate(pi)) by {
        assert forall|i: int| 0 <= i < pi.len() implies abs((#[trigger] pi[i])@) <= MODERATE by {
            assert(abs(late[i].inflation_rate@) <= MODERATE);
        }
    }
    assert(is_moderate(u)) by {
        assert forall|i: int| 0 <= i < u.len() implies abs((#[trigger] u[i])@) <= MODERATE by {
            assert(abs(late[i].inflation_rate@) <= MODERATE);
        }
    }
    lemma_mean_of_moderate(pi);
    lemma_mean_of_moderate(u);
}

proof fn lemma_mean_of_moderate(s: Seq<Fixed>)
    requires
        is_moderate(s),
        s.len() > 0,
    ensures
        abs(sum_units(s) - s.len() * mean_of(s)@) < s.len(),
{
    let most = MODERATE as int;
    assert forall|i: int| 0 <= i < s.len() implies -most <= (#[trigger] s[i])@ <= most by {
        assert(abs(s[i]@) <= MODERATE);
    }
    law_means_divide_the_sum(s, -most, most);
}

/// Where a range is a whole number of steps, in millionths, its scales are its lower end, every
/// step and its upper end.
pub proof fn law_scales_take_every_step(lo: Fixed, hi: Fixed, step: Fixed, n: nat, k: int)
    requires
        lo@ % 1_000_000 == 0,
        step@ % 1_000_000 == 0,
        0 <= lo@,
        0 < step@,
        hi@ == lo@ + n * step@,
        hi@ <= MODERATE,
        n <= 1_000_000_000,
        0 <= k <= n,
    ensures
        scales_between(lo, hi, step).len() == n + 1,
        scales_between(lo, hi, step)[k]@ == lo@ + k * step@,
{
    lemma_literal_units();
    reveal_with_fuel(ten_to, 14);
    let (a, h, s, one) = (lo@, hi@, step@, ONE as int);
    let far = n * s;
    assert(far >= 0) by (nonlinear_arith)
        requires
            far == n * s,
            n >= 0,
            s > 0,
    ;
    assert(Fixed::lit(1, 9)@ == 1000);
    assert(hi.sub(lo)@ == far);
    assert(hi.sub(lo).div(step)@ == n * one) by {
        assert(far * one == (n * one) * s) by (nonlinear_arith)
            requires
                far == n * s,
        ;
        lemma_quot_exact(n * one, s);
    }
    assert(scale_steps(lo, hi, step) == n) by {
        let x = n * one + 1000;
        assert(hi.sub(lo).div(step).add(Fixed::lit(1, 9))@ == x);
        lemma_parts(x, one);
        assert(x / one == n);
    }
    let way = k * s;
    assert(0 <= way <= far) by (nonlinear_arith)
        requires
            way == k * s,
            far == n * s,
            0 <= k <= n,
            s > 0,
    ;
    assert(Fixed::count_of(k as nat)@ == k * one);
    assert(step.mul(Fixed::count_of(k as nat))@ == way) by {
        assert(s * (k * one) == way * one) by (nonlinear_arith)
            requires
                way == k * s,
        ;
        lemma_quot_exact(way, one);
    }
    let x = a + way;
    let at = lo.add(step.mul(Fixed::count_of(k as nat)));
    assert(at@ == x);
    let m = a / 1_000_000 + k * (s / 1_000_000);
    assert(x == m * 1_000_000) by (nonlinear_arith)
        requires
            x == a + k * s,
            m == a / 1_000_000 + k * (s / 1_000_000),
            a == (a / 1_000_000) * 1_000_000,
            s == (s / 1_000_000) * 1_000_000,
    ;
    let million = Fixed::lit(1_000_000, 0);
    assert(million@ == 1_000_000 * one);
    assert(at.mul(million)@ == m * one) by {
        assert(x * (1_000_000 * one) == (m * one) * one) by (nonlinear_arith)
            requires
                x == m * 1_000_000,
                one == 1_000_000_000_000,
        ;
        lemma_quot_exact(m * one, one);
    }
    let big = at.mul(million);
    assert(big.nearest()@ == m * one) by {
        assert(m * one + one / 2 == m * one + 500_000_000_000);
        assert((m * one + 500_000_000_000) / one == m);
    }
    assert(big.nearest().div(million)@ == x) by {
        assert((m * one) * one == x * (1_000_000 * one)) by (nonlinear_arith)
            requires
                x == m * 1_000_000,
                one == 1_000_000_000_000,
        ;
        lemma_quot_exact(x, 1_000_000 * one);
    }
}

/// Where there is no step to take, the lower end is the only scale.
pub proof fn law_no_step_one_scale(lo: Fixed, hi: Fixed, step: Fixed)
    requires
        -LIMIT <= step@ <= 0 || -LIMIT <= hi@ < lo@ <= LIMIT,
    ensures
        scales_between(lo, hi, step) == seq![lo],
{
    lemma_literal_units();
}

proof fn lemma_cell_over_models<R: Number>(
    n: usize,
    scale: R,
    models: Seq<Seq<char>>,
    runs: nat,
    m: int,
    run: usize,
)
    requires
        0 <= m < models.len(),
        run < runs,
    ensures
        0 <= m * runs + run < models.len() * runs,
        over_models(n, scale, models, runs)[m * runs + run] == cell_of(n, scale, models[m], run),
    decreases models.len(),
{
    let rest = models.drop_last();
    lemma_over_models_len(n, scale, rest, runs);
    let (len, r) = (models.len() as int, runs as int);
    assert(0 <= m * r + run < len * r) by (nonlinear_arith)
        requires
            0 <= m < len,
            0 <= run < r,
    ;
    if m == models.len() - 1 {
        assert(m * runs == rest.len() * runs);
    } else {
        lemma_cell_over_models(n, scale, rest, runs, m, run);
    }
}

proof fn lemma_cell_over_scales<R: Number>(
    n: usize,
    scales: Seq<R>,
    models: Seq<Seq<char>>,
    runs: nat,
    c: int,
    i: int,
)
    requires
        0 <= c < scales.len(),
        0 <= i < models.len() * runs,
    ensures
        0 <= c * (models.len() * runs) + i < scales.len() * (models.len() * runs),
        over_scales(n, scales, models, runs)[c * (models.len() * runs) + i] == over_models(
            n,
            scales[c],
            models,
            runs,
        )[i],
    decreases scales.len(),
{
    let rest = scales.drop_last();
    let each = (models.len() * runs) as int;
    lemma_over_scales_len(n, rest, models, runs);
    lemma_over_models_len(n, scales.last(), models, runs);
    let len = scales.len() as int;
    assert(0 <= c * each + i < len * each) by (nonlinear_arith)
        requires
            0 <= c < len,
            0 <= i < each,
    ;
    if c < scales.len() - 1 {
        lemma_cell_over_scales(n, rest, models, runs, c, i);
    }
}

proof fn lemma_cell_of_plan<R: Number>(
    ns: Seq<usize>,
    scales: Seq<R>,
    models: Seq<Seq<char>>,
    runs: nat,
    a: int,
    i: int,
)
    requires
        0 <= a < ns.len(),
        0 <= i < scales.len() * (models.len() * runs),
    ensures
        0 <= a * (scales.len() * (models.len() * runs)) + i < ns.len() * (scales.len() * (
        models.len() * runs)),
        plan_of(ns, scales, models, runs)[a * (scales.len() * (models.len() * runs)) + i]
            == over_scales(ns[a], scales, models, runs)[i],
    decreases ns.len(),
{
    let rest = ns.drop_last();
    let each = (scales.len() * (models.len() * runs)) as int;
    crate::sweep::law_plan_size(rest, scales, models, runs);
    lemma_over_scales_len(ns.last(), scales, models, runs);
    let len = ns.len() as int;
    assert(0 <= a * each + i < len * each) by (nonlinear_arith)
        requires
            0 <= a < len,
            0 <= i < each,
    ;
    if a < ns.len() - 1 {
        lemma_cell_of_plan(rest, scales, models, runs, a, i);
    }
}

/// A sweep goes through its numbers of households, for each of them through its tax scales, for each
/// of them through its models, and for each of them through the repetitions. Each run has its own
/// condition, and is labelled with it.
pub proof fn law_plans_are_in_order<R: Number>(
    ns: Seq<usize>,
    scales: Seq<R>,
    models: Seq<Seq<char>>,
    runs: nat,
    a: int,
    c: int,
    m: int,
    run: usize,
)
    requires
        0 <= a < ns.len(),
        0 <= c < scales.len(),
        0 <= m < models.len(),
        run < runs,
    ensures
        ({
            let each = models.len() * runs;
            let i = a * (scales.len() * each) + (c * each + (m * runs + run));
            let cell = plan_of(ns, scales, models, runs)[i];
            &&& 0 <= i < plan_of(ns, scales, models, runs).len()
            &&& cell.n_agents == ns[a]
            &&& cell.tax_scale == scales[c]
            &&& cell.llm_model == models[m]
            &&& cell.run == run
            &&& cell.seed_labels.len() == 4
            &&& cell.seed_labels[0] == ns[a] as u64
            &&& cell.seed_labels[1] == fnv(vstd::utf8::encode_utf8(scales[c].shown()))
            &&& cell.seed_labels[2] == fnv(vstd::utf8::encode_utf8(models[m]))
            &&& cell.seed_labels[3] == run as u64
        }),
{
    let each = models.len() * runs;
    lemma_cell_over_models(ns[a], scales[c], models, runs, m, run);
    lemma_cell_over_scales(ns[a], scales, models, runs, c, m * runs + run);
    lemma_cell_of_plan(ns, scales, models, runs, a, c * each + (m * runs + run));
    crate::sweep::law_plan_size(ns, scales, models, runs);
}

/// The rows at a tax scale are those whose scale differs from it by less than a billionth, in their
/// order.
pub proof fn law_rows_are_picked_by_scale(
    rows: Seq<SweepRow<Fixed>>,
    row: SweepRow<Fixed>,
    scale: Fixed,
)
    requires
        abs(row.tax_scale@ - scale@) <= LIMIT,
    ensures
        rows_at(Seq::<SweepRow<Fixed>>::empty(), scale).len() == 0,
        abs(row.tax_scale@ - scale@) < 1000 ==> rows_at(rows.push(row), scale) == rows_at(
            rows,
            scale,
        ).push(row),
        abs(row.tax_scale@ - scale@) >= 1000 ==> rows_at(rows.push(row), scale) == rows_at(
            rows,
            scale,
        ),
{
    reveal(Seq::filter);
    reveal_with_fuel(ten_to, 14);
    assert(Fixed::lit(1, 9)@ == 1000);
    assert(rows.push(row).drop_last() =~= rows);
}

/// The expectations on a run are that both its correlations are negative, that its mean inflation
/// lies between minus one half and one, and that its mean unemployment lies between zero and three
/// tenths. A correlation that does not exist is not negative.
pub proof fn law_expectations(base: ReproduceScenario<Fixed>, a: Seq<ReproduceAnchor<Fixed>>)
    requires
        expected(base, a),
        base.phillips_r matches Some(x) ==> abs(x@) <= LIMIT,
        base.okun_r matches Some(x) ==> abs(x@) <= LIMIT,
    ensures
        a.len() == 4,
        a[0].pass <==> (base.phillips_r matches Some(x) && x@ < 0),
        a[1].pass <==> (base.okun_r matches Some(x) && x@ < 0),
        a[2].pass <==> -ONE <= 2 * base.mean_inflation_3y@ <= 2 * ONE,
        a[3].pass <==> 0 <= 10 * base.mean_unemployment_3y@ <= 3 * ONE,
        a[0].observed == base.phillips_r,
        a[1].observed == base.okun_r,
        a[2].observed == Some(base.mean_inflation_3y),
        a[3].observed == Some(base.mean_unemployment_3y),
{
    lemma_literal_units();
    reveal_with_fuel(ten_to, 14);
    assert(Fixed::lit(-5, 1)@ == -500_000_000_000);
    assert(Fixed::lit(30, 2)@ == 300_000_000_000);
}

/// An expectation that is met counts as one, and one that is not as none.
pub proof fn law_met_expectations_count<R>(anchors: Seq<ReproduceAnchor<R>>, a: ReproduceAnchor<R>)
    ensures
        met(Seq::<ReproduceAnchor<R>>::empty()) == 0,
        met(anchors.push(a)) == met(anchors) + (if a.pass {
            1nat
        } else {
            0
        }),
{
    reveal(Seq::filter);
    assert(anchors.push(a).drop_last() =~= anchors);
}

/// A count is read back from its numeral, also with a plus sign; what does not consist of digits is
/// no count.
pub proof fn law_counts_are_read_back(n: nat, s: Seq<char>, k: int)
    requires
        n <= usize::MAX,
        0 <= k < s.len(),
    ensures
        counted(numeral(n)) == Some(n),
        counted(seq!['+'] + numeral(n)) == Some(n),
        !is_digit(s[k]) && (k > 0 || s[k] != '+') ==> counted(s) is None,
        counted(Seq::empty()) is None,
{
    law_numerals_have_their_value(n);
    let t = numeral(n);
    assert(is_digit(t[0]));
    assert((seq!['+'] + t).skip(1) =~= t);
    if !is_digit(s[k]) && (k > 0 || s[k] != '+') {
        if s[0] == '+' {
            assert(s.skip(1)[k - 1] == s[k]);
        }
    }
}

proof fn lemma_field_end_is(s: Seq<char>, i: int, end: int)
    requires
        0 <= i <= end <= s.len(),
        forall|k: int| i <= k < end ==> #[trigger] s[k] != ',',
        end < s.len() ==> s[end] == ',',
    ensures
        field_end(s, i) == end,
    decreases end - i,
{
    if i < end {
        assert(s[i] != ',');
        lemma_field_end_is(s, i + 1, end);
    }
}

/// The first item of a list is what stands before the first comma, without the white space around
/// it; it is left out where nothing else stands there. The other items are those behind the comma.
pub proof fn law_items_stand_between_commas(s: Seq<char>, i: int, end: int)
    requires
        0 <= i <= end <= s.len(),
        forall|k: int| i <= k < end ==> #[trigger] s[k] != ',',
        end < s.len() ==> s[end] == ',',
    ensures
        ({
            let item = trimmed(s.subrange(i, end));
            let rest = if end < s.len() {
                items_from(s, end + 1)
            } else {
                Seq::empty()
            };
            &&& item.len() > 0 ==> items_from(s, i) == seq![item] + rest
            &&& item.len() == 0 ==> items_from(s, i) == rest
        }),
{
    lemma_field_end_is(s, i, end);
    let rest = if end < s.len() {
        items_from(s, end + 1)
    } else {
        Seq::empty()
    };
    assert(items_from(s, end + 1) =~= rest);
    assert(Seq::<Seq<char>>::empty() + rest =~= rest);
}

/// The hash of a label starts from its offset; each byte is mixed in by an exclusive or, and then
/// multiplied by the prime.
pub proof fn law_labels_are_hashed_byte_by_byte(bytes: Seq<u8>, b: u8)
    ensures
        fnv(Seq::<u8>::empty()) == 14_695_981_039_346_656_037,
        fnv(bytes.push(b)) == ((fnv(bytes) ^ (b as u64)) * 1_099_511_628_211)
            % 18_446_744_073_709_551_616,
{
    assert(bytes.push(b).drop_last() =~= bytes);
}

/// A scale is a number of millionths, and none is closer to where its step leads, unless it is one
/// of the two ends.
pub proof fn law_scales_are_in_millionths(lo: Fixed, hi: Fixed, step: Fixed, k: nat)
    requires
        0 <= lo@ <= hi@ <= MODERATE,
        0 <= step@ <= MODERATE,
        lo@ + k * step@ <= MODERATE,
        k <= 1_000_000_000,
    ensures
        ({
            let r = scale_at(lo, hi, step, k);
            ||| r == lo
            ||| r == hi
            ||| r@ % 1_000_000 == 0 && abs(2 * (r@ - (lo@ + k * step@))) <= 1_000_000
        }),
{
    lemma_literal_units();
    reveal_with_fuel(ten_to, 14);
    let (a, s, one) = (lo@, step@, ONE as int);
    let way = k * s;
    assert(way >= 0) by (nonlinear_arith)
        requires
            way == k * s,
            k >= 0,
            s >= 0,
    ;
    assert(Fixed::count_of(k)@ == k * one);
    assert(step.mul(Fixed::count_of(k))@ == way) by {
        assert(s * (k * one) == way * one) by (nonlinear_arith)
            requires
                way == k * s,
        ;
        lemma_quot_exact(way, one);
    }
    let x = a + way;
    let at = lo.add(step.mul(Fixed::count_of(k)));
    assert(at@ == x);
    let million = Fixed::lit(1_000_000, 0);
    assert(million@ == 1_000_000 * one);
    assert(at.mul(million)@ == 1_000_000 * x) by {
        assert(x * (1_000_000 * one) == (1_000_000 * x) * one) by (nonlinear_arith);
        lemma_quot_exact(1_000_000 * x, one);
    }
    let big = at.mul(million);
    law_roundings(big);
    let y = big.nearest()@;
    let m = y / one;
    lemma_parts(y, one);
    assert(y == m * one);
    let d = 1_000_000 * one;
    let r = big.nearest().div(million)@;
    assert(r == m * 1_000_000) by {
        assert(y * one == (m * 1_000_000) * d) by (nonlinear_arith)
            requires
                y == m * one,
                d == 1_000_000 * one,
                one == 1_000_000_000_000,
        ;
        lemma_quot_exact(m * 1_000_000, d);
    }
}

/// There are as many steps between two scales as fit, where a billionth of a step may be missing
/// from the last one.
pub proof fn law_as_many_steps_as_fit(lo: Fixed, hi: Fixed, step: Fixed)
    requires
        0 <= lo@ <= hi@ <= MODERATE,
        1_000_000 <= step@ <= MODERATE,
    ensures
        ({
            let n = scale_steps(lo, hi, step) as int;
            let room = (hi@ - lo@) * ONE + 1000 * step@;
            n * (step@ * ONE) <= room < (n + 1) * (step@ * ONE) + step@
        }),
{
    lemma_literal_units();
    reveal_with_fuel(ten_to, 14);
    assert(Fixed::lit(1, 9)@ == 1000);
    let (s, one) = (step@, ONE as int);
    let far = hi.sub(lo);
    let gap = hi@ - lo@;
    assert(far@ == gap);
    assert(abs(far@) * one <= LIMIT * s) by {
        assert(gap * one <= MODERATE * ONE);
        assert(LIMIT * s >= LIMIT * 1_000_000) by (nonlinear_arith)
            requires
                s >= 1_000_000,
        ;
    }
    law_quotients_fall_short(far, step);
    let q = far.div(step)@;
    assert(q <= 100_000_000_000_000_000_000_000_000) by (nonlinear_arith)
        requires
            s * q <= gap * one,
            gap <= 100_000_000_000_000_000_000,
            one == 1_000_000_000_000,
            s >= 1_000_000,
            q >= 0,
    ;
    let x = far.div(step).add(Fixed::lit(1, 9));
    assert(x@ == q + 1000);
    law_roundings(x);
    let n = scale_steps(lo, hi, step) as int;
    assert(0 <= x@ - n * one < one);
    assert(n * (s * one) <= gap * one + 1000 * s < (n + 1) * (s * one) + s) by (nonlinear_arith)
        requires
            0 <= q + 1000 - n * one < one,
            s * q <= gap * one,
            gap * one - s * q < s,
            s > 0,
    ;
}

/// The run that expectations are on is the one under the progressive regime.
pub proof fn law_the_headline_is_progressive<R>(s: ReproduceScenario<R>)
    ensures
        is_headline(s) <==> s.regime@ == PolicyRegime::Progressive.name(),
{
}

} // verus!
