//! What the end of a month does to households and to the economy, over decimal numbers and in units.

use vstd::prelude::*;

use crate::correlation::is_moderate;
use crate::exact::{
    all_in_limits, law_tax_is_handed_back, law_totals_are_exact, over_roster, sum_units,
};
use crate::fixed::{
    abs, law_same_units_same_number, law_units_are_kept, lemma_literal_units, lemma_quot_exact,
    ten_to, Fixed, LIMIT, ONE,
};
use crate::indicators::{
    law_means_divide_the_sum, law_output_is_valued_work, law_products_fall_short,
    law_quotients_fall_short, law_unemployment_counts_the_idle,
};
use crate::laws::{
    economy_in_bounds, household_in_bounds, is_fair, law_tax_grows_with_income,
    law_tax_is_within_income, lemma_order, lemma_roster_in_bounds, lemma_spending_within_savings,
};
use crate::mechanisms::{
    employed_count, metrics_of, redistribution_of, remembered, reflected, settled_household,
    settled_world, spending_of, tax_due, tax_of,
};
use crate::metrics::{gini_of, inflation_of};
use crate::monthly::{counting_price, lemma_counting_price};
use crate::number::{zero, Number};
use crate::spread::{law_gini_of_equals_is_zero, law_gini_of_one_owner};
use crate::world::{is_ascending_of, HouseholdView, MacroEnvView, WorldView};

verus! {

broadcast use law_units_are_kept;

/// What a household earns in a month, in units: the wage of a month's hours where it works.
pub open spec fn earned(h: HouseholdView<Fixed>) -> int {
    if h.employed {
        168 * h.wage@
    } else {
        0
    }
}

/// Income is what is earned.
pub proof fn law_income_is_the_wage_of_a_month(h: HouseholdView<Fixed>)
    requires
        0 <= h.wage@,
        168 * h.wage@ <= LIMIT,
    ensures
        h.income()@ == earned(h),
{
    lemma_literal_units();
    crate::fixed::lemma_ten_to_twelve();
    let w = h.wage@;
    let one = ONE as int;
    assert(Fixed::lit(168, 0)@ == 168 * one);
    lemma_quot_exact(168 * w, one);
    assert(w * (168 * one) == (168 * w) * one) by (nonlinear_arith);
}

/// A household spends its share to consume of its savings, up to a unit, and nothing where it has
/// debts.
pub proof fn law_spending_is_a_part_of_savings(h: HouseholdView<Fixed>)
    requires
        0 <= h.p_consume@ <= ONE,
        h.savings@ <= LIMIT,
    ensures
        0 <= h.savings@ ==> 0 <= h.p_consume@ * h.savings@ - ONE * spending_of(h)@ < ONE,
        h.savings@ <= 0 ==> spending_of(h)@ == 0,
{
    lemma_literal_units();
    let (c, s, one) = (h.p_consume@, h.savings@, ONE as int);
    if s > 0 {
        assert(0 <= c * s <= LIMIT * one) by (nonlinear_arith)
            requires
                0 <= c <= one,
                0 < s <= LIMIT,
        ;
        law_products_fall_short(h.p_consume, h.savings);
    } else {
        assert(c * 0 == 0) by (nonlinear_arith);
        if s == 0 {
            assert(c * s == 0) by (nonlinear_arith)
                requires
                    s == 0,
            ;
        }
        law_products_fall_short(h.p_consume, Fixed::lit(0, 0));
    }
}

proof fn lemma_settled_roster<R: Number>(w: WorldView<R>)
    requires
        is_ascending_of(w.ids(), w.households.dom()),
    ensures
        settled_world(w).households.dom() == w.households.dom(),
        settled_world(w).roster().len() == w.roster().len(),
        forall|i: int|
            0 <= i < w.roster().len() ==> (#[trigger] settled_world(w).roster()[i])
                == settled_household(w.roster()[i], w.env, redistribution_of(w)),
{
    let after = settled_world(w);
    assert(after.households.dom() =~= w.households.dom());
    assert forall|i: int| 0 <= i < w.roster().len() implies (#[trigger] after.roster()[i])
        == settled_household(w.roster()[i], w.env, redistribution_of(w)) by {
        assert(w.ids().contains(w.ids()[i]));
    }
}

/// What a household saves at the end of a month is what it had, less what it spent, with what it
/// earned, less its tax, and with its part of the redistribution. It spent its share to consume of
/// what it had, up to a unit, and nothing where it had debts; its tax is the tax on what it earned. What it earns in an hour, what
/// it decided and what it remembers stay as they are.
pub proof fn law_households_settle(w: WorldView<Fixed>, id: u64)
    requires
        is_fair(w.env.tax_brackets, w.env.tax_rates),
        w.households.contains_key(id),
        0 <= w.households[id].wage@,
        168 * w.households[id].wage@ <= LIMIT,
        0 <= w.households[id].p_consume@ <= ONE,
        redistribution_of(w)@ >= 0,
        -LIMIT <= w.households[id].savings@,
        w.households[id].savings@ + earned(w.households[id]) + redistribution_of(w)@ <= LIMIT,
    ensures
        settled_world(w).households.contains_key(id),
        ({
            let h = w.households[id];
            let after = settled_world(w).households[id];
            &&& after.savings@ == h.savings@ - after.last_consumption@ + earned(h) - after.last_tax@
                + settled_world(w).env.redistribution@
            &&& 0 <= h.savings@ ==> 0 <= h.p_consume@ * h.savings@ - ONE * after.last_consumption@
                < ONE
            &&& h.savings@ <= 0 ==> after.last_consumption@ == 0
            &&& forall|z: Fixed|
                z@ == earned(h) ==> after.last_tax == #[trigger] tax_of(
                    z,
                    w.env.tax_brackets,
                    w.env.tax_rates,
                )
            &&& after == (HouseholdView {
                savings: after.savings,
                last_consumption: after.last_consumption,
                last_tax: after.last_tax,
                ..h
            })
        }),
{
    lemma_order::<Fixed>();
    lemma_literal_units();
    let h = w.households[id];
    law_income_is_the_wage_of_a_month(h);
    law_spending_is_a_part_of_savings(h);
    let (c, s, spent) = (h.p_consume@, h.savings@, spending_of(h)@);
    if s > 0 {
        assert(c * s <= ONE * s) by (nonlinear_arith)
            requires
                0 <= c <= ONE,
                s > 0,
        ;
        assert(c * s >= 0) by (nonlinear_arith)
            requires
                0 <= c,
                s > 0,
        ;
        assert(0 <= spent <= s);
    }
    law_tax_is_within_income(h.income(), w.env.tax_brackets, w.env.tax_rates);
    law_tax_grows_with_income(h.income(), h.income(), w.env.tax_brackets, w.env.tax_rates);
    let after = settled_world(w).households[id];
    assert forall|z: Fixed| z@ == earned(h) implies after.last_tax == #[trigger] tax_of(
        z,
        w.env.tax_brackets,
        w.env.tax_rates,
    ) by {
        law_same_units_same_number(z, h.income());
    }
}

/// Every household is handed the same: together the tax that all paid, up to a unit each.
pub proof fn law_redistribution_is_equal(w: WorldView<Fixed>)
    requires
        economy_in_bounds(w),
        is_ascending_of(w.ids(), w.households.dom()),
        0 < w.n() <= u64::MAX,
        over_roster(w, |h: HouseholdView<Fixed>| h.savings) + 2 * over_roster(
            w,
            |h: HouseholdView<Fixed>| h.income(),
        ) <= LIMIT,
    ensures
        ({
            let after = settled_world(w);
            0 <= over_roster(after, |h: HouseholdView<Fixed>| h.last_tax) - w.n()
                * after.env.redistribution@ < w.n()
        }),
{
    let left = law_tax_is_handed_back(w);
    lemma_settled_roster(w);
    assert(settled_world(w).roster().map_values(|h: HouseholdView<Fixed>| h.last_tax)
        =~= w.roster().map_values(|h: HouseholdView<Fixed>| tax_due(h, w.env)));
}

proof fn lemma_bought(spent: Seq<Fixed>, price: Fixed)
    requires
        all_in_limits(spent),
        0 < price@,
        sum_units(spent) * ONE <= LIMIT * price@,
    ensures
        ({
            let goods = spent.map_values(|c: Fixed| c.div(price));
            &&& all_in_limits(goods)
            &&& sum_units(goods) * price@ <= sum_units(spent) * ONE
            &&& sum_units(spent) * ONE <= sum_units(goods) * price@ + spent.len() * price@
        }),
    decreases spent.len(),
{
    let f = |c: Fixed| c.div(price);
    let goods = spent.map_values(f);
    let p = price@;
    if spent.len() > 0 {
        let rest = spent.drop_last();
        let c = spent[spent.len() - 1];
        assert forall|i: int| 0 <= i < rest.len() implies 0 <= (#[trigger] rest[i])@ <= LIMIT by {
            assert(rest[i] == spent[i]);
        }
        crate::exact::lemma_sum_is_not_negative(rest);
        lemma_bought(rest, price);
        law_quotients_fall_short(c, price);
        assert(goods.drop_last() =~= rest.map_values(f));
        assert(goods.last() == f(c));
        let (a, b, n) = (sum_units(rest.map_values(f)), f(c)@, spent.len() as int);
        assert((a + b) * p == a * p + b * p && p * b == b * p) by (nonlinear_arith);
        assert((n - 1) * p + p == n * p) by (nonlinear_arith);
        assert(b <= LIMIT);
        assert forall|i: int| 0 <= i < goods.len() implies 0 <= (#[trigger] goods[i])@ <= LIMIT by {
            if i < rest.len() {
                assert(goods[i] == rest.map_values(f)[i]);
            }
        }
    } else {
        assert(0 * p == 0) by (nonlinear_arith);
    }
}

/// The stock goes down by the goods that what was spent buys at the price, up to a unit for each
/// household, and not below zero.
pub proof fn law_goods_leave_the_stock(w: WorldView<Fixed>) -> (sold: int)
    requires
        economy_in_bounds(w),
        is_ascending_of(w.ids(), w.households.dom()),
        over_roster(settled_world(w), |h: HouseholdView<Fixed>| h.last_consumption) * ONE <= LIMIT
            * counting_price(w.env),
    ensures
        sold >= 0,
        ({
            let after = settled_world(w);
            let spent = over_roster(after, |h: HouseholdView<Fixed>| h.last_consumption);
            let price = counting_price(w.env);
            &&& sold * price <= spent * ONE
            &&& spent * ONE <= sold * price + w.n() * price
            &&& after.env.inventory@ == (if sold < w.env.inventory@ {
                w.env.inventory@ - sold
            } else {
                0
            })
        }),
{
    lemma_order::<Fixed>();
    lemma_literal_units();
    reveal_with_fuel(ten_to, 14);
    assert(Fixed::lit(1, 6)@ == 1_000_000);
    lemma_counting_price(w.env);
    lemma_roster_in_bounds(w);
    lemma_settled_roster(w);
    let price = crate::mechanisms::usable_price(w.env.price);
    let spent = w.roster().map_values(|h: HouseholdView<Fixed>| spending_of(h));
    assert(settled_world(w).roster().map_values(|h: HouseholdView<Fixed>| h.last_consumption)
        =~= spent);
    assert forall|i: int| 0 <= i < spent.len() implies 0 <= (#[trigger] spent[i])@ <= LIMIT by {
        assert(household_in_bounds(w.roster()[i]));
        lemma_spending_within_savings(w.roster()[i]);
    }
    lemma_bought(spent, price);
    let goods = spent.map_values(|c: Fixed| c.div(price));
    assert(goods =~= w.roster().map_values(|h: HouseholdView<Fixed>| spending_of(h).div(price)));
    law_totals_are_exact(goods);
    crate::exact::lemma_sum_is_not_negative(goods);
    let (g, p) = (sum_units(goods), price@);
    assert(g <= LIMIT) by (nonlinear_arith)
        requires
            g * p <= LIMIT * p,
            p > 0,
    ;
    g
}

/// The month's unemployment joins the record of the year, and the price that of the year's prices,
/// whose mean becomes the annual price when the year is over. No other number of the economy
/// changes but the stock and the redistribution.
pub proof fn law_the_year_is_recorded(w: WorldView<Fixed>, year: nat, month: nat)
    requires
        w.t == 12 * year + month + 1,
        month < 12,
        0 < w.n() <= u64::MAX,
        employed_count(w.roster()) <= w.n(),
    ensures
        ({
            let (env, after) = (w.env, settled_world(w).env);
            let n = w.n();
            &&& after.year_unemp_buffer.len() == env.year_unemp_buffer.len() + 1
            &&& after.year_unemp_buffer.drop_last() == env.year_unemp_buffer
            &&& 0 <= after.year_unemp_buffer.last()@ * n - (n - employed_count(w.roster())) * ONE
                < n
            &&& month < 11 ==> after.price_history == env.price_history && after.year_price_buffer
                == env.year_price_buffer.push(env.price)
            &&& month == 11 ==> after.year_price_buffer.len() == 0 && after.price_history.len()
                == env.price_history.len() + 1 && after.price_history.drop_last()
                == env.price_history
            &&& month == 11 && is_moderate(env.year_price_buffer.push(env.price)) ==> abs(
                sum_units(env.year_price_buffer) + env.price@ - (env.year_price_buffer.len() + 1)
                    * after.price_history.last()@,
            ) <= env.year_price_buffer.len()
            &&& after == (MacroEnvView {
                inventory: after.inventory,
                redistribution: after.redistribution,
                year_unemp_buffer: after.year_unemp_buffer,
                price_history: after.price_history,
                year_price_buffer: after.year_price_buffer,
                ..env
            })
            &&& settled_world(w).t == w.t
        }),
{
    law_unemployment_counts_the_idle(employed_count(w.roster()), w.n());
    assert(w.month() == 12 * year + month);
    assert((w.month() + 1) % 12 == (month + 1) % 12);
    let (env, after) = (w.env, settled_world(w).env);
    assert(after.year_unemp_buffer.drop_last() =~= env.year_unemp_buffer);
    let prices = env.year_price_buffer.push(env.price);
    assert(prices.drop_last() =~= env.year_price_buffer);
    if month == 11 {
        assert(after.price_history.drop_last() =~= env.price_history);
        if is_moderate(prices) {
            let most = crate::correlation::MODERATE as int;
            assert forall|i: int| 0 <= i < prices.len() implies -most <= (#[trigger] prices[i])@
                <= most by {
                assert(abs(prices[i]@) <= most);
            }
            law_means_divide_the_sum(prices, -most, most);
        }
    }
}

/// The Gini coefficient of a month is that of the savings with which the month ends. It is zero
/// where all households end with the same.
pub proof fn law_equal_savings_show_no_spread(w: WorldView<Fixed>, x: int)
    requires
        is_ascending_of(w.ids(), w.households.dom()),
        0 < w.roster().len() <= u64::MAX,
        0 <= x,
        (2 * w.roster().len()) * (w.roster().len() * x) <= LIMIT,
        forall|i: int|
            0 <= i < w.roster().len() ==> (#[trigger] settled_world(w).roster()[i]).savings@ == x,
    ensures
        metrics_of(w).gini_savings@ == 0,
{
    lemma_literal_units();
    lemma_settled_roster(w);
    let after = settled_world(w).roster();
    let v = after.map_values(
        |h: HouseholdView<Fixed>| crate::number::max_of(h.savings, Fixed::lit(0, 0)),
    );
    assert forall|i: int| 0 <= i < v.len() implies (#[trigger] v[i])@ == x && x <= LIMIT by {
        assert(after[i].savings@ == x);
    }
    assert(v[0]@ == x);
    crate::indicators::lemma_sum_between(v, x, x);
    law_gini_of_equals_is_zero(v, x);
}

/// It is all but one of the households over all of them where one household ends with everything.
pub proof fn law_one_owner_shows_the_widest_spread(w: WorldView<Fixed>, k: int)
    requires
        is_ascending_of(w.ids(), w.households.dom()),
        0 <= k < w.roster().len() <= u64::MAX,
        0 < settled_world(w).roster()[k].savings@,
        (2 * w.roster().len()) * settled_world(w).roster()[k].savings@ <= LIMIT,
        forall|i: int|
            0 <= i < w.roster().len() && i != k ==> (#[trigger] settled_world(
                w,
            ).roster()[i]).savings@ <= 0,
    ensures
        metrics_of(w).gini_savings@ == ((w.roster().len() - 1) * ONE) / (w.roster().len() as int),
{
    lemma_literal_units();
    lemma_settled_roster(w);
    let after = settled_world(w).roster();
    let v = after.map_values(
        |h: HouseholdView<Fixed>| crate::number::max_of(h.savings, Fixed::lit(0, 0)),
    );
    assert forall|i: int| 0 <= i < v.len() implies (#[trigger] v[i])@ == (if i == k {
        after[k].savings@
    } else {
        0
    }) by {
        assert(i != k ==> after[i].savings@ <= 0);
    }
    assert(v[k]@ == after[k].savings@);
    law_gini_of_one_owner(v, k);
}

/// It is the same for two economies that end the month with the same savings, whatever else their
/// households decide or earn.
pub proof fn law_spread_depends_on_savings_alone<R: Number>(v: WorldView<R>, w: WorldView<R>)
    requires
        settled_world(v).roster().len() == settled_world(w).roster().len(),
        forall|i: int|
            0 <= i < settled_world(v).roster().len() ==> (#[trigger] settled_world(
                v,
            ).roster()[i]).savings == settled_world(w).roster()[i].savings,
    ensures
        metrics_of(v).gini_savings == metrics_of(w).gini_savings,
{
    let (a, b) = (settled_world(v).roster(), settled_world(w).roster());
    let f = |h: HouseholdView<R>| crate::number::max_of(h.savings, R::lit(0, 0));
    assert(a.map_values(f) =~= b.map_values(f)) by {
        assert forall|i: int| 0 <= i < a.len() implies f(a[i]) == f(#[trigger] b[i]) by {
            assert(a[i].savings == b[i].savings);
        }
    }
}

/// A month's row has the means of the shares that households decided on, each under its own name.
pub proof fn law_rows_have_the_mean_decisions(w: WorldView<Fixed>)
    requires
        is_ascending_of(w.ids(), w.households.dom()),
        0 < w.roster().len() <= 1_000_000,
        forall|i: int|
            0 <= i < w.roster().len() ==> 0 <= (#[trigger] w.roster()[i]).p_work@ <= ONE && 0
                <= w.roster()[i].p_consume@ <= ONE,
    ensures
        abs(
            over_roster(w, |h: HouseholdView<Fixed>| h.p_work) - w.roster().len() * metrics_of(
                w,
            ).avg_work_propensity@,
        ) < w.roster().len(),
        abs(
            over_roster(w, |h: HouseholdView<Fixed>| h.p_consume) - w.roster().len() * metrics_of(
                w,
            ).avg_consume_propensity@,
        ) < w.roster().len(),
{
    lemma_settled_roster(w);
    let after = settled_world(w).roster();
    let (f, g) = (|h: HouseholdView<Fixed>| h.p_work, |h: HouseholdView<Fixed>| h.p_consume);
    let (s, t) = (w.roster().map_values(f), w.roster().map_values(g));
    assert(after.map_values(f) =~= s);
    assert(after.map_values(g) =~= t);
    assert forall|i: int| 0 <= i < s.len() implies 0 <= (#[trigger] s[i])@ <= ONE by {
        assert(0 <= w.roster()[i].p_work@ <= ONE);
    }
    assert forall|i: int| 0 <= i < t.len() implies 0 <= (#[trigger] t[i])@ <= ONE by {
        assert(0 <= w.roster()[i].p_consume@ <= ONE);
    }
    law_means_divide_the_sum(s, 0, ONE as int);
    law_means_divide_the_sum(t, 0, ONE as int);
}

/// A month's row is dated, and shows the price, the interest, the redistribution and the unemployment
/// with which the month ends, and the inflation of the years before it.
pub proof fn law_rows_show_the_month(w: WorldView<Fixed>, year: nat, month: nat)
    requires
        w.t == 12 * year + month + 1,
        month < 12,
        w.t <= usize::MAX,
    ensures
        ({
            let row = metrics_of(w);
            let after = settled_world(w).env;
            &&& row.month == 12 * year + month
            &&& row.year == year
            &&& row.price == after.price
            &&& row.interest_rate == after.interest_rate
            &&& row.redistribution == after.redistribution
            &&& row.unemployment_rate == after.year_unemp_buffer.last()
            &&& row.inflation_rate == inflation_of(w.env.price_history)
        }),
{
    assert(w.month() == 12 * year + month);
    assert((12 * year + month) / 12 == year);
}

/// The output of a month is what those at work produce in its hours, at the price.
pub proof fn law_rows_value_the_work(w: WorldView<Fixed>)
    requires
        0 <= w.env.productivity@,
        0 <= w.env.price@ <= LIMIT,
        ({
            let work = employed_count(w.roster()) * (168 * ONE);
            &&& work <= LIMIT
            &&& work * w.env.productivity@ <= LIMIT * ONE
            &&& (work * w.env.productivity@) * counting_price(w.env) <= LIMIT * ONE
        }),
    ensures
        ({
            let work = employed_count(w.roster()) * (168 * ONE);
            let exact = (work * w.env.productivity@) * counting_price(w.env);
            let r = metrics_of(w).nominal_gdp@;
            &&& (r * ONE) * ONE <= exact
            &&& exact < (r * ONE) * ONE + (ONE + counting_price(w.env)) * ONE
        }),
{
    lemma_literal_units();
    lemma_counting_price(w.env);
    crate::fixed::lemma_ten_to_twelve();
    let hours = Fixed::lit(168, 0);
    assert(hours@ == 168 * ONE);
    let n = employed_count(w.roster());
    assert(n * (168 * ONE) == 168 * (n * ONE)) by (nonlinear_arith);
    law_output_is_valued_work(
        n,
        hours,
        w.env.productivity,
        crate::mechanisms::usable_price(w.env.price),
    );
}

/// At the end of a month every household adds one note to what it remembers, and keeps the latest
/// ones, in their order, up to the given number. Whether it worked becomes whether it worked last
/// month. Nothing else changes, for anyone.
pub proof fn law_memory_keeps_the_latest<R: Number>(w: WorldView<R>, length: nat, id: u64, i: int)
    requires
        w.households.contains_key(id),
        length > 0,
        0 <= i < remembered(w, length).households[id].memory.len(),
    ensures
        ({
            let (h, after) = (w.households[id], remembered(w, length).households[id]);
            let (m, n) = (h.memory.len(), after.memory.len());
            &&& n == (if m < length {
                m + 1
            } else {
                length
            })
            &&& i < n - 1 ==> after.memory[i] == h.memory[m - (n - 1) + i]
            &&& i == n - 1 ==> after.memory[i] == crate::mechanisms::note_on(h, w.month())
            &&& after.employed_prev == h.employed
            &&& after == (HouseholdView {
                memory: after.memory,
                employed_prev: after.employed_prev,
                ..h
            })
        }),
        remembered(w, length).env == w.env,
        remembered(w, length).t == w.t,
        remembered(w, length).households.dom() == w.households.dom(),
{
    assert(remembered(w, length).households.dom() =~= w.households.dom());
}

/// A reflection replaces that of its household, without the blanks around it, and nothing else.
pub proof fn law_reflections_are_personal<R: Number>(w: WorldView<R>, id: u64, text: Seq<char>)
    requires
        w.households.contains_key(id),
    ensures
        reflected(w, id, text).households[id] == (HouseholdView {
            reflection: crate::text::trimmed(text),
            ..w.households[id]
        }),
        forall|other: u64|
            other != id && w.households.contains_key(other) ==> (#[trigger] reflected(
                w,
                id,
                text,
            ).households[other]) == w.households[other],
        reflected(w, id, text).households.dom() == w.households.dom(),
        reflected(w, id, text).env == w.env,
        reflected(w, id, text).t == w.t,
{
    assert(reflected(w, id, text).households.dom() =~= w.households.dom());
}

/// It is the Gini coefficient of the savings, where debts count as nothing.
pub proof fn law_spread_is_that_of_savings(w: WorldView<Fixed>, v: Seq<Fixed>)
    requires
        v.len() == settled_world(w).roster().len(),
        forall|i: int|
            0 <= i < v.len() ==> {
                let s = (#[trigger] settled_world(w).roster()[i]).savings@;
                -LIMIT <= s <= LIMIT && v[i]@ == (if s > 0 {
                    s
                } else {
                    0
                })
            },
    ensures
        metrics_of(w).gini_savings == gini_of(v),
{
    lemma_literal_units();
    let after = settled_world(w).roster();
    let u = after.map_values(
        |h: HouseholdView<Fixed>| crate::number::max_of(h.savings, Fixed::lit(0, 0)),
    );
    assert forall|i: int| 0 <= i < u.len() implies u[i] == #[trigger] v[i] by {
        let s = after[i].savings@;
        assert(-LIMIT <= s <= LIMIT);
        assert(u[i]@ == v[i]@);
        law_same_units_same_number(u[i], v[i]);
    }
    assert(u =~= v);
}

} // verus!
