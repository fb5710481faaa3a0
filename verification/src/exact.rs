//! What holds of the model over decimal numbers, to the unit.
//!
//! Sums of decimal numbers are exact as long as they stay within the limits, and a product or a
//! quotient falls short of the exact one by less than a unit. So the accounts of the model can be
//! stated in whole units.

use vstd::prelude::*;

use crate::fixed::{
    abs, law_units_are_kept, lemma_literal_units, lemma_parts, lemma_quot_exact,
    lemma_ten_to_twelve, limited, quot, Fixed, LIMIT, ONE,
};
use crate::laws::{
    economy_in_bounds, household_in_bounds, is_amount, is_fair, is_share, lemma_income_is_an_amount,
    lemma_order, lemma_roster_in_bounds, lemma_spending_within_savings,
};
use crate::mechanisms::{
    employed_count, production_of, redistribution_of, revenue_of, settled_household, settled_world,
    spending_of, stocked, tax_below, tax_due, tax_of,
};
use crate::number::{clamped, max_of, min_of, total, zero, Number};
use crate::world::{is_ascending_of, HouseholdView, WorldView, HOURS_PER_MONTH};

verus! {

broadcast use law_units_are_kept;

/// The units of a sequence of numbers, added up.
pub open spec fn sum_units(s: Seq<Fixed>) -> int
    decreases s.len(),
{
    if s.len() == 0 {
        0
    } else {
        sum_units(s.drop_last()) + s.last()@
    }
}

/// Whether all numbers of a sequence are amounts.
pub open spec fn all_in_limits(s: Seq<Fixed>) -> bool {
    forall|i: int| 0 <= i < s.len() ==> 0 <= (#[trigger] s[i])@ <= LIMIT
}

/// Amounts add up to no less than nothing.
pub proof fn lemma_sum_is_not_negative(s: Seq<Fixed>)
    requires
        all_in_limits(s),
    ensures
        sum_units(s) >= 0,
    decreases s.len(),
{
    if s.len() > 0 {
        assert(0 <= s[s.len() - 1]@);
        lemma_sum_is_not_negative(s.drop_last());
    }
}

/// Amounts add up exactly, within the limits.
pub proof fn law_totals_are_exact(s: Seq<Fixed>)
    requires
        all_in_limits(s),
    ensures
        total(s)@ == limited(sum_units(s)),
        sum_units(s) >= 0,
    decreases s.len(),
{
    lemma_literal_units();
    lemma_sum_is_not_negative(s);
    if s.len() > 0 {
        assert(0 <= s[s.len() - 1]@);
        lemma_sum_is_not_negative(s.drop_last());
        law_totals_are_exact(s.drop_last());
    }
}

proof fn lemma_hours(x: Fixed)
    ensures
        Fixed::lit(HOURS_PER_MONTH as int, 0)@ == 168 * ONE,
        Fixed::lit(HOURS_PER_MONTH as int, 0).mul(x)@ == limited(168 * x@),
{
    lemma_ten_to_twelve();
    lemma_quot_exact(168 * x@, ONE as int);
    assert((168 * ONE) * x@ == (168 * x@) * ONE) by (nonlinear_arith);
}

proof fn lemma_sum_of_equals(n: nat, unit: Fixed)
    ensures
        sum_units(Seq::new(n, |i: int| unit)) == n * unit@,
    decreases n,
{
    let s = Seq::new(n, |i: int| unit);
    if n > 0 {
        assert(s.drop_last() =~= Seq::new((n - 1) as nat, |i: int| unit));
        lemma_sum_of_equals((n - 1) as nat, unit);
        assert((n - 1) * unit@ + unit@ == n * unit@) by (nonlinear_arith);
    } else {
        assert(0 * unit@ == 0) by (nonlinear_arith);
    }
}

/// A month's production is the number of the employed times the hours of a month times
/// productivity, and all of it goes into stock.
pub proof fn law_production_is_exact(w: WorldView<Fixed>)
    requires
        0 <= w.env.productivity@ <= LIMIT,
        0 <= w.env.inventory@ <= LIMIT,
    ensures
        production_of(w)@ == limited(employed_count(w.roster()) * (168 * w.env.productivity@)),
        stocked(w).env.inventory@ == limited(
            w.env.inventory@ + employed_count(w.roster()) * (168 * w.env.productivity@),
        ),
{
    let n = employed_count(w.roster());
    let p = w.env.productivity@;
    let unit = Fixed::lit(HOURS_PER_MONTH as int, 0).mul(w.env.productivity);
    lemma_hours(w.env.productivity);
    let units = Seq::new(n, |i: int| unit);
    assert(units =~= Seq::new(
        n,
        |i: int| Fixed::lit(HOURS_PER_MONTH as int, 0).mul(w.env.productivity),
    ));
    law_totals_are_exact(units);
    lemma_sum_of_equals(n, unit);
    let exact = n * (168 * p);
    assert(exact >= 0) by (nonlinear_arith)
        requires
            exact == n * (168 * p),
            n >= 0,
            p >= 0,
    ;
    if 168 * p > LIMIT {
        if n > 0 {
            assert(n * LIMIT >= LIMIT && n * (168 * p) >= LIMIT) by (nonlinear_arith)
                requires
                    n >= 1,
                    168 * p > LIMIT,
            ;
        } else {
            assert(0 * (168 * p) == 0 && 0 * LIMIT == 0) by (nonlinear_arith);
        }
    }
}

/// The units of the numbers that households have, added up.
pub open spec fn over_roster(
    w: WorldView<Fixed>,
    f: spec_fn(HouseholdView<Fixed>) -> Fixed,
) -> int {
    sum_units(w.roster().map_values(f))
}

/// An amount divided among `n` comes to the whole part of the quotient of its units.
pub proof fn lemma_divided_equally(revenue: int, n: nat)
    requires
        revenue >= 0,
        0 < n,
    ensures
        quot(revenue * ONE, n * ONE) == revenue / (n as int),
        0 <= revenue - n * (revenue / (n as int)) < n,
        0 <= revenue / (n as int) <= revenue,
{
    let one = ONE as int;
    let m = n as int;
    vstd::arithmetic::div_mod::lemma_div_multiples_vanish_quotient(one, revenue, m);
    assert(one * revenue == revenue * one && one * m == m * one) by (nonlinear_arith);
    assert(revenue * one >= 0 && m * one > 0) by (nonlinear_arith)
        requires
            revenue >= 0,
            m > 0,
            one > 0,
    ;
    lemma_parts(revenue, m);
    let q = revenue / m;
    assert(n * q == q * m) by (nonlinear_arith)
        requires
            m == n,
    ;
    vstd::arithmetic::div_mod::lemma_div_nonincreasing(revenue, m);
    vstd::arithmetic::div_mod::lemma_div_pos_is_pos(revenue, m);
}

proof fn lemma_sums_settle(
    roster: Seq<HouseholdView<Fixed>>,
    w: WorldView<Fixed>,
    share: Fixed,
)
    requires
        is_fair(w.env.tax_brackets, w.env.tax_rates),
        forall|i: int| 0 <= i < roster.len() ==> household_in_bounds(#[trigger] roster[i]),
        0 <= share@,
        sum_units(roster.map_values(|h: HouseholdView<Fixed>| h.savings)) + sum_units(
            roster.map_values(|h: HouseholdView<Fixed>| h.income()),
        ) + share@ <= LIMIT,
    ensures
        sum_units(
            roster.map_values(
                |h: HouseholdView<Fixed>| settled_household(h, w.env, share).savings,
            ),
        ) == sum_units(roster.map_values(|h: HouseholdView<Fixed>| h.savings)) - sum_units(
            roster.map_values(|h: HouseholdView<Fixed>| spending_of(h)),
        ) + sum_units(roster.map_values(|h: HouseholdView<Fixed>| h.income())) - sum_units(
            roster.map_values(|h: HouseholdView<Fixed>| tax_due(h, w.env)),
        ) + roster.len() * share@,
        0 <= sum_units(roster.map_values(|h: HouseholdView<Fixed>| tax_due(h, w.env))) <= sum_units(
            roster.map_values(|h: HouseholdView<Fixed>| h.income()),
        ),
        0 <= sum_units(roster.map_values(|h: HouseholdView<Fixed>| h.savings)),
    decreases roster.len(),
{
    lemma_order::<Fixed>();
    lemma_literal_units();
    let savings = |h: HouseholdView<Fixed>| h.savings;
    let spending = |h: HouseholdView<Fixed>| spending_of(h);
    let income = |h: HouseholdView<Fixed>| h.income();
    let tax = |h: HouseholdView<Fixed>| tax_due(h, w.env);
    let after = |h: HouseholdView<Fixed>| settled_household(h, w.env, share).savings;
    if roster.len() > 0 {
        let rest = roster.drop_last();
        let h = roster.last();
        assert(household_in_bounds(roster[roster.len() - 1]));
        assert(rest.map_values(savings) =~= roster.map_values(savings).drop_last());
        assert(rest.map_values(spending) =~= roster.map_values(spending).drop_last());
        assert(rest.map_values(income) =~= roster.map_values(income).drop_last());
        assert(rest.map_values(tax) =~= roster.map_values(tax).drop_last());
        assert(rest.map_values(after) =~= roster.map_values(after).drop_last());
        lemma_income_is_an_amount(h);
        lemma_spending_within_savings(h);
        crate::laws::law_tax_is_within_income(h.income(), w.env.tax_brackets, w.env.tax_rates);
        crate::laws::law_tax_grows_with_income(
            h.income(),
            h.income(),
            w.env.tax_brackets,
            w.env.tax_rates,
        );
        assert forall|i: int| 0 <= i < rest.len() implies household_in_bounds(#[trigger] rest[i]) by {
            assert(rest[i] == roster[i]);
        }
        let below = roster.map_values(income).drop_last();
        assert(all_in_limits(below)) by {
            assert forall|i: int| 0 <= i < below.len() implies 0 <= (#[trigger] below[i])@
                <= LIMIT by {
                assert(household_in_bounds(roster[i]));
                lemma_income_is_an_amount(roster[i]);
            }
        }
        lemma_sum_is_not_negative(below);
        let saved = roster.map_values(savings).drop_last();
        assert(all_in_limits(saved)) by {
            assert forall|i: int| 0 <= i < saved.len() implies 0 <= (#[trigger] saved[i])@
                <= LIMIT by {
                assert(household_in_bounds(roster[i]));
            }
        }
        lemma_sum_is_not_negative(saved);
        lemma_sums_settle(rest, w, share);
        assert((roster.len() - 1) * share@ + share@ == roster.len() * share@) by (nonlinear_arith);
    } else {
        assert(0 * share@ == 0) by (nonlinear_arith);
    }
}

/// The tax collected in a month is handed back in full, but for the units that cannot be divided
/// equally: all savings together change by all incomes less all spending, less those units.
pub proof fn law_tax_is_handed_back(w: WorldView<Fixed>) -> (left: int)
    requires
        economy_in_bounds(w),
        is_ascending_of(w.ids(), w.households.dom()),
        0 < w.n() <= u64::MAX,
        over_roster(w, |h: HouseholdView<Fixed>| h.savings) + 2 * over_roster(
            w,
            |h: HouseholdView<Fixed>| h.income(),
        ) <= LIMIT,
    ensures
        0 <= left < w.n(),
        revenue_of(w)@ == over_roster(w, |h: HouseholdView<Fixed>| tax_due(h, w.env)),
        w.n() * redistribution_of(w)@ == revenue_of(w)@ - left,
        over_roster(settled_world(w), |h: HouseholdView<Fixed>| h.savings) == over_roster(
            w,
            |h: HouseholdView<Fixed>| h.savings,
        ) - over_roster(w, |h: HouseholdView<Fixed>| spending_of(h)) + over_roster(
            w,
            |h: HouseholdView<Fixed>| h.income(),
        ) - left,
{
    lemma_order::<Fixed>();
    lemma_literal_units();
    lemma_roster_in_bounds(w);
    let roster = w.roster();
    let taxes = roster.map_values(|h: HouseholdView<Fixed>| tax_due(h, w.env));
    let incomes = roster.map_values(|h: HouseholdView<Fixed>| h.income());
    assert(all_in_limits(taxes)) by {
        assert forall|i: int| 0 <= i < taxes.len() implies 0 <= (#[trigger] taxes[i])@ <= LIMIT by {
            let h = roster[i];
            assert(household_in_bounds(h));
            lemma_income_is_an_amount(h);
            crate::laws::law_tax_grows_with_income(
                h.income(),
                h.income(),
                w.env.tax_brackets,
                w.env.tax_rates,
            );
        }
    }
    law_totals_are_exact(taxes);
    assert(all_in_limits(incomes)) by {
        assert forall|i: int| 0 <= i < incomes.len() implies 0 <= (#[trigger] incomes[i])@
            <= LIMIT by {
            assert(household_in_bounds(roster[i]));
            lemma_income_is_an_amount(roster[i]);
        }
    }
    lemma_sum_is_not_negative(incomes);
    let saved = roster.map_values(|h: HouseholdView<Fixed>| h.savings);
    assert(all_in_limits(saved)) by {
        assert forall|i: int| 0 <= i < saved.len() implies 0 <= (#[trigger] saved[i])@ <= LIMIT by {
            assert(household_in_bounds(roster[i]));
        }
    }
    lemma_sum_is_not_negative(saved);
    let none = Fixed::of(0);
    assert(none@ == 0);
    lemma_sums_settle(roster, w, none);
    let n = w.n();
    let revenue = revenue_of(w)@;
    lemma_divided_equally(revenue, n);
    let share = redistribution_of(w);
    assert(share@ == revenue / (n as int));
    lemma_sums_settle(roster, w, share);
    let after = settled_world(w);
    assert(after.households.dom() =~= w.households.dom());
    assert(after.roster().map_values(|h: HouseholdView<Fixed>| h.savings) =~= roster.map_values(
        |h: HouseholdView<Fixed>| settled_household(h, w.env, share).savings,
    )) by {
        assert forall|i: int| 0 <= i < roster.len() implies (#[trigger] after.roster()[i])
            == settled_household(roster[i], w.env, share) by {
            assert(w.ids().contains(w.ids()[i]));
        }
    }
    revenue - n * share@
}

/// The part of an income within the bracket between two borders.
pub open spec fn part_between(z: int, lo: int, hi: int) -> int {
    if lo < z {
        smaller(z, hi) - lo
    } else {
        0
    }
}

pub open spec fn smaller(a: int, b: int) -> int {
    if b < a {
        b
    } else {
        a
    }
}

/// The tax on the first `k` brackets before any rounding, in units of units.
pub open spec fn unrounded_tax(z: int, brackets: Seq<Fixed>, rates: Seq<Fixed>, k: nat) -> int
    decreases k,
{
    if k == 0 {
        0
    } else {
        unrounded_tax(z, brackets, rates, (k - 1) as nat) + rates[k - 1]@ * part_between(
            z,
            brackets[k - 1]@,
            brackets[k as int]@,
        )
    }
}

/// The tax falls short of the exact one by less than a unit in each bracket.
proof fn lemma_rounded_tax(z: Fixed, brackets: Seq<Fixed>, rates: Seq<Fixed>, k: nat)
    requires
        is_fair(brackets, rates),
        is_amount(z),
        k <= rates.len(),
    ensures
        tax_below(z, brackets, rates, k)@ * ONE <= unrounded_tax(z@, brackets, rates, k),
        unrounded_tax(z@, brackets, rates, k) <= (tax_below(z, brackets, rates, k)@ + k) * ONE,
        0 <= unrounded_tax(z@, brackets, rates, k) <= smaller(z@, brackets[k as int]@) * ONE,
        0 <= tax_below(z, brackets, rates, k)@,
    decreases k,
{
    lemma_literal_units();
    let one = ONE as int;
    assert(brackets[0].at_most(brackets[k as int]));
    if k > 0 {
        let j = (k - 1) as nat;
        lemma_rounded_tax(z, brackets, rates, j);
        let lo = brackets[k - 1];
        let hi = brackets[k as int];
        assert(brackets[0].at_most(lo));
        assert(lo.at_most(hi));
        assert(is_share(rates[k - 1]));
        let rate = rates[k - 1]@;
        let before = tax_below(z, brackets, rates, j)@;
        let exact = unrounded_tax(z@, brackets, rates, j);
        let part = part_between(z@, lo@, hi@);
        if lo.below(z) {
            assert(min_of(z, hi).sub(lo)@ == part);
            let product = rate * part;
            assert(0 <= product <= part * one) by (nonlinear_arith)
                requires
                    product == rate * part,
                    0 <= rate <= one,
                    0 <= part,
            ;
            let term = product / one;
            lemma_parts(product, one);
            assert(term * one <= product < (term + 1) * one) by (nonlinear_arith)
                requires
                    product == term * one + product % one,
                    0 <= product % one < one,
            ;
            assert(0 <= term <= part) by (nonlinear_arith)
                requires
                    term * one <= product,
                    product < (term + 1) * one,
                    0 <= product <= part * one,
                    one > 0,
            ;
            assert(rates[k - 1].mul(min_of(z, hi).sub(lo))@ == term);
            assert(before <= lo@) by (nonlinear_arith)
                requires
                    before * one <= exact,
                    exact <= lo@ * one,
                    one > 0,
            ;
            assert(tax_below(z, brackets, rates, k)@ == before + term);
            assert((before + term) * one <= exact + product) by (nonlinear_arith)
                requires
                    before * one <= exact,
                    term * one <= product,
            ;
            assert(exact + product <= (before + term + k) * one) by (nonlinear_arith)
                requires
                    exact <= (before + j) * one,
                    product < (term + 1) * one,
                    k == j + 1,
            ;
            assert(exact + product <= (lo@ + part) * one) by (nonlinear_arith)
                requires
                    exact <= lo@ * one,
                    product <= part * one,
            ;
        } else {
            assert(rate * 0 == 0);
            assert(part == 0);
            assert((before + j) * one <= (before + k) * one) by (nonlinear_arith)
                requires
                    j <= k,
                    one > 0,
            ;
        }
    } else {
        assert(0 * one == 0);
        assert(smaller(z@, brackets[0]@) * one >= 0) by (nonlinear_arith)
            requires
                smaller(z@, brackets[0]@) >= 0,
                one > 0,
        ;
    }
}

proof fn lemma_tax_slope(
    y: int,
    z: int,
    brackets: Seq<Fixed>,
    rates: Seq<Fixed>,
    most: int,
    k: nat,
)
    requires
        is_fair(brackets, rates),
        0 <= y <= z,
        k <= rates.len(),
        forall|i: int| 0 <= i < rates.len() ==> (#[trigger] rates[i])@ <= most,
    ensures
        unrounded_tax(z, brackets, rates, k) - unrounded_tax(y, brackets, rates, k) <= most * (
        smaller(z, brackets[k as int]@) - smaller(y, brackets[k as int]@)),
    decreases k,
{
    lemma_literal_units();
    if k > 0 {
        let j = (k - 1) as nat;
        lemma_tax_slope(y, z, brackets, rates, most, j);
        let lo = brackets[k - 1]@;
        let hi = brackets[k as int]@;
        assert(brackets[k - 1].at_most(brackets[k as int]));
        let rate = rates[k - 1]@;
        assert(is_share(rates[k - 1]));
        let py = part_between(y, lo, hi);
        let pz = part_between(z, lo, hi);
        let low = smaller(z, lo) - smaller(y, lo);
        assert(rate * pz - rate * py <= most * (pz - py)) by (nonlinear_arith)
            requires
                rate <= most,
                py <= pz,
        ;
        assert(most * low + most * (pz - py) == most * (low + (pz - py))) by (nonlinear_arith);
    } else {
        assert(brackets[0] == zero::<Fixed>());
        assert(most * 0 == 0) by (nonlinear_arith);
    }
}

/// Tax grows by no more than the highest rate of what income grows by, but for a unit in each
/// bracket: there is no jump at a border.
pub proof fn law_tax_has_no_jumps(
    y: Fixed,
    z: Fixed,
    brackets: Seq<Fixed>,
    rates: Seq<Fixed>,
    most: Fixed,
)
    requires
        is_fair(brackets, rates),
        is_amount(y),
        y.at_most(z),
        is_amount(most),
        forall|i: int| 0 <= i < rates.len() ==> (#[trigger] rates[i]).at_most(most),
    ensures
        (tax_of(z, brackets, rates)@ - tax_of(y, brackets, rates)@ - rates.len()) * ONE <= most@ * (z@
            - y@),
{
    lemma_literal_units();
    let n = rates.len();
    let one = ONE as int;
    lemma_rounded_tax(y, brackets, rates, n);
    lemma_rounded_tax(z, brackets, rates, n);
    lemma_tax_slope(y@, z@, brackets, rates, most@, n);
    lemma_untaxed_zero(y, brackets, rates, n);
    lemma_untaxed_zero(z, brackets, rates, n);
    let ty = tax_of(y, brackets, rates)@;
    let tz = tax_of(z, brackets, rates)@;
    let ey = unrounded_tax(y@, brackets, rates, n);
    let ez = unrounded_tax(z@, brackets, rates, n);
    let gain = smaller(z@, brackets[n as int]@) - smaller(y@, brackets[n as int]@);
    assert((tz - ty - n) * one <= ez - ey) by (nonlinear_arith)
        requires
            tz * one <= ez,
            ey <= (ty + n) * one,
    ;
    assert(most@ * gain <= most@ * (z@ - y@)) by (nonlinear_arith)
        requires
            gain <= z@ - y@,
            most@ >= 0,
    ;
}

proof fn lemma_untaxed_zero(z: Fixed, brackets: Seq<Fixed>, rates: Seq<Fixed>, k: nat)
    requires
        is_fair(brackets, rates),
        is_amount(z),
        k <= rates.len(),
    ensures
        z@ == 0 ==> tax_below(z, brackets, rates, k)@ == 0,
        k == rates.len() ==> tax_of(z, brackets, rates)@ == tax_below(z, brackets, rates, k)@,
    decreases k,
{
    lemma_literal_units();
    if k > 0 {
        lemma_untaxed_zero(z, brackets, rates, (k - 1) as nat);
        assert(brackets[0].at_most(brackets[k - 1]));
    }
}

proof fn lemma_tax_within_a_bracket(
    y: int,
    z: int,
    brackets: Seq<Fixed>,
    rates: Seq<Fixed>,
    b: int,
    k: nat,
)
    requires
        is_fair(brackets, rates),
        k <= rates.len(),
        0 <= b < rates.len(),
        brackets[b]@ <= y <= z <= brackets[b + 1]@,
    ensures
        unrounded_tax(z, brackets, rates, k) - unrounded_tax(y, brackets, rates, k) == (if b < k {
            rates[b]@ * (z - y)
        } else {
            0
        }),
    decreases k,
{
    lemma_literal_units();
    if k > 0 {
        let j = k - 1;
        lemma_tax_within_a_bracket(y, z, brackets, rates, b, j as nat);
        let (lo, hi, rate) = (brackets[j]@, brackets[k as int]@, rates[j]@);
        let (py, pz) = (part_between(y, lo, hi), part_between(z, lo, hi));
        assert(brackets[j].at_most(brackets[k as int]));
        if j < b {
            assert(brackets[k as int].at_most(brackets[b]));
            assert(brackets[j].at_most(brackets[b]));
            assert(pz == py);
        } else if j == b {
            assert(rate * pz - rate * py == rate * (z - y)) by (nonlinear_arith)
                requires
                    pz - py == z - y,
            ;
        } else {
            assert(brackets[b + 1].at_most(brackets[j]));
            assert(pz == 0 && py == 0);
        }
    }
}

/// Within a bracket, tax grows by the rate of that bracket of what income grows by, but for a unit
/// in each bracket; nobody pays tax on nothing.
pub proof fn law_each_bracket_has_its_rate(
    y: Fixed,
    z: Fixed,
    brackets: Seq<Fixed>,
    rates: Seq<Fixed>,
    b: int,
)
    requires
        is_fair(brackets, rates),
        0 <= b < rates.len(),
        brackets[b]@ <= y@ <= z@ <= brackets[b + 1]@,
    ensures
        abs(
            (tax_of(z, brackets, rates)@ - tax_of(y, brackets, rates)@) * ONE - rates[b]@ * (z@
                - y@),
        ) <= rates.len() * ONE,
        y@ == 0 ==> tax_of(y, brackets, rates)@ == 0,
{
    lemma_literal_units();
    let n = rates.len();
    let one = ONE as int;
    assert(brackets[0].at_most(brackets[b]));
    lemma_rounded_tax(y, brackets, rates, n);
    lemma_rounded_tax(z, brackets, rates, n);
    lemma_tax_within_a_bracket(y@, z@, brackets, rates, b, n);
    lemma_untaxed_zero(y, brackets, rates, n);
    lemma_untaxed_zero(z, brackets, rates, n);
    let (ty, tz) = (tax_of(y, brackets, rates)@, tax_of(z, brackets, rates)@);
    let ey = unrounded_tax(y@, brackets, rates, n);
    let ez = unrounded_tax(z@, brackets, rates, n);
    let m = n as int;
    assert(-(m * one) <= (tz - ty) * one - (ez - ey) <= m * one) by (nonlinear_arith)
        requires
            tz * one <= ez <= (tz + m) * one,
            ty * one <= ey <= (ty + m) * one,
    ;
}

/// Income beyond the last border adds nothing to the tax, but for a unit in each bracket.
pub proof fn law_nothing_is_due_beyond_the_last_border(
    y: Fixed,
    z: Fixed,
    brackets: Seq<Fixed>,
    rates: Seq<Fixed>,
)
    requires
        is_fair(brackets, rates),
        brackets[rates.len() as int]@ <= y@ <= z@ <= LIMIT,
    ensures
        abs(tax_of(z, brackets, rates)@ - tax_of(y, brackets, rates)@) <= rates.len(),
{
    lemma_literal_units();
    let n = rates.len();
    let one = ONE as int;
    assert(brackets[0].at_most(brackets[n as int]));
    lemma_rounded_tax(y, brackets, rates, n);
    lemma_rounded_tax(z, brackets, rates, n);
    lemma_tax_beyond(y@, z@, brackets, rates, n);
    lemma_untaxed_zero(y, brackets, rates, n);
    lemma_untaxed_zero(z, brackets, rates, n);
    let (ty, tz) = (tax_of(y, brackets, rates)@, tax_of(z, brackets, rates)@);
    let e = unrounded_tax(y@, brackets, rates, n);
    let m = n as int;
    assert(-m <= tz - ty <= m) by (nonlinear_arith)
        requires
            tz * one <= e <= (tz + m) * one,
            ty * one <= e <= (ty + m) * one,
            one > 0,
    ;
}

proof fn lemma_tax_beyond(y: int, z: int, brackets: Seq<Fixed>, rates: Seq<Fixed>, k: nat)
    requires
        is_fair(brackets, rates),
        k <= rates.len(),
        brackets[rates.len() as int]@ <= y <= z,
    ensures
        unrounded_tax(z, brackets, rates, k) == unrounded_tax(y, brackets, rates, k),
    decreases k,
{
    if k > 0 {
        lemma_tax_beyond(y, z, brackets, rates, (k - 1) as nat);
        assert(brackets[k as int].at_most(brackets[rates.len() as int]));
        assert(brackets[k - 1].at_most(brackets[rates.len() as int]));
        assert(part_between(y, brackets[k - 1]@, brackets[k as int]@) == part_between(
            z,
            brackets[k - 1]@,
            brackets[k as int]@,
        ));
    }
}

proof fn lemma_flat_tax(z: int, brackets: Seq<Fixed>, rates: Seq<Fixed>, rate: int, k: nat)
    requires
        is_fair(brackets, rates),
        0 <= z,
        k <= rates.len(),
        forall|i: int| 0 <= i < rates.len() ==> (#[trigger] rates[i])@ == rate,
    ensures
        unrounded_tax(z, brackets, rates, k) == rate * smaller(z, brackets[k as int]@),
    decreases k,
{
    lemma_literal_units();
    if k > 0 {
        lemma_flat_tax(z, brackets, rates, rate, (k - 1) as nat);
        let lo = brackets[k - 1]@;
        let hi = brackets[k as int]@;
        assert(brackets[k - 1].at_most(brackets[k as int]));
        assert(rates[k - 1]@ == rate);
        let part = part_between(z, lo, hi);
        let low = smaller(z, lo);
        assert(rate * low + rate * part == rate * (low + part)) by (nonlinear_arith);
    } else {
        assert(brackets[0] == zero::<Fixed>());
        assert(rate * 0 == 0) by (nonlinear_arith);
    }
}

/// Where all rates are the same and no income lies beyond the last border, tax is that rate of the
/// income, but for a unit in each bracket.
pub proof fn law_equal_rates_are_a_flat_tax(
    z: Fixed,
    brackets: Seq<Fixed>,
    rates: Seq<Fixed>,
    rate: Fixed,
)
    requires
        is_fair(brackets, rates),
        is_amount(z),
        z.at_most(brackets.last()),
        forall|i: int| 0 <= i < rates.len() ==> #[trigger] rates[i] == rate,
    ensures
        tax_of(z, brackets, rates)@ * ONE <= rate@ * z@,
        rate@ * z@ <= (tax_of(z, brackets, rates)@ + rates.len()) * ONE,
{
    lemma_literal_units();
    let n = rates.len();
    lemma_rounded_tax(z, brackets, rates, n);
    lemma_untaxed_zero(z, brackets, rates, n);
    lemma_flat_tax(z@, brackets, rates, rate@, n);
    assert(smaller(z@, brackets[n as int]@) == z@);
}

/// The larger and the smaller of two numbers are one of them each, and a number is brought into a
/// range by the end that it lies beyond.
pub proof fn law_extremes(a: Fixed, b: Fixed, x: Fixed, lo: Fixed, hi: Fixed)
    requires
        -LIMIT <= a@ <= LIMIT,
        -LIMIT <= b@ <= LIMIT,
        -LIMIT <= x@ <= LIMIT,
        -LIMIT <= lo@ <= hi@ <= LIMIT,
    ensures
        max_of(a, b)@ >= a@ && max_of(a, b)@ >= b@,
        max_of(a, b) == a || max_of(a, b) == b,
        min_of(a, b)@ <= a@ && min_of(a, b)@ <= b@,
        min_of(a, b) == a || min_of(a, b) == b,
        lo@ <= clamped(x, lo, hi)@ <= hi@,
        lo@ <= x@ <= hi@ ==> clamped(x, lo, hi) == x,
        x@ < lo@ ==> clamped(x, lo, hi) == lo,
        hi@ < x@ ==> clamped(x, lo, hi) == hi,
{
}

/// Rounding gives a whole number, and none is closer; the whole part of a number is the number
/// without its fraction.
pub proof fn law_roundings(x: Fixed)
    requires
        abs(x@) <= LIMIT - ONE,
    ensures
        x.nearest()@ % (ONE as int) == 0,
        abs(2 * (x.nearest()@ - x@)) <= ONE,
        abs(x@) < 9_000_000_000_000_000_000 * ONE ==> {
            &&& x@ >= 0 ==> 0 <= x@ - x.whole() * ONE < ONE
            &&& x@ <= 0 ==> 0 <= x.whole() * ONE - x@ < ONE
        },
{
    let one = ONE as int;
    let half = abs(x@) + one / 2;
    lemma_parts(half, one);
    let n = half / one;
    assert(n * one <= half < n * one + one);
    assert((n * one) % one == 0 && (-(n * one)) % one == 0);
    lemma_parts(abs(x@), one);
}

} // verus!
