//! What a month does to an economy, over decimal numbers and in units.

use vstd::prelude::*;

use crate::correlation::{is_moderate, law_small_totals_are_exact, sum_sizes, MODERATE};
use crate::exact::{law_totals_are_exact, sum_units};
use crate::fixed::{
    abs, law_snapped_to_the_nearest_fiftieth, law_units_are_kept, lemma_literal_units,
    lemma_quot_exact, ten_to, Fixed, FIFTIETH, LIMIT, ONE,
};
use crate::indicators::{
    law_means_divide_the_sum, law_products_fall_short, law_quotients_fall_short,
    law_unemployment_counts_the_idle,
};
use crate::mechanisms::{
    change_bound, decided, demand_of, employed_before_count, employed_count, imbalance_of,
    interest_of, moved, perceived, policy_set, price_moved, stocked, wage_moved,
};
use crate::metrics::{inflation_of, mean_of};
use crate::moments::dot;
use crate::number::{total, zero, Number, Ordered};
use crate::world::{is_ascending_of, lemma_ascending_len, HouseholdView, MacroEnvView, WorldView};

verus! {

broadcast use law_units_are_kept;

/// A household counts as employed if it works this month, and as employed before if it worked last
/// month; no other household counts.
pub proof fn law_workers_are_counted<R>(roster: Seq<HouseholdView<R>>, h: HouseholdView<R>)
    ensures
        employed_count(Seq::<HouseholdView<R>>::empty()) == 0,
        employed_count(roster.push(h)) == employed_count(roster) + (if h.employed {
            1nat
        } else {
            0
        }),
        employed_before_count(Seq::<HouseholdView<R>>::empty()) == 0,
        employed_before_count(roster.push(h)) == employed_before_count(roster) + (
        if h.employed_prev {
            1nat
        } else {
            0
        }),
{
    reveal(Seq::filter);
    assert(roster.push(h).drop_last() =~= roster);
}

/// The roster of a world lists each of its households once, in the order of their identifiers.
pub proof fn law_the_roster_lists_everyone<R>(w: WorldView<R>, id: u64) -> (i: int)
    requires
        is_ascending_of(w.ids(), w.households.dom()),
        w.households.contains_key(id),
    ensures
        0 <= i < w.roster().len(),
        w.roster().len() == w.n(),
        w.roster()[i] == w.households[id],
        forall|j: int|
            0 <= j < w.roster().len() && j != i ==> #[trigger] w.ids()[j] != id,
        forall|j: int|
            0 <= j < w.roster().len() ==> w.households.contains_key(#[trigger] w.ids()[j]),
        forall|j: int, k: int|
            0 <= j < k < w.roster().len() ==> #[trigger] w.ids()[j] < #[trigger] w.ids()[k],
{
    lemma_ascending_len(w.ids(), w.households.dom());
    assert(w.ids().contains(id));
    assert forall|j: int| 0 <= j < w.roster().len() implies w.households.contains_key(
        #[trigger] w.ids()[j],
    ) by {
        assert(w.ids().contains(w.ids()[j]));
    }
    w.ids().index_of(id)
}

proof fn lemma_moderate_product(a: Fixed, b: Fixed)
    requires
        abs(a@) <= 4 * MODERATE,
        abs(b@) <= 4 * MODERATE,
    ensures
        abs(a@ * b@) <= LIMIT * ONE,
        abs(a.mul(b)@) <= LIMIT / 1000,
{
    let (x, y) = (a@, b@);
    assert(abs(x * y) <= 160_000_000_000_000_000_000_000_000_000_000_000_000_000) by (nonlinear_arith)
        requires
            abs(x) <= 400_000_000_000_000_000_000,
            abs(y) <= 400_000_000_000_000_000_000,
    ;
    assert(abs(x * y) <= LIMIT * ONE);
    law_products_fall_short(a, b);
    let r = a.mul(b)@;
    assert(abs(ONE * r) == ONE * abs(r));
}

/// Whether the numbers that enter the interest rule are moderate.
pub open spec fn is_moderate_policy(env: MacroEnvView<Fixed>) -> bool {
    &&& abs(env.natural_rate@) <= MODERATE
    &&& abs(env.target_inflation@) <= MODERATE
    &&& abs(env.natural_unemployment@) <= MODERATE
    &&& abs(env.alpha_pi@) <= MODERATE
    &&& abs(env.alpha_u@) <= MODERATE
    &&& abs(inflation_of(env.price_history)@) <= MODERATE
    &&& is_moderate(env.year_unemp_buffer)
}

/// Whether numbers lie between two, in units.
pub open spec fn lie_between(s: Seq<Fixed>, lo: int, hi: int) -> bool {
    forall|i: int| 0 <= i < s.len() ==> lo <= (#[trigger] s[i])@ <= hi
}

/// Interest is the natural rate and the inflation target, with so much of the distance of inflation
/// from the target added and so much of the distance of the year's mean unemployment `u` from its
/// natural rate taken away, up to two units, and not below zero. The mean is the sum of the monthly
/// rates over their number, and lies between the smallest and the largest of them; without rates, it
/// is the natural rate.
pub proof fn law_the_interest_rule(env: MacroEnvView<Fixed>) -> (u: int)
    requires
        is_moderate_policy(env),
    ensures
        env.year_unemp_buffer.len() == 0 ==> u == env.natural_unemployment@,
        env.year_unemp_buffer.len() > 0 ==> abs(
            sum_units(env.year_unemp_buffer) - env.year_unemp_buffer.len() * u,
        ) < env.year_unemp_buffer.len(),
        env.year_unemp_buffer.len() > 0 ==> forall|lo: int, hi: int| #[trigger]
            lie_between(env.year_unemp_buffer, lo, hi) ==> lo <= u <= hi,
        ({
            let gap = inflation_of(env.price_history)@ - env.target_inflation@;
            let exact = (env.natural_rate@ + env.target_inflation@) * ONE + env.alpha_pi@ * gap
                + env.alpha_u@ * (env.natural_unemployment@ - u);
            let r = interest_of(env)@;
            &&& r >= 0
            &&& exact >= 0 ==> abs(r * ONE - exact) < 2 * ONE
            &&& exact < 0 ==> r < 2
            &&& exact <= -(2 * ONE) ==> r == 0
            &&& gap == 0 && u == env.natural_unemployment@ && env.natural_rate@
                + env.target_inflation@ >= 0 ==> r == env.natural_rate@ + env.target_inflation@
        }),
{
    lemma_literal_units();
    let buffer = env.year_unemp_buffer;
    let m = if buffer.len() == 0 {
        env.natural_unemployment
    } else {
        mean_of(buffer)
    };
    if buffer.len() > 0 {
        assert forall|i: int| 0 <= i < buffer.len() implies -MODERATE <= (#[trigger] buffer[i])@
            <= MODERATE by {
            assert(abs(buffer[i]@) <= MODERATE);
        }
        law_means_divide_the_sum(buffer, -MODERATE, MODERATE as int);
        assert forall|lo: int, hi: int| #[trigger] lie_between(buffer, lo, hi) implies lo <= m@
            <= hi by {
            law_means_divide_the_sum(buffer, lo, hi);
        }
    }
    let pi = inflation_of(env.price_history);
    let (a, b) = (pi.sub(env.target_inflation), env.natural_unemployment.sub(m));
    lemma_moderate_product(env.alpha_pi, a);
    lemma_moderate_product(env.alpha_u, b);
    law_products_fall_short(env.alpha_pi, a);
    law_products_fall_short(env.alpha_u, b);
    if a@ == 0 {
        assert(env.alpha_pi@ * a@ == 0) by (nonlinear_arith)
            requires
                a@ == 0,
        ;
    }
    if b@ == 0 {
        assert(env.alpha_u@ * b@ == 0) by (nonlinear_arith)
            requires
                b@ == 0,
        ;
    }
    m@
}

/// At rest, with inflation on its target and unemployment at its natural rate in every month of the
/// year, however many there are, interest is the natural rate and the inflation target.
pub proof fn law_interest_at_rest(env: MacroEnvView<Fixed>)
    requires
        is_moderate_policy(env),
        inflation_of(env.price_history)@ == env.target_inflation@,
        forall|i: int|
            0 <= i < env.year_unemp_buffer.len() ==> (#[trigger] env.year_unemp_buffer[i])@
                == env.natural_unemployment@,
        env.natural_rate@ + env.target_inflation@ >= 0,
    ensures
        interest_of(env)@ == env.natural_rate@ + env.target_inflation@,
{
    let u = law_the_interest_rule(env);
    let rate = env.natural_unemployment@;
    if env.year_unemp_buffer.len() > 0 {
        crate::indicators::lemma_sum_between(env.year_unemp_buffer, rate, rate);
        let n = env.year_unemp_buffer.len() as int;
        assert(u == rate) by (nonlinear_arith)
            requires
                abs(n * rate - n * u) < n,
                n > 0,
        ;
    }
}

/// Interest is set anew at the start of every year but the first, when the record of the year's
/// unemployment is cleared; in other months nothing happens.
pub proof fn law_interest_is_set_yearly<R: Number>(w: WorldView<R>, year: nat, month: nat)
    requires
        w.t == 12 * year + month + 1,
        month < 12,
    ensures
        month > 0 || year == 0 ==> policy_set(w) == w,
        month == 0 && year > 0 ==> policy_set(w).env.interest_rate == interest_of(w.env),
        month == 0 && year > 0 ==> policy_set(w).env.year_unemp_buffer.len() == 0,
        policy_set(w) == (WorldView {
            env: MacroEnvView {
                interest_rate: policy_set(w).env.interest_rate,
                year_unemp_buffer: policy_set(w).env.year_unemp_buffer,
                ..w.env
            },
            ..w
        }),
{
    assert(w.month() == 12 * year + month);
    assert(w.month() % 12 == month);
}

/// Households perceive the unemployment of the month before, and the inflation that the annual
/// prices show.
pub proof fn law_households_perceive_the_past(w: WorldView<Fixed>)
    requires
        0 < w.n() <= u64::MAX,
        employed_before_count(w.roster()) <= w.n(),
    ensures
        ({
            let n = w.n();
            let idle = n - employed_before_count(w.roster());
            0 <= perceived(w).unemployment@ * n - idle * ONE < n
        }),
        perceived(w).inflation == inflation_of(w.env.price_history),
{
    law_unemployment_counts_the_idle(employed_before_count(w.roster()), w.n());
}

/// The draws that give work are those below the willingness to work, and no others; so of the
/// draws between zero and one, as large a part gives work as the willingness to work is. What is
/// kept of a decision is the fiftieth nearest to each of its two shares. Nothing else changes.
pub proof fn law_work_is_found_by_chance(
    h: HouseholdView<Fixed>,
    p_work: Fixed,
    p_consume: Fixed,
    draw: Fixed,
)
    requires
        0 <= p_work@ <= ONE,
        0 <= p_consume@ <= ONE,
        0 <= draw@ < ONE,
    ensures
        decided(h, p_work, p_consume, draw).employed <==> draw@ < p_work@,
        abs(2 * (decided(h, p_work, p_consume, draw).p_work@ - p_work@)) <= FIFTIETH,
        abs(2 * (decided(h, p_work, p_consume, draw).p_consume@ - p_consume@)) <= FIFTIETH,
        ({
            let after = decided(h, p_work, p_consume, draw);
            after == (HouseholdView {
                employed: after.employed,
                p_work: after.p_work,
                p_consume: after.p_consume,
                ..h
            })
        }),
{
    lemma_literal_units();
    let k = law_snapped_to_the_nearest_fiftieth(p_work);
    let j = law_snapped_to_the_nearest_fiftieth(p_consume);
}

/// For any willingness to work, a draw at or above it gives no work and one below it does.
pub proof fn law_work_goes_to_the_lower_draws<R: Ordered>(
    h: HouseholdView<R>,
    p_work: R,
    p_consume: R,
    draw: R,
)
    requires
        crate::number::is_number(p_work),
        crate::number::is_number(draw),
    ensures
        p_work.at_most(draw) ==> !decided(h, p_work, p_consume, draw).employed,
        draw.at_most(p_work) && draw != p_work ==> decided(h, p_work, p_consume, draw).employed,
{
    R::order(draw, p_work, draw);
    R::order(p_work, draw, p_work);
}

/// What households would spend, in units of units: the shares to consume times the savings.
spec fn wish_to_spend(roster: Seq<HouseholdView<Fixed>>) -> int
    decreases roster.len(),
{
    if roster.len() == 0 {
        0
    } else {
        wish_to_spend(roster.drop_last()) + roster.last().p_consume@ * roster.last().savings@
    }
}

/// Whether households have savings and shares to consume that can be.
pub open spec fn can_spend(roster: Seq<HouseholdView<Fixed>>) -> bool {
    forall|i: int|
        0 <= i < roster.len() ==> 0 <= (#[trigger] roster[i]).p_consume@ <= ONE && 0
            <= roster[i].savings@ <= LIMIT
}

/// The price at which goods are counted, in units: the price, but not less than a billionth.
pub open spec fn counting_price(env: MacroEnvView<Fixed>) -> int {
    if env.price@ < 1000 {
        1000
    } else {
        env.price@
    }
}

/// The usable price is the price at which goods are counted.
pub proof fn lemma_counting_price(env: MacroEnvView<Fixed>)
    requires
        0 <= env.price@ <= LIMIT,
    ensures
        crate::mechanisms::usable_price(env.price)@ == counting_price(env),
        Fixed::lit(1, 9)@ == 1000,
{
    lemma_literal_units();
    reveal_with_fuel(ten_to, 14);
    assert(Fixed::lit(1, 9)@ == 1000);
}

proof fn lemma_want(c: Fixed, s: Fixed, price: Fixed)
    requires
        0 <= c@ <= ONE,
        0 <= s@ <= LIMIT,
        0 < price@,
        c@ * s@ <= LIMIT * price@,
    ensures
        ({
            let want = c.mul(s).div(price)@;
            &&& 0 <= want <= LIMIT
            &&& want * price@ <= c@ * s@
            &&& c@ * s@ <= want * price@ + price@ + ONE
        }),
{
    let (x, one, p) = (c@ * s@, ONE as int, price@);
    assert(0 <= x <= LIMIT * one) by (nonlinear_arith)
        requires
            x == c@ * s@,
            0 <= c@ <= one,
            0 <= s@ <= LIMIT,
    ;
    law_products_fall_short(c, s);
    let spend = c.mul(s);
    assert(abs(spend@) * one <= LIMIT * p) by {
        assert(spend@ * one == one * spend@) by (nonlinear_arith);
    }
    law_quotients_fall_short(spend, price);
    let want = spend.div(price)@;
    assert(want * p == p * want) by (nonlinear_arith);
    assert(spend@ * one == one * spend@) by (nonlinear_arith);
}

proof fn lemma_wants(roster: Seq<HouseholdView<Fixed>>, price: Fixed)
    requires
        can_spend(roster),
        0 < price@,
        wish_to_spend(roster) <= LIMIT * price@,
    ensures
        ({
            let wants = roster.map_values(
                |h: HouseholdView<Fixed>| h.p_consume.mul(h.savings).div(price),
            );
            &&& crate::exact::all_in_limits(wants)
            &&& sum_units(wants) * price@ <= wish_to_spend(roster)
            &&& wish_to_spend(roster) <= sum_units(wants) * price@ + roster.len() * (price@ + ONE)
        }),
        wish_to_spend(roster) >= 0,
    decreases roster.len(),
{
    let f = |h: HouseholdView<Fixed>| h.p_consume.mul(h.savings).div(price);
    let wants = roster.map_values(f);
    let p = price@;
    if roster.len() > 0 {
        let rest = roster.drop_last();
        let h = roster[roster.len() - 1];
        assert(0 <= h.p_consume@ <= ONE && 0 <= h.savings@ <= LIMIT);
        let x = h.p_consume@ * h.savings@;
        assert(x >= 0) by (nonlinear_arith)
            requires
                x == h.p_consume@ * h.savings@,
                h.p_consume@ >= 0,
                h.savings@ >= 0,
        ;
        assert forall|i: int| 0 <= i < rest.len() implies 0 <= (#[trigger] rest[i]).p_consume@
            <= ONE && 0 <= rest[i].savings@ <= LIMIT by {
            assert(rest[i] == roster[i]);
        }
        lemma_wishes_are_not_negative(rest);
        lemma_wants(rest, price);
        lemma_want(h.p_consume, h.savings, price);
        assert(wants.drop_last() =~= rest.map_values(f));
        assert(wants.last() == f(h));
        let (a, b) = (sum_units(rest.map_values(f)), f(h)@);
        assert((a + b) * p == a * p + b * p) by (nonlinear_arith);
        let (n, q) = (roster.len() as int, p + ONE);
        assert((n - 1) * q + q == n * q) by (nonlinear_arith);
        assert forall|i: int| 0 <= i < wants.len() implies 0 <= (#[trigger] wants[i])@ <= LIMIT by {
            if i < rest.len() {
                assert(wants[i] == rest.map_values(f)[i]);
            }
        }
    } else {
        assert(0 * p == 0 && 0 * (p + ONE) == 0) by (nonlinear_arith);
    }
}

proof fn lemma_wishes_are_not_negative(roster: Seq<HouseholdView<Fixed>>)
    requires
        can_spend(roster),
    ensures
        wish_to_spend(roster) >= 0,
    decreases roster.len(),
{
    if roster.len() > 0 {
        let h = roster[roster.len() - 1];
        let x = h.p_consume@ * h.savings@;
        assert(0 <= h.p_consume@ && 0 <= h.savings@);
        assert(x >= 0) by (nonlinear_arith)
            requires
                x == h.p_consume@ * h.savings@,
                h.p_consume@ >= 0,
                h.savings@ >= 0,
        ;
        let rest = roster.drop_last();
        assert forall|i: int| 0 <= i < rest.len() implies 0 <= (#[trigger] rest[i]).p_consume@
            <= ONE && 0 <= rest[i].savings@ <= LIMIT by {
            assert(rest[i] == roster[i]);
        }
        lemma_wishes_are_not_negative(rest);
    }
}

proof fn lemma_wishes_as_products(roster: Seq<HouseholdView<Fixed>>)
    ensures
        wish_to_spend(roster) == dot(
            roster.map_values(|h: HouseholdView<Fixed>| h.p_consume@),
            roster.map_values(|h: HouseholdView<Fixed>| h.savings@),
        ),
    decreases roster.len(),
{
    let f = |h: HouseholdView<Fixed>| h.p_consume@;
    let g = |h: HouseholdView<Fixed>| h.savings@;
    if roster.len() > 0 {
        lemma_wishes_as_products(roster.drop_last());
        assert(roster.map_values(f).drop_last() =~= roster.drop_last().map_values(f));
        assert(roster.map_values(g).drop_last() =~= roster.drop_last().map_values(g));
    }
}

/// The goods that households ask for, at their price, are what they would spend: each its share to
/// consume of its savings, up to a unit and a unit's price for each household.
pub proof fn law_demand_is_what_would_be_spent(w: WorldView<Fixed>)
    requires
        can_spend(w.roster()),
        0 <= w.env.price@ <= LIMIT,
        dot(
            w.roster().map_values(|h: HouseholdView<Fixed>| h.p_consume@),
            w.roster().map_values(|h: HouseholdView<Fixed>| h.savings@),
        ) <= LIMIT * counting_price(w.env),
    ensures
        ({
            let price = counting_price(w.env);
            let d = demand_of(w)@;
            let spent = dot(
                w.roster().map_values(|h: HouseholdView<Fixed>| h.p_consume@),
                w.roster().map_values(|h: HouseholdView<Fixed>| h.savings@),
            );
            &&& d >= 0
            &&& d * price <= spent
            &&& spent <= d * price + w.roster().len() * (price + ONE)
        }),
{
    lemma_counting_price(w.env);
    let price = crate::mechanisms::usable_price(w.env.price);
    let roster = w.roster();
    let wants = roster.map_values(
        |h: HouseholdView<Fixed>| h.p_consume.mul(h.savings).div(price),
    );
    lemma_wishes_as_products(roster);
    lemma_wants(roster, price);
    law_totals_are_exact(wants);
    let (s, p) = (sum_units(wants), price@);
    assert(s <= LIMIT) by (nonlinear_arith)
        requires
            s * p <= LIMIT * p,
            p > 0,
    ;
}

proof fn lemma_any_want(c: Fixed, s: Fixed, price: Fixed)
    requires
        0 <= c@ <= ONE,
        abs(s@) <= LIMIT,
        0 < price@,
        c@ * abs(s@) <= LIMIT * price@,
    ensures
        ({
            let want = c.mul(s).div(price)@;
            &&& abs(want) * price@ <= c@ * abs(s@)
            &&& abs(c@ * s@ - want * price@) <= price@ + ONE
        }),
{
    let (x, one, p) = (c@ * s@, ONE as int, price@);
    let size = c@ * abs(s@);
    assert(abs(x) == size && size <= LIMIT * one) by (nonlinear_arith)
        requires
            x == c@ * s@,
            size == c@ * abs(s@),
            0 <= c@ <= one,
            abs(s@) <= LIMIT,
    ;
    law_products_fall_short(c, s);
    let spend = c.mul(s);
    assert(abs(spend@) * one <= LIMIT * p) by {
        assert(abs(one * spend@) == abs(spend@) * one);
    }
    law_quotients_fall_short(spend, price);
    let want = spend.div(price)@;
    assert(want * p == p * want) by (nonlinear_arith);
    assert(abs(p * want) == abs(want) * p) by (nonlinear_arith)
        requires
            p > 0,
    ;
}

proof fn lemma_any_wants(roster: Seq<HouseholdView<Fixed>>, price: Fixed)
    requires
        forall|i: int|
            0 <= i < roster.len() ==> 0 <= (#[trigger] roster[i]).p_consume@ <= ONE && abs(
                roster[i].savings@,
            ) <= LIMIT,
        0 < price@,
        dot(
            roster.map_values(|h: HouseholdView<Fixed>| h.p_consume@),
            roster.map_values(|h: HouseholdView<Fixed>| abs(h.savings@)),
        ) <= LIMIT * price@,
    ensures
        ({
            let wants = roster.map_values(
                |h: HouseholdView<Fixed>| h.p_consume.mul(h.savings).div(price),
            );
            &&& 0 <= sum_sizes(wants) * price@ <= dot(
                roster.map_values(|h: HouseholdView<Fixed>| h.p_consume@),
                roster.map_values(|h: HouseholdView<Fixed>| abs(h.savings@)),
            )
            &&& abs(
                dot(
                    roster.map_values(|h: HouseholdView<Fixed>| h.p_consume@),
                    roster.map_values(|h: HouseholdView<Fixed>| h.savings@),
                ) - sum_units(wants) * price@,
            ) <= roster.len() * (price@ + ONE)
        }),
    decreases roster.len(),
{
    let f = |h: HouseholdView<Fixed>| h.p_consume.mul(h.savings).div(price);
    let c = |h: HouseholdView<Fixed>| h.p_consume@;
    let s = |h: HouseholdView<Fixed>| h.savings@;
    let size = |h: HouseholdView<Fixed>| abs(h.savings@);
    let wants = roster.map_values(f);
    let p = price@;
    if roster.len() > 0 {
        let rest = roster.drop_last();
        let h = roster[roster.len() - 1];
        assert(0 <= h.p_consume@ <= ONE && abs(h.savings@) <= LIMIT);
        assert forall|i: int| 0 <= i < rest.len() implies 0 <= (#[trigger] rest[i]).p_consume@
            <= ONE && abs(rest[i].savings@) <= LIMIT by {
            assert(rest[i] == roster[i]);
        }
        assert(roster.map_values(c).drop_last() =~= rest.map_values(c));
        assert(roster.map_values(s).drop_last() =~= rest.map_values(s));
        assert(roster.map_values(size).drop_last() =~= rest.map_values(size));
        assert(wants.drop_last() =~= rest.map_values(f));
        let (x, y) = (h.p_consume@, abs(h.savings@));
        assert(x * y >= 0) by (nonlinear_arith)
            requires
                x >= 0,
                y >= 0,
        ;
        lemma_sizes_of_wishes(rest);
        lemma_any_wants(rest, price);
        lemma_any_want(h.p_consume, h.savings, price);
        let (a, b) = (sum_units(rest.map_values(f)), f(h)@);
        assert((a + b) * p == a * p + b * p) by (nonlinear_arith);
        let (d, e) = (sum_sizes(rest.map_values(f)), abs(f(h)@));
        assert((d + e) * p == d * p + e * p) by (nonlinear_arith);
        assert(e * p >= 0) by (nonlinear_arith)
            requires
                e >= 0,
                p > 0,
        ;
        let (n, q) = (roster.len() as int, p + ONE);
        assert((n - 1) * q + q == n * q) by (nonlinear_arith);
    } else {
        assert(0 * p == 0 && 0 * (p + ONE) == 0) by (nonlinear_arith);
    }
}

proof fn lemma_sizes_of_wishes(roster: Seq<HouseholdView<Fixed>>)
    requires
        forall|i: int| 0 <= i < roster.len() ==> 0 <= (#[trigger] roster[i]).p_consume@,
    ensures
        0 <= dot(
            roster.map_values(|h: HouseholdView<Fixed>| h.p_consume@),
            roster.map_values(|h: HouseholdView<Fixed>| abs(h.savings@)),
        ),
    decreases roster.len(),
{
    let c = |h: HouseholdView<Fixed>| h.p_consume@;
    let size = |h: HouseholdView<Fixed>| abs(h.savings@);
    if roster.len() > 0 {
        let rest = roster.drop_last();
        assert forall|i: int| 0 <= i < rest.len() implies 0 <= (
        #[trigger] rest[i]).p_consume@ by {
            assert(rest[i] == roster[i]);
        }
        lemma_sizes_of_wishes(rest);
        assert(roster.map_values(c).drop_last() =~= rest.map_values(c));
        assert(roster.map_values(size).drop_last() =~= rest.map_values(size));
        let h = roster[roster.len() - 1];
        let (x, y) = (h.p_consume@, abs(h.savings@));
        assert(x * y >= 0) by (nonlinear_arith)
            requires
                x >= 0,
                y >= 0,
        ;
    }
}

/// Debts count against demand as savings count for it.
pub proof fn law_debts_count_against_demand(w: WorldView<Fixed>)
    requires
        forall|i: int|
            0 <= i < w.roster().len() ==> 0 <= (#[trigger] w.roster()[i]).p_consume@ <= ONE && abs(
                w.roster()[i].savings@,
            ) <= LIMIT,
        0 <= w.env.price@ <= LIMIT,
        dot(
            w.roster().map_values(|h: HouseholdView<Fixed>| h.p_consume@),
            w.roster().map_values(|h: HouseholdView<Fixed>| abs(h.savings@)),
        ) <= LIMIT * counting_price(w.env),
    ensures
        abs(
            dot(
                w.roster().map_values(|h: HouseholdView<Fixed>| h.p_consume@),
                w.roster().map_values(|h: HouseholdView<Fixed>| h.savings@),
            ) - demand_of(w)@ * counting_price(w.env),
        ) <= w.roster().len() * (counting_price(w.env) + ONE),
{
    lemma_counting_price(w.env);
    let price = crate::mechanisms::usable_price(w.env.price);
    let wants = w.roster().map_values(
        |h: HouseholdView<Fixed>| h.p_consume.mul(h.savings).div(price),
    );
    lemma_any_wants(w.roster(), price);
    let (s, p) = (sum_sizes(wants), price@);
    assert(s <= LIMIT) by (nonlinear_arith)
        requires
            s * p <= LIMIT * p,
            p > 0,
    ;
    law_small_totals_are_exact(wants);
}

/// Nobody asks for goods where nobody would spend anything.
pub proof fn law_no_wish_no_demand(w: WorldView<Fixed>)
    requires
        can_spend(w.roster()),
        0 <= w.env.price@ <= LIMIT,
        forall|i: int|
            0 <= i < w.roster().len() ==> (#[trigger] w.roster()[i]).p_consume@ == 0
                || w.roster()[i].savings@ == 0,
    ensures
        demand_of(w)@ == 0,
{
    lemma_nothing_to_spend(w.roster());
    lemma_wishes_as_products(w.roster());
    let price = counting_price(w.env);
    assert(LIMIT * price >= 0) by (nonlinear_arith)
        requires
            price > 0,
    ;
    law_demand_is_what_would_be_spent(w);
    let d = demand_of(w)@;
    assert(d == 0) by (nonlinear_arith)
        requires
            d >= 0,
            d * price <= 0,
            price > 0,
    ;
}

proof fn lemma_nothing_to_spend(roster: Seq<HouseholdView<Fixed>>)
    requires
        forall|i: int|
            0 <= i < roster.len() ==> (#[trigger] roster[i]).p_consume@ == 0 || roster[i].savings@
                == 0,
    ensures
        wish_to_spend(roster) == 0,
    decreases roster.len(),
{
    if roster.len() > 0 {
        let rest = roster.drop_last();
        assert forall|i: int| 0 <= i < rest.len() implies (#[trigger] rest[i]).p_consume@ == 0
            || rest[i].savings@ == 0 by {
            assert(rest[i] == roster[i]);
        }
        lemma_nothing_to_spend(rest);
        let h = roster[roster.len() - 1];
        let (c, s) = (h.p_consume@, h.savings@);
        assert(c == 0 || s == 0);
        assert(c * s == 0) by (nonlinear_arith)
            requires
                c == 0 || s == 0,
        ;
    }
}

/// Demand is the same for two economies of the same price whose households have the same savings and
/// the same shares to consume, whatever else they decide, earn or remember; and the higher the
/// shares, the higher it is.
pub proof fn law_demand_depends_on_wishes_alone<R: Ordered>(v: WorldView<R>, w: WorldView<R>)
    requires
        v.roster().len() == w.roster().len(),
        v.env.price == w.env.price,
        R::lit(1, 9).at_most(v.env.price),
        forall|i: int|
            0 <= i < v.roster().len() ==> zero::<R>().at_most((#[trigger] v.roster()[i]).savings)
                && v.roster()[i].savings == w.roster()[i].savings,
        forall|i: int|
            0 <= i < v.roster().len() ==> (#[trigger] v.roster()[i]).p_consume.at_most(
                w.roster()[i].p_consume,
            ),
    ensures
        demand_of(v).at_most(demand_of(w)),
        (forall|i: int|
            0 <= i < v.roster().len() ==> (#[trigger] v.roster()[i]).p_consume
                == w.roster()[i].p_consume) ==> demand_of(v) == demand_of(w),
{
    crate::laws::lemma_order::<R>();
    R::literals(1, 9, 1);
    let price = crate::mechanisms::usable_price(v.env.price);
    assert(zero::<R>().below(price));
    let (s, t) = (
        v.roster().map_values(|h: HouseholdView<R>| h.p_consume.mul(h.savings).div(price)),
        w.roster().map_values(|h: HouseholdView<R>| h.p_consume.mul(h.savings).div(price)),
    );
    assert forall|i: int| 0 <= i < s.len() implies (#[trigger] s[i]).at_most(t[i]) by {
        let (g, h) = (v.roster()[i], w.roster()[i]);
        assert(g.p_consume.at_most(h.p_consume));
        assert(g.savings == h.savings);
        R::products(g.p_consume, h.p_consume, g.savings);
        R::quotients(g.p_consume.mul(g.savings), h.p_consume.mul(h.savings), price);
    }
    lemma_totals_grow(s, t);
    if forall|i: int|
        0 <= i < v.roster().len() ==> (#[trigger] v.roster()[i]).p_consume
            == w.roster()[i].p_consume {
        assert forall|i: int| 0 <= i < s.len() implies s[i] == #[trigger] t[i] by {
            let (g, h) = (v.roster()[i], w.roster()[i]);
            assert(g.p_consume == h.p_consume && g.savings == h.savings);
        }
        assert(s =~= t);
    }
}

/// A sum of larger terms is larger.
pub proof fn lemma_totals_grow<R: Ordered>(s: Seq<R>, t: Seq<R>)
    requires
        s.len() == t.len(),
        forall|i: int| 0 <= i < s.len() ==> (#[trigger] s[i]).at_most(t[i]),
    ensures
        total(s).at_most(total(t)),
    decreases s.len(),
{
    crate::laws::lemma_order::<R>();
    if s.len() > 0 {
        let (a, b) = (s.drop_last(), t.drop_last());
        assert forall|i: int| 0 <= i < a.len() implies (#[trigger] a[i]).at_most(b[i]) by {
            assert(s[i].at_most(t[i]));
        }
        lemma_totals_grow(a, b);
        assert(s[s.len() - 1].at_most(t[t.len() - 1]));
        R::sums(total(a), total(b), s.last());
        R::sums(s.last(), t.last(), total(b));
    }
}

/// The imbalance of a market is what demand exceeds the stock by, in parts of the larger of the two.
pub proof fn law_imbalance_is_relative(w: WorldView<Fixed>)
    requires
        -LIMIT <= demand_of(w)@ <= LIMIT,
        0 <= w.env.inventory@ <= LIMIT,
        demand_of(w)@ < 0 ==> (w.env.inventory@ - demand_of(w)@) * ONE <= LIMIT * 1000,
    ensures
        ({
            let (d, s) = (demand_of(w)@, w.env.inventory@);
            let r = imbalance_of(w)@;
            &&& d >= s && d >= 1000 ==> abs(r * d - (d - s) * ONE) < d
            &&& s >= d && s >= 1000 ==> abs(r * s - (d - s) * ONE) < s
            &&& d < 1000 && s < 1000 ==> abs(r * 1000 - (d - s) * ONE) < 1000
            &&& d >= s ==> r >= 0
            &&& d <= s ==> r <= 0
            &&& d >= 0 ==> -ONE <= r <= ONE
        }),
{
    lemma_literal_units();
    reveal_with_fuel(ten_to, 14);
    assert(Fixed::lit(1, 9)@ == 1000);
    let (d, s) = (demand_of(w), w.env.inventory);
    let base = crate::number::max_of(crate::number::max_of(d, s), Fixed::lit(1, 9));
    let gap = d.sub(s);
    assert(base@ >= d@ && base@ >= s@ && base@ >= 1000);
    let (b, one) = (base@, ONE as int);
    if d@ >= 0 {
        assert(gap@ == d@ - s@);
        assert(abs(gap@) * one <= LIMIT * b) by (nonlinear_arith)
            requires
                abs(gap@) <= b,
                one <= LIMIT,
                b > 0,
        ;
    } else {
        assert(gap@ == d@ - s@);
        assert(LIMIT * 1000 <= LIMIT * b) by (nonlinear_arith)
            requires
                b >= 1000,
        ;
    }
    law_quotients_fall_short(gap, base);
    let r = gap.div(base)@;
    assert(r * b == b * r) by (nonlinear_arith);
    if d@ >= 0 {
        assert(-one <= r <= one) by (nonlinear_arith)
            requires
                abs(b * r) <= abs(gap@) * one,
                abs(gap@) <= b,
                b > 0,
                one > 0,
        ;
    }
}

/// The most that a draw can move wages or the price by is the given part of the imbalance.
pub proof fn law_moves_are_bounded_by_the_imbalance(alpha: Fixed, imbalance: Fixed)
    requires
        0 <= alpha@ <= MODERATE,
        -ONE <= imbalance@ <= ONE,
    ensures
        0 <= alpha@ * abs(imbalance@) - ONE * change_bound(alpha, imbalance)@ < ONE,
{
    let size = imbalance.magnitude();
    assert(size@ == abs(imbalance@));
    lemma_moderate_product(alpha, size);
    law_products_fall_short(alpha, size);
    let (a, b) = (alpha@, size@);
    assert(a * b >= 0) by (nonlinear_arith)
        requires
            a >= 0,
            b >= 0,
    ;
}

/// A wage or a price moves by the part that was drawn: up where the imbalance is not negative and
/// down where it is, up to a unit, but not below its floor.
pub proof fn law_moves_are_relative(x: Fixed, imbalance: Fixed, draw: Fixed, floor: Fixed)
    requires
        0 <= x@ <= MODERATE,
        -LIMIT <= imbalance@ <= LIMIT,
        0 <= draw@ <= MODERATE,
        0 <= floor@ <= MODERATE,
    ensures
        ({
            let exact = if imbalance@ >= 0 {
                x@ * (ONE + draw@)
            } else {
                x@ * (ONE - draw@)
            };
            let r = moved(x, imbalance, draw, floor)@;
            &&& r >= floor@
            &&& r > floor@ ==> 0 <= exact - r * ONE < ONE
            &&& exact >= floor@ * ONE ==> 0 <= exact - r * ONE < ONE
            &&& exact < floor@ * ONE ==> r == floor@
        }),
{
    lemma_literal_units();
    reveal_with_fuel(ten_to, 14);
    let minus = Fixed::lit(-1, 0);
    assert(minus@ == -ONE);
    let (one, d) = (ONE as int, draw@);
    let way = if imbalance@ >= 0 {
        Fixed::lit(1, 0)
    } else {
        minus
    };
    assert(way.mul(draw)@ == (if imbalance@ >= 0 {
        d
    } else {
        -d
    })) by {
        lemma_quot_exact(d, one);
        lemma_quot_exact(-d, one);
        assert((-one) * d == (-d) * one && one * d == d * one) by (nonlinear_arith);
    }
    let factor = Fixed::lit(1, 0).add(way.mul(draw));
    assert(factor@ == (if imbalance@ >= 0 {
        one + d
    } else {
        one - d
    }));
    lemma_moderate_product(x, factor);
    law_products_fall_short(x, factor);
    let (a, b) = (x@, factor@);
    let y = x.mul(factor)@;
    assert(one * y == y * one) by (nonlinear_arith);
    let (f, e) = (floor@, a * b);
    if e >= 0 {
        assert(e >= f * one ==> y >= f) by (nonlinear_arith)
            requires
                0 <= e - one * y,
                e - one * y < one,
                one > 0,
        ;
        assert(e < f * one ==> y < f) by (nonlinear_arith)
            requires
                0 <= e - one * y,
                e - one * y < one,
                one > 0,
        ;
    } else {
        assert(f * one >= 0) by (nonlinear_arith)
            requires
                f >= 0,
                one > 0,
        ;
    }
}

/// Moving a wage changes that wage alone, and moving the price the price alone; the price has a
/// floor of a millionth and a wage one of zero.
pub proof fn law_moves_change_nothing_else<R: Number>(w: WorldView<R>, id: u64, imbalance: R, draw: R)
    requires
        w.households.contains_key(id),
    ensures
        price_moved(w, imbalance, draw).households == w.households,
        price_moved(w, imbalance, draw).t == w.t,
        price_moved(w, imbalance, draw).env == (MacroEnvView {
            price: moved(w.env.price, imbalance, draw, R::lit(1, 6)),
            ..w.env
        }),
        wage_moved(w, id, imbalance, draw).env == w.env,
        wage_moved(w, id, imbalance, draw).households[id] == (HouseholdView {
            wage: moved(w.households[id].wage, imbalance, draw, R::lit(0, 0)),
            ..w.households[id]
        }),
        forall|other: u64|
            other != id && w.households.contains_key(other) ==> (
            #[trigger] wage_moved(w, id, imbalance, draw).households[other])
                == w.households[other],
{
}

/// Production changes the stock alone.
pub proof fn law_production_changes_the_stock_alone<R: Number>(w: WorldView<R>)
    ensures
        stocked(w).households == w.households,
        stocked(w).t == w.t,
        stocked(w).env == (MacroEnvView { inventory: stocked(w).env.inventory, ..w.env }),
{
}

} // verus!
