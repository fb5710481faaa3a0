//! The five mechanisms that move the economy through a month.
//!
//! | Mechanism | Role |
//! |---|---|
//! | [`MacroPolicyMechanism`] | sets the interest rate at the start of a year |
//! | [`LlmDecisionMechanism`] | has each household decide on work and consumption |
//! | [`MarketClearingMechanism`] | produces goods, and moves wages and the price with demand |
//! | [`FiscalRewardMechanism`] | taxes, redistributes, consumes, and records the indicators |
//! | [`MemoryUpdateMechanism`] | keeps the memories and carries employment over |
//!
//! Where a mechanism needs a reply or a random draw, it says what it asks for and takes the answer
//! as an argument.

use vstd::prelude::*;

use crate::metrics::{
    gdp_of, gini, gini_of, inflation_of, inflation_rate, mean, mean_of, nominal_gdp,
    unemployment_of, unemployment_rate, MacroMetrics,
};
use crate::number::{max, max_of, min, min_of, total, Number};
use crate::text::{numeral, numeral_text, trim, trimmed};
use crate::world::{
    is_ascending_of, snap_probability, snapped, texts, EconWorld, Household, HouseholdView,
    MacroEnvView, WorldView, HOURS_PER_MONTH,
};

verus! {

broadcast use vstd::seq_lib::group_seq_properties;

/// The tax on the first `k` brackets of an income.
pub open spec fn tax_below<R: Number>(z: R, brackets: Seq<R>, rates: Seq<R>, k: nat) -> R
    decreases k,
{
    if k == 0 {
        R::lit(0, 0)
    } else {
        let lo = brackets[k - 1];
        let hi = brackets[k as int];
        let below = tax_below(z, brackets, rates, (k - 1) as nat);
        if lo.below(z) {
            below.add(rates[k - 1].mul(min_of(z, hi).sub(lo)))
        } else {
            below
        }
    }
}

/// The tax on an income: each bracket's rate on the part of the income within it.
pub open spec fn tax_of<R: Number>(z: R, brackets: Seq<R>, rates: Seq<R>) -> R {
    if z.at_most(R::lit(0, 0)) {
        R::lit(0, 0)
    } else {
        tax_below(z, brackets, rates, rates.len())
    }
}

pub fn progressive_tax<R: Number>(z: R, brackets: &[R], rates: &[R]) -> (r: R)
    requires
        z.at_most(R::lit(0, 0)) || rates.len() == 0 || rates.len() < brackets.len(),
    ensures
        r == tax_of(z, brackets@, rates@),
{
    if z.le(R::decimal(0, 0)) {
        return R::decimal(0, 0);
    }
    let mut tax: R = R::decimal(0, 0);
    for k in 0..rates.len()
        invariant
            rates.len() == 0 || rates.len() < brackets.len(),
            tax == tax_below(z, brackets@, rates@, k as nat),
    {
        let lo = brackets[k];
        let hi = brackets[k + 1];
        if lo.lt(z) {
            let taxable = min(z, hi).minus(lo);
            tax = tax.plus(rates[k].times(taxable));
        }
    }
    tax
}

/// Sets the interest rate.
pub struct MacroPolicyMechanism;

/// The interest rule: the natural rate and the inflation target, corrected for the distance of
/// inflation from its target and of unemployment from its natural rate; never below zero.
pub open spec fn interest_of<R: Number>(env: MacroEnvView<R>) -> R {
    let pi = inflation_of(env.price_history);
    let u = if env.year_unemp_buffer.len() == 0 {
        env.natural_unemployment
    } else {
        mean_of(env.year_unemp_buffer)
    };
    max_of(
        env.natural_rate.add(env.target_inflation).add(
            env.alpha_pi.mul(pi.sub(env.target_inflation)),
        ).add(env.alpha_u.mul(env.natural_unemployment.sub(u))),
        R::lit(0, 0),
    )
}

/// Whether a year starts with a month; the first year brings no decision on interest.
pub open spec fn is_year_start(month: nat) -> bool {
    month > 0 && month % 12 == 0
}

/// The world after the interest decision.
pub open spec fn policy_set<R: Number>(w: WorldView<R>) -> WorldView<R> {
    if is_year_start(w.month()) {
        w.with_env(
            MacroEnvView {
                interest_rate: interest_of(w.env),
                year_unemp_buffer: Seq::empty(),
                ..w.env
            },
        )
    } else {
        w
    }
}

impl MacroPolicyMechanism {
    pub fn apply<R: Number>(&self, world: &mut EconWorld<R>)
        ensures
            final(world)@ == policy_set(old(world)@),
    {
        let month = world.month();
        if month > 0 && month % 12 == 0 {
            let pi = inflation_rate(&world.env.price_history);
            let u = if world.env.year_unemp_buffer.len() == 0 {
                world.env.natural_unemployment
            } else {
                mean(&world.env.year_unemp_buffer)
            };
            let r = world.env.natural_rate.plus(world.env.target_inflation).plus(
                world.env.alpha_pi.times(pi.minus(world.env.target_inflation)),
            ).plus(world.env.alpha_u.times(world.env.natural_unemployment.minus(u)));
            world.env.interest_rate = max(r, R::decimal(0, 0));
            world.env.year_unemp_buffer.clear();
        }
    }
}

/// How many households have work.
pub open spec fn employed_count<R>(roster: Seq<HouseholdView<R>>) -> nat {
    roster.filter(|h: HouseholdView<R>| h.employed).len()
}

/// How many households had work last month.
pub open spec fn employed_before_count<R>(roster: Seq<HouseholdView<R>>) -> nat {
    roster.filter(|h: HouseholdView<R>| h.employed_prev).len()
}

/// Whether a household has work, or had work last month.
pub open spec fn has_work<R>(h: HouseholdView<R>, before: bool) -> bool {
    if before {
        h.employed_prev
    } else {
        h.employed
    }
}

/// Counts the households that have work, or had work last month.
fn count_employed<R: Number>(world: &EconWorld<R>, before: bool) -> (r: usize)
    ensures
        before ==> r == employed_before_count(world@.roster()),
        !before ==> r == employed_count(world@.roster()),
        r <= world@.n(),
{
    let ids = world.agent_ids();
    let ghost roster = world@.roster();
    let ghost counted = |h: HouseholdView<R>| has_work(h, before);
    let mut count: usize = 0;
    for i in 0..ids.len()
        invariant
            ids@ == world@.ids(),
            is_ascending_of(ids@, world@.households.dom()),
            ids.len() == world@.n(),
            roster == world@.roster(),
            counted == (|h: HouseholdView<R>| has_work(h, before)),
            count <= i,
            count == roster.take(i as int).filter(counted).len(),
    {
        proof {
            reveal(Seq::filter);
            assert(roster.take(i + 1).drop_last() =~= roster.take(i as int));
            assert(ids@.contains(ids@[i as int]));
        }
        if let Some(h) = world.household(ids[i]) {
            if (before && h.employed_prev) || (!before && h.employed) {
                count = count + 1;
            }
        }
    }
    proof {
        assert(roster.take(ids.len() as int) =~= roster);
        if before {
            assert(counted =~= (|h: HouseholdView<R>| h.employed_prev));
        } else {
            assert(counted =~= (|h: HouseholdView<R>| h.employed));
        }
    }
    count
}

/// Has each household decide on work and consumption.
pub struct LlmDecisionMechanism;

/// What a household is told about the economy when it decides.
#[derive(Clone, Copy)]
pub struct Perception<R> {
    /// Unemployment of last month.
    pub unemployment: R,
    /// Inflation of the last finished year.
    pub inflation: R,
}

/// What the households perceive in a world.
pub open spec fn perceived<R: Number>(w: WorldView<R>) -> Perception<R> {
    Perception {
        unemployment: unemployment_of(employed_before_count(w.roster()), w.n()),
        inflation: inflation_of(w.env.price_history),
    }
}

/// A household after its decision: it works if the draw is below its willingness to work.
pub open spec fn decided<R: Number>(
    h: HouseholdView<R>,
    p_work: R,
    p_consume: R,
    draw: R,
) -> HouseholdView<R> {
    HouseholdView {
        p_work: snapped(p_work),
        p_consume: snapped(p_consume),
        employed: draw.below(p_work),
        ..h
    }
}

impl LlmDecisionMechanism {
    /// What the households perceive.
    pub fn perceive<R: Number>(&self, world: &EconWorld<R>) -> (r: Perception<R>)
        ensures
            r == perceived(world@),
    {
        Perception {
            unemployment: unemployment_rate(count_employed(world, true), world.n()),
            inflation: inflation_rate(&world.env.price_history),
        }
    }

    /// Enters the decision of a household, and whether it finds work, for which `draw` comes from
    /// the uniform distribution between zero and one.
    pub fn decide<R: Number>(&self, world: &mut EconWorld<R>, id: u64, p_work: R, p_consume: R, draw: R)
        requires
            old(world)@.households.contains_key(id),
        ensures
            final(world)@ == old(world)@.with_household(
                id,
                decided(old(world)@.households[id], p_work, p_consume, draw),
            ),
    {
        let mut h = world.take_household(id);
        h.p_work = snap_probability(p_work);
        h.p_consume = snap_probability(p_consume);
        h.employed = draw.lt(p_work);
        world.put_household(id, h);
        assert(world@.households =~= old(world)@.households.insert(id, h@));
    }
}

/// Produces goods, and moves wages and the price with the excess of demand over supply.
pub struct MarketClearingMechanism;

/// The price to divide by.
pub open spec fn usable_price<R: Number>(price: R) -> R {
    max_of(price, R::lit(1, 9))
}

/// What the employed produce in a month.
pub open spec fn production_of<R: Number>(w: WorldView<R>) -> R {
    total(
        Seq::new(
            employed_count(w.roster()),
            |i: int| R::lit(HOURS_PER_MONTH as int, 0).mul(w.env.productivity),
        ),
    )
}

/// The goods that households ask for.
pub open spec fn demand_of<R: Number>(w: WorldView<R>) -> R {
    let price = usable_price(w.env.price);
    total(w.roster().map_values(|h: HouseholdView<R>| h.p_consume.mul(h.savings).div(price)))
}

/// The world with a month's production in stock.
pub open spec fn stocked<R: Number>(w: WorldView<R>) -> WorldView<R> {
    w.with_env(MacroEnvView { inventory: w.env.inventory.add(production_of(w)), ..w.env })
}

/// The excess of demand over the stock, relative to the larger of the two.
pub open spec fn imbalance_of<R: Number>(w: WorldView<R>) -> R {
    let demand = demand_of(w);
    let supply = w.env.inventory;
    demand.sub(supply).div(max_of(max_of(demand, supply), R::lit(1, 9)))
}

/// The direction in which an imbalance moves wages and the price.
pub open spec fn direction_of<R: Number>(imbalance: R) -> R {
    if R::lit(0, 0).at_most(imbalance) {
        R::lit(1, 0)
    } else {
        R::lit(-1, 0)
    }
}

/// The largest relative change that an imbalance allows.
pub open spec fn change_bound<R: Number>(alpha: R, imbalance: R) -> R {
    alpha.mul(imbalance.magnitude())
}

/// A quantity after a relative change in the direction of the imbalance, kept above a floor.
pub open spec fn moved<R: Number>(x: R, imbalance: R, draw: R, floor: R) -> R {
    max_of(x.mul(R::lit(1, 0).add(direction_of(imbalance).mul(draw))), floor)
}

/// The lowest price.
pub open spec fn price_floor<R: Number>() -> R {
    R::lit(1, 6)
}

fn shifted<R: Number>(x: R, imbalance: R, draw: R, floor: R) -> (r: R)
    ensures
        r == moved(x, imbalance, draw, floor),
{
    let sign = if R::decimal(0, 0).le(imbalance) {
        R::decimal(1, 0)
    } else {
        R::decimal(-1, 0)
    };
    max(x.times(R::decimal(1, 0).plus(sign.times(draw))), floor)
}

impl MarketClearingMechanism {
    /// Puts the month's production into stock and finds the imbalance of the market.
    pub fn produce<R: Number>(&self, world: &mut EconWorld<R>) -> (imbalance: R)
        ensures
            final(world)@ == stocked(old(world)@),
            imbalance == imbalance_of(final(world)@),
    {
        let n_employed = count_employed(world, false);
        let ghost unit = R::lit(HOURS_PER_MONTH as int, 0).mul(world@.env.productivity);
        let ghost units = Seq::new(n_employed as nat, |i: int| unit);
        let per_worker = R::decimal(HOURS_PER_MONTH, 0).times(world.env.productivity);
        let mut production: R = R::decimal(0, 0);
        for i in 0..n_employed
            invariant
                per_worker == unit,
                units == Seq::new(n_employed as nat, |i: int| unit),
                production == total(units.take(i as int)),
        {
            assert(units.take(i + 1).drop_last() =~= units.take(i as int));
            production = production.plus(per_worker);
        }
        proof {
            assert(units.take(n_employed as int) =~= units);
            assert(units =~= Seq::new(
                employed_count(world@.roster()),
                |i: int| R::lit(HOURS_PER_MONTH as int, 0).mul(world@.env.productivity),
            ));
        }
        world.env.inventory = world.env.inventory.plus(production);

        let price = max(world.env.price, R::decimal(1, 9));
        let ids = world.agent_ids();
        let ghost wants = world@.roster().map_values(
            |h: HouseholdView<R>| h.p_consume.mul(h.savings).div(price),
        );
        let mut demand: R = R::decimal(0, 0);
        for i in 0..ids.len()
            invariant
                ids@ == world@.ids(),
                is_ascending_of(ids@, world@.households.dom()),
                wants == world@.roster().map_values(
                    |h: HouseholdView<R>| h.p_consume.mul(h.savings).div(price),
                ),
                demand == total(wants.take(i as int)),
        {
            proof {
                assert(wants.take(i + 1).drop_last() =~= wants.take(i as int));
                assert(ids@.contains(ids@[i as int]));
            }
            if let Some(h) = world.household(ids[i]) {
                demand = demand.plus(h.p_consume.times(h.savings).over(price));
            }
        }
        assert(wants.take(ids.len() as int) =~= wants);
        let supply = world.env.inventory;
        demand.minus(supply).over(max(max(demand, supply), R::decimal(1, 9)))
    }

    /// The bound of the draw that moves a wage.
    pub fn wage_bound<R: Number>(&self, world: &EconWorld<R>, imbalance: R) -> (r: R)
        ensures
            r == change_bound(world@.env.alpha_w, imbalance),
    {
        world.env.alpha_w.times(imbalance.abs())
    }

    /// The bound of the draw that moves the price.
    pub fn price_bound<R: Number>(&self, world: &EconWorld<R>, imbalance: R) -> (r: R)
        ensures
            r == change_bound(world@.env.alpha_p, imbalance),
    {
        world.env.alpha_p.times(imbalance.abs())
    }

    /// Moves the wage of a household; `draw` comes from the uniform distribution between zero and
    /// the bound of wages.
    pub fn adjust_wage<R: Number>(&self, world: &mut EconWorld<R>, id: u64, imbalance: R, draw: R)
        requires
            old(world)@.households.contains_key(id),
        ensures
            final(world)@ == wage_moved(old(world)@, id, imbalance, draw),
    {
        let mut h = world.take_household(id);
        h.wage = shifted(h.wage, imbalance, draw, R::decimal(0, 0));
        world.put_household(id, h);
        assert(world@.households =~= old(world)@.households.insert(id, h@));
    }

    /// Moves the price; `draw` comes from the uniform distribution between zero and the bound of
    /// the price.
    pub fn adjust_price<R: Number>(&self, world: &mut EconWorld<R>, imbalance: R, draw: R)
        ensures
            final(world)@ == price_moved(old(world)@, imbalance, draw),
    {
        world.env.price = shifted(world.env.price, imbalance, draw, R::decimal(1, 6));
    }
}

/// The world with one wage moved.
pub open spec fn wage_moved<R: Number>(w: WorldView<R>, id: u64, imbalance: R, draw: R) -> WorldView<R> {
    let h = w.households[id];
    w.with_household(
        id,
        HouseholdView { wage: moved(h.wage, imbalance, draw, R::lit(0, 0)), ..h },
    )
}

/// The world with the price moved.
pub open spec fn price_moved<R: Number>(w: WorldView<R>, imbalance: R, draw: R) -> WorldView<R> {
    w.with_env(
        MacroEnvView { price: moved(w.env.price, imbalance, draw, price_floor()), ..w.env },
    )
}

/// Taxes, redistributes, consumes, and records the indicators of the month.
pub struct FiscalRewardMechanism<R> {
    /// The indicators of the months so far.
    pub metrics: Vec<MacroMetrics<R>>,
}

/// The tax that a household owes.
pub open spec fn tax_due<R: Number>(h: HouseholdView<R>, env: MacroEnvView<R>) -> R {
    tax_of(h.income(), env.tax_brackets, env.tax_rates)
}

/// What a household spends: its share to consume of its savings, if it has any.
pub open spec fn spending_of<R: Number>(h: HouseholdView<R>) -> R {
    h.p_consume.mul(max_of(h.savings, R::lit(0, 0)))
}

/// The tax revenue of a month.
pub open spec fn revenue_of<R: Number>(w: WorldView<R>) -> R {
    total(w.roster().map_values(|h: HouseholdView<R>| tax_due(h, w.env)))
}

/// The equal part of the revenue that each household receives.
pub open spec fn redistribution_of<R: Number>(w: WorldView<R>) -> R {
    if w.n() > 0 {
        revenue_of(w).div(R::count_of(w.n()))
    } else {
        R::lit(0, 0)
    }
}

/// The goods that households consume.
pub open spec fn consumption_of<R: Number>(w: WorldView<R>) -> R {
    let price = usable_price(w.env.price);
    total(w.roster().map_values(|h: HouseholdView<R>| spending_of(h).div(price)))
}

/// A household after tax, redistribution and consumption.
pub open spec fn settled_household<R: Number>(
    h: HouseholdView<R>,
    env: MacroEnvView<R>,
    redistribution: R,
) -> HouseholdView<R> {
    let tax = tax_due(h, env);
    HouseholdView {
        savings: h.savings.sub(spending_of(h)).add(h.income().sub(tax)).add(redistribution),
        last_consumption: spending_of(h),
        last_tax: tax,
        ..h
    }
}

/// The households of a world after tax, redistribution and consumption.
pub open spec fn settled_households<R: Number>(w: WorldView<R>) -> Map<u64, HouseholdView<R>> {
    w.households.map_values(
        |h: HouseholdView<R>| settled_household(h, w.env, redistribution_of(w)),
    )
}

/// Unemployment in a world.
pub open spec fn unemployment_in<R: Number>(w: WorldView<R>) -> R {
    unemployment_of(employed_count(w.roster()), w.n())
}

/// Whether a year ends with a month.
pub open spec fn is_year_end(month: nat) -> bool {
    (month + 1) % 12 == 0
}

/// The environment after the settlement of a month: goods consumed leave the stock, and the price
/// and unemployment enter the annual accounts, which a year's end closes.
pub open spec fn settled_env<R: Number>(w: WorldView<R>) -> MacroEnvView<R> {
    let prices = w.env.year_price_buffer.push(w.env.price);
    let closing = is_year_end(w.month());
    MacroEnvView {
        inventory: max_of(w.env.inventory.sub(consumption_of(w)), R::lit(0, 0)),
        redistribution: redistribution_of(w),
        year_unemp_buffer: w.env.year_unemp_buffer.push(unemployment_in(w)),
        price_history: if closing {
            w.env.price_history.push(mean_of(prices))
        } else {
            w.env.price_history
        },
        year_price_buffer: if closing {
            Seq::empty()
        } else {
            prices
        },
        ..w.env
    }
}

/// The world after the settlement of a month.
pub open spec fn settled_world<R: Number>(w: WorldView<R>) -> WorldView<R> {
    WorldView { households: settled_households(w), env: settled_env(w), ..w }
}

/// The indicators of a month, from the world before its settlement.
pub open spec fn metrics_of<R: Number>(w: WorldView<R>) -> MacroMetrics<R> {
    let after = settled_world(w).roster();
    MacroMetrics {
        month: w.month() as usize,
        year: (w.month() / 12) as usize,
        nominal_gdp: gdp_of(
            employed_count(w.roster()),
            R::lit(HOURS_PER_MONTH as int, 0),
            w.env.productivity,
            usable_price(w.env.price),
        ),
        price: w.env.price,
        interest_rate: w.env.interest_rate,
        unemployment_rate: unemployment_in(w),
        inflation_rate: inflation_of(w.env.price_history),
        gini_savings: gini_of(
            after.map_values(|h: HouseholdView<R>| max_of(h.savings, R::lit(0, 0))),
        ),
        avg_work_propensity: mean_of(after.map_values(|h: HouseholdView<R>| h.p_work)),
        avg_consume_propensity: mean_of(after.map_values(|h: HouseholdView<R>| h.p_consume)),
        redistribution: redistribution_of(w),
    }
}

/// Whether the tax schedule of an environment has an upper border for each rate.
pub open spec fn has_schedule<R>(env: MacroEnvView<R>) -> bool {
    env.tax_rates.len() < env.tax_brackets.len()
}

fn collect_revenue<R: Number>(world: &EconWorld<R>) -> (r: R)
    requires
        has_schedule(world@.env),
    ensures
        r == revenue_of(world@),
{
    let ids = world.agent_ids();
    let ghost taxes = world@.roster().map_values(|h: HouseholdView<R>| tax_due(h, world@.env));
    let mut revenue: R = R::decimal(0, 0);
    for i in 0..ids.len()
        invariant
            has_schedule(world@.env),
            ids@ == world@.ids(),
            is_ascending_of(ids@, world@.households.dom()),
            taxes == world@.roster().map_values(|h: HouseholdView<R>| tax_due(h, world@.env)),
            revenue == total(taxes.take(i as int)),
    {
        proof {
            assert(taxes.take(i + 1).drop_last() =~= taxes.take(i as int));
            assert(ids@.contains(ids@[i as int]));
        }
        if let Some(h) = world.household(ids[i]) {
            revenue = revenue.plus(
                progressive_tax(h.pretax_income(), &world.env.tax_brackets, &world.env.tax_rates),
            );
        }
    }
    assert(taxes.take(ids.len() as int) =~= taxes);
    revenue
}

/// Settles every household; gives the goods consumed.
fn settle_households<R: Number>(world: &mut EconWorld<R>, price: R, redistribution: R) -> (consumed: R)
    requires
        has_schedule(old(world)@.env),
        price == usable_price(old(world)@.env.price),
        redistribution == redistribution_of(old(world)@),
    ensures
        final(world)@ == (WorldView { households: settled_households(old(world)@), ..old(world)@ }),
        consumed == consumption_of(old(world)@),
{
    let ids = world.agent_ids();
    let ghost before = world@;
    let ghost after = settled_households(before);
    let ghost units = before.roster().map_values(|h: HouseholdView<R>| spending_of(h).div(price));
    let mut consumed: R = R::decimal(0, 0);
    for i in 0..ids.len()
        invariant
            has_schedule(before.env),
            redistribution == redistribution_of(before),
            after == settled_households(before),
            ids@ == before.ids(),
            is_ascending_of(ids@, before.households.dom()),
            units == before.roster().map_values(|h: HouseholdView<R>| spending_of(h).div(price)),
            consumed == total(units.take(i as int)),
            world@ == (WorldView { households: world@.households, ..before }),
            world@.households.dom() == before.households.dom(),
            forall|j: int| 0 <= j < i ==> world@.households[#[trigger] ids@[j]] == after[ids@[j]],
            forall|j: int|
                i <= j < ids@.len() ==> world@.households[#[trigger] ids@[j]]
                    == before.households[ids@[j]],
    {
        let id = ids[i];
        proof {
            assert(units.take(i + 1).drop_last() =~= units.take(i as int));
            assert(ids@.contains(ids@[i as int]));
        }
        let mut h = world.take_household(id);
        let z = h.pretax_income();
        let t = progressive_tax(z, &world.env.tax_brackets, &world.env.tax_rates);
        let nominal_consumption = h.p_consume.times(max(h.savings, R::decimal(0, 0)));
        h.savings = h.savings.minus(nominal_consumption).plus(z.minus(t)).plus(redistribution);
        h.last_consumption = nominal_consumption;
        h.last_tax = t;
        consumed = consumed.plus(nominal_consumption.over(price));
        world.put_household(id, h);
        assert(world@.households.dom() =~= before.households.dom());
    }
    proof {
        assert(units.take(ids.len() as int) =~= units);
        assert(world@.households =~= after) by {
            assert forall|id: u64| before.households.dom().contains(id) implies
                world@.households[id] == after[id] by {
                assert(ids@.contains(id));
                let j = ids@.index_of(id);
                assert(ids@[j] == id);
            }
        }
    }
    consumed
}

/// The values that the indicators are taken over.
struct Portraits<R> {
    savings: Vec<R>,
    p_works: Vec<R>,
    p_consumes: Vec<R>,
}

fn portray<R: Number>(world: &EconWorld<R>) -> (r: Portraits<R>)
    ensures
        r.savings@ == world@.roster().map_values(
            |h: HouseholdView<R>| max_of(h.savings, R::lit(0, 0)),
        ),
        r.p_works@ == world@.roster().map_values(|h: HouseholdView<R>| h.p_work),
        r.p_consumes@ == world@.roster().map_values(|h: HouseholdView<R>| h.p_consume),
{
    let ids = world.agent_ids();
    let mut savings: Vec<R> = Vec::new();
    let mut p_works: Vec<R> = Vec::new();
    let mut p_consumes: Vec<R> = Vec::new();
    let ghost roster = world@.roster();
    for i in 0..ids.len()
        invariant
            ids@ == world@.ids(),
            is_ascending_of(ids@, world@.households.dom()),
            roster == world@.roster(),
            savings@ =~= roster.take(i as int).map_values(
                |h: HouseholdView<R>| max_of(h.savings, R::lit(0, 0)),
            ),
            p_works@ =~= roster.take(i as int).map_values(|h: HouseholdView<R>| h.p_work),
            p_consumes@ =~= roster.take(i as int).map_values(|h: HouseholdView<R>| h.p_consume),
    {
        assert(ids@.contains(ids@[i as int]));
        if let Some(h) = world.household(ids[i]) {
            savings.push(max(h.savings, R::decimal(0, 0)));
            p_works.push(h.p_work);
            p_consumes.push(h.p_consume);
        }
    }
    assert(roster.take(ids.len() as int) =~= roster);
    Portraits { savings, p_works, p_consumes }
}

impl<R: Number> FiscalRewardMechanism<R> {
    pub fn new() -> (r: Self)
        ensures
            r.metrics@ == Seq::<MacroMetrics<R>>::empty(),
    {
        FiscalRewardMechanism { metrics: Vec::new() }
    }

    /// Settles the month and records its indicators.
    pub fn apply(&mut self, world: &mut EconWorld<R>)
        requires
            has_schedule(old(world)@.env),
            old(world)@.month() <= usize::MAX,
        ensures
            final(world)@ == settled_world(old(world)@),
            final(self).metrics@ == old(self).metrics@.push(metrics_of(old(world)@)),
    {
        let ghost before = world@;
        let n = world.n();
        let month = world.month();
        let price = max(world.env.price, R::decimal(1, 9));
        let n_employed = count_employed(world, false);
        let unemployment = unemployment_rate::<R>(n_employed, n);
        let inflation = inflation_rate(&world.env.price_history);

        let revenue = collect_revenue(world);
        let redistribution = if n > 0 {
            revenue.over(R::from_count(n as u64))
        } else {
            R::decimal(0, 0)
        };
        let consumed = settle_households(world, price, redistribution);
        let remaining = max(world.env.inventory.minus(consumed), R::decimal(0, 0));
        world.env.inventory = remaining;
        world.env.redistribution = redistribution;
        let current_price = world.env.price;
        world.env.year_price_buffer.push(current_price);
        world.env.year_unemp_buffer.push(unemployment);
        if (month + 1) % 12 == 0 {
            let annual_price = mean(&world.env.year_price_buffer);
            world.env.price_history.push(annual_price);
            world.env.year_price_buffer.clear();
        }
        assert(world@ == settled_world(before));

        let portraits = portray(world);
        let metric = MacroMetrics {
            month: month as usize,
            year: (month / 12) as usize,
            nominal_gdp: nominal_gdp(
                n_employed,
                R::decimal(HOURS_PER_MONTH, 0),
                world.env.productivity,
                price,
            ),
            price: world.env.price,
            interest_rate: world.env.interest_rate,
            unemployment_rate: unemployment,
            inflation_rate: inflation,
            gini_savings: gini(&portraits.savings),
            avg_work_propensity: mean(&portraits.p_works),
            avg_consume_propensity: mean(&portraits.p_consumes),
            redistribution,
        };
        self.metrics.push(metric);
    }
}

/// Keeps the memories of the households and carries employment over to the next month.
pub struct MemoryUpdateMechanism {
    /// Number of months that a household remembers.
    pub memory_length: usize,
}

/// What a household notes on a month.
pub open spec fn note_on<R: Number>(h: HouseholdView<R>, month: nat) -> Seq<char> {
    "month "@ + numeral(month) + ": "@ + (if h.employed {
        "employed"@
    } else {
        "unemployed"@
    }) + ", worked="@ + (if h.employed {
        "true"@
    } else {
        "false"@
    }) + ", consumed="@ + h.last_consumption.text(2) + ", savings="@ + h.savings.text(2)
}

/// The last `length` terms of a sequence, or all of them.
pub open spec fn last_of<A>(s: Seq<A>, length: nat) -> Seq<A> {
    if s.len() > length {
        s.skip(s.len() - length)
    } else {
        s
    }
}

/// A household at the end of a month: it has noted the month and remembers the last ones.
pub open spec fn remembering<R: Number>(h: HouseholdView<R>, month: nat, length: nat) -> HouseholdView<R> {
    HouseholdView {
        memory: last_of(h.memory.push(note_on(h, month)), length),
        employed_prev: h.employed,
        ..h
    }
}

/// The world at the end of a month.
pub open spec fn remembered<R: Number>(w: WorldView<R>, length: nat) -> WorldView<R> {
    WorldView {
        households: w.households.map_values(
            |h: HouseholdView<R>| remembering(h, w.month(), length),
        ),
        ..w
    }
}

/// Whether a quarter ends with a month.
pub open spec fn is_quarter_end(month: nat) -> bool {
    (month + 1) % 3 == 0
}

/// The world with the reflection of one household entered.
pub open spec fn reflected<R: Number>(w: WorldView<R>, id: u64, text: Seq<char>) -> WorldView<R> {
    w.with_household(id, HouseholdView { reflection: trimmed(text), ..w.households[id] })
}

fn write_note<R: Number>(h: &Household<R>, month: u64) -> (r: String)
    ensures
        r@ == note_on(h@, month as nat),
{
    let mut s = "month ".to_owned();
    s.append(numeral_text(month as u128).as_str());
    s.append(": ");
    s.append(if h.employed { "employed" } else { "unemployed" });
    s.append(", worked=");
    s.append(if h.employed { "true" } else { "false" });
    s.append(", consumed=");
    s.append(h.last_consumption.to_fixed(2).as_str());
    s.append(", savings=");
    s.append(h.savings.to_fixed(2).as_str());
    s
}

impl MemoryUpdateMechanism {
    /// Memories reach back one month at least.
    pub fn new(memory_length: usize) -> (r: Self)
        ensures
            r.memory_length == (if memory_length < 1 {
                1
            } else {
                memory_length
            }),
    {
        MemoryUpdateMechanism {
            memory_length: if memory_length < 1 {
                1
            } else {
                memory_length
            },
        }
    }

    /// Has each household note the month.
    pub fn remember<R: Number>(&self, world: &mut EconWorld<R>)
        ensures
            final(world)@ == remembered(old(world)@, self.memory_length as nat),
    {
        let month = world.month();
        let ids = world.agent_ids();
        let ghost before = world@;
        let ghost after = remembered(before, self.memory_length as nat);
        for i in 0..ids.len()
            invariant
                month == before.month(),
                after == remembered(before, self.memory_length as nat),
                ids@ == before.ids(),
                is_ascending_of(ids@, before.households.dom()),
                world@ == (WorldView { households: world@.households, ..before }),
                world@.households.dom() == before.households.dom(),
                forall|j: int|
                    0 <= j < i ==> world@.households[#[trigger] ids@[j]]
                        == after.households[ids@[j]],
                forall|j: int|
                    i <= j < ids@.len() ==> world@.households[#[trigger] ids@[j]]
                        == before.households[ids@[j]],
        {
            let id = ids[i];
            assert(ids@.contains(ids@[i as int]));
            let mut h = world.take_household(id);
            let note = write_note(&h, month);
            let ghost seen = h@;
            let ghost noted = seen.memory.push(note@);
            h.memory.push(note);
            assert(texts(h.memory@) =~= noted);
            if h.memory.len() > self.memory_length {
                let excess = h.memory.len() - self.memory_length;
                let kept = h.memory.split_off(excess);
                h.memory = kept;
            }
            assert(texts(h.memory@) =~= last_of(noted, self.memory_length as nat));
            h.employed_prev = h.employed;
            assert(h@ == remembering(seen, month as nat, self.memory_length as nat));
            world.put_household(id, h);
            assert(world@.households.dom() =~= before.households.dom());
        }
        proof {
            assert(world@.households =~= after.households) by {
                assert forall|id: u64| before.households.dom().contains(id) implies
                    world@.households[id] == after.households[id] by {
                    assert(ids@.contains(id));
                    let j = ids@.index_of(id);
                    assert(ids@[j] == id);
                }
            }
        }
    }

    /// Enters the reflection of a household on a quarter.
    pub fn reflect<R: Number>(&self, world: &mut EconWorld<R>, id: u64, text: &str)
        requires
            old(world)@.households.contains_key(id),
        ensures
            final(world)@ == reflected(old(world)@, id, text@),
    {
        let mut h = world.take_household(id);
        h.reflection = trim(text).to_owned();
        world.put_household(id, h);
        assert(world@.households =~= old(world)@.households.insert(id, h@));
    }
}

} // verus!
