//! The course of a run: how an economy begins, and what each answer does to it.

use vstd::prelude::*;

use crate::config::Config;
use crate::correlation::MODERATE;
use crate::fixed::{abs, law_units_are_kept, lemma_literal_units, ten_to, Fixed, LIMIT, ONE};
use crate::indicators::law_quotients_fall_short;
use crate::mechanisms::{
    decided, employed_before_count, employed_count, interest_of, metrics_of, moved, perceived,
    price_moved, remembered, settled_world, stocked,
};
use crate::metrics::inflation_of;
use crate::monthly::law_moves_are_bounded_by_the_imbalance;
use crate::number::{total, Number};
use crate::prompts::{decision_of, decision_text, reflection_text};
use crate::run::{started, ActionView, EventView, SimulationView, StageView};
use crate::sampling::{sampling_of, Draw, Drawn, Partial, SamplingView};
use crate::simulation::{
    age_bands, age_draw_of, band_at, initial_env, initial_world, share_of, share_total, AgeBand,
    AgeDraw,
};
use crate::world::{HouseholdView, MacroEnvView, WorldView};

verus! {

broadcast use law_units_are_kept;

/// The share of a percentage, in units.
proof fn lemma_percent(percent: int)
    requires
        0 <= percent <= 100,
    ensures
        Fixed::lit(percent, 2)@ == percent * 10_000_000_000,
{
    reveal_with_fuel(ten_to, 14);
}

/// The draw for an age falls on a band as often as the band has people: 22 in a hundred are up to
/// 29 years old, 28 up to 44, 27 up to 59 and 23 older.
pub proof fn law_ages_come_in_proportion(x: Fixed)
    requires
        0 <= x@ <= ONE,
    ensures
        share_total::<Fixed>()@ == ONE,
        100 * x@ < 22 * ONE ==> age_draw_of(x) == (AgeDraw::Among { youngest: 18, oldest: 29 }),
        22 * ONE <= 100 * x@ < 50 * ONE ==> age_draw_of(x) == (AgeDraw::Among {
            youngest: 30,
            oldest: 44,
        }),
        50 * ONE <= 100 * x@ < 77 * ONE ==> age_draw_of(x) == (AgeDraw::Among {
            youngest: 45,
            oldest: 59,
        }),
        77 * ONE <= 100 * x@ < 100 * ONE ==> age_draw_of(x) == (AgeDraw::Among {
            youngest: 60,
            oldest: 79,
        }),
        x@ == ONE ==> age_draw_of(x) == (AgeDraw::Exactly { age: 79 }),
{
    lemma_literal_units();
    lemma_percent(22);
    lemma_percent(28);
    lemma_percent(27);
    lemma_percent(23);
    reveal_with_fuel(band_at, 6);
    reveal_with_fuel(total, 6);
    let shares = age_bands().map_values(|band: AgeBand| share_of::<Fixed>(band));
    assert(shares =~= seq![
        Fixed::lit(22, 2),
        Fixed::lit(28, 2),
        Fixed::lit(27, 2),
        Fixed::lit(23, 2),
    ]);
    let three = seq![Fixed::lit(22, 2), Fixed::lit(28, 2), Fixed::lit(27, 2)];
    let two = seq![Fixed::lit(22, 2), Fixed::lit(28, 2)];
    let first = seq![Fixed::lit(22, 2)];
    assert(shares.drop_last() =~= three);
    assert(three.drop_last() =~= two);
    assert(two.drop_last() =~= first);
    assert(first.drop_last() =~= Seq::empty());
}

/// The wage of a household is the smallest wage over its draw, which is raised to one over the
/// exponent of the distribution, up to a unit.
pub proof fn law_wages_by_inversion(cfg: Config<Fixed>, s: SamplingView<Fixed>, value: Fixed)
    requires
        0 < cfg.wage_pareto_alpha@,
        ONE * ONE <= LIMIT * cfg.wage_pareto_alpha@,
        s.partial is Nothing,
        s.drawn.len() < s.n_agents,
        0 < value@,
        0 <= s.wage_min@,
        s.wage_min@ * ONE <= LIMIT * value@,
    ensures
        sampling_of(cfg).drawn.len() == 0,
        sampling_of(cfg).n_agents == cfg.n_agents,
        sampling_of(cfg).wage_min == cfg.wage_min,
        abs(sampling_of(cfg).exponent@ * cfg.wage_pareto_alpha@ - ONE * ONE)
            < cfg.wage_pareto_alpha@,
        s.draw() matches Draw::Power { least, exponent } && least@ == 1000 && exponent
            == s.exponent,
        s.after(Drawn::Value { value }).partial matches Partial::Wage { wage } && 0 <= s.wage_min@
            * ONE - wage@ * value@ < value@,
        s.after(Drawn::Value { value }).drawn == s.drawn,
{
    lemma_literal_units();
    reveal_with_fuel(ten_to, 14);
    assert(Fixed::lit(1, 9)@ == 1000);
    let alpha = cfg.wage_pareto_alpha;
    law_quotients_fall_short(Fixed::lit(1, 0), alpha);
    let e = Fixed::lit(1, 0).div(alpha)@;
    assert(alpha@ * e == e * alpha@) by (nonlinear_arith);
    law_quotients_fall_short(s.wage_min, value);
    let r = s.wage_min.div(value)@;
    assert(value@ * r == r * value@) by (nonlinear_arith);
}

/// The draw for the band of an age comes up to the whole, and the draw for the age lies within the
/// band; a household enters behind those before it, with the wage of its own first draw.
pub proof fn law_households_enter_in_order<R: Number>(
    s: SamplingView<R>,
    power: R,
    place: R,
    age: u32,
    youngest: u32,
    oldest: u32,
)
    requires
        s.partial is Nothing,
        s.drawn.len() < s.n_agents,
        age_draw_of(place) == (AgeDraw::Among { youngest, oldest }),
        youngest <= age <= oldest,
    ensures
        ({
            let paid = s.after(Drawn::Value { value: power });
            let placed = paid.after(Drawn::Value { value: place });
            let entered = placed.after(Drawn::Age { age });
            &&& paid.draw() == (Draw::Below { bound: share_total::<R>() })
            &&& placed.draw() == (Draw::<R>::Age { youngest, oldest })
            &&& entered.drawn == s.drawn.push((s.wage_min.div(power), age))
            &&& entered.partial is Nothing
            &&& entered.n_agents == s.n_agents
            &&& entered.wage_min == s.wage_min
            &&& entered.exponent == s.exponent
        }),
{
}

/// A run begins with the sampled households in their order, each with its own wage and age and the
/// same savings, without work, debts of tax or memories; with empty stocks and accounts; with the
/// interest of an economy at rest; and with the parameters that were asked for, each in its place.
pub proof fn law_economies_start_as_asked(cfg: Config<Fixed>, sampled: Seq<(Fixed, u32)>, id: u64)
    requires
        id < sampled.len(),
        abs(cfg.natural_rate@ + cfg.target_inflation@) <= LIMIT,
    ensures
        ({
            let w = initial_world(cfg, sampled);
            let h = w.households[id];
            &&& w.households.contains_key(id)
            &&& h.wage == sampled[id as int].0
            &&& h.age == sampled[id as int].1
            &&& h.savings == cfg.init_savings
            &&& !h.employed && !h.employed_prev
            &&& h.last_tax@ == 0 && h.last_consumption@ == 0 && h.p_work@ == 0 && h.p_consume@ == 0
            &&& h.memory.len() == 0 && h.reflection.len() == 0
            &&& w.t == 0 && w.t_max == cfg.months
        }),
        ({
            let env = initial_env(cfg);
            &&& initial_world(cfg, sampled).env == env
            &&& env.interest_rate@ == cfg.natural_rate@ + cfg.target_inflation@
            &&& env.inventory@ == 0 && env.redistribution@ == 0
            &&& env.price == cfg.init_price
            &&& env.price_history == seq![cfg.init_price]
            &&& env.year_price_buffer.len() == 0 && env.year_unemp_buffer.len() == 0
            &&& env.productivity == cfg.productivity
            &&& env.natural_rate == cfg.natural_rate
            &&& env.target_inflation == cfg.target_inflation
            &&& env.natural_unemployment == cfg.natural_unemployment
            &&& env.alpha_pi == cfg.alpha_pi
            &&& env.alpha_u == cfg.alpha_u
            &&& env.alpha_w == cfg.alpha_w
            &&& env.alpha_p == cfg.alpha_p
        }),
{
    lemma_literal_units();
}

/// Households are asked in their order, each for its own decision, of which it is told what all are
/// told.
pub proof fn law_households_are_asked_in_turn<R: Number>(s: SimulationView<R>)
    ensures
        s.stage matches StageView::Deciding { next, perception } ==> s.action() == (
        ActionView::<R>::AskDecision {
            id: s.world.ids()[next as int],
            prompt: decision_text(
                s.world.households[s.world.ids()[next as int]],
                s.world.env,
                perception.unemployment,
                perception.inflation,
            ),
        }),
        s.stage matches StageView::Reflecting { next } ==> s.action() == (
        ActionView::<R>::AskReflection {
            id: s.world.ids()[next as int],
            prompt: reflection_text(s.world.households[s.world.ids()[next as int]]),
        }),
{
}

/// A reply and a draw decide for one household: it works where the draw is below the willingness
/// to work in its reply. The next household follows, and after the last one the market opens with
/// what was produced.
pub proof fn law_a_household_decides<R: Number>(s: SimulationView<R>, text: Seq<char>, draw: R)
    requires
        s.valid(),
        s.stage is Deciding,
    ensures
        ({
            let next = s.stage->Deciding_next;
            let id = s.world.ids()[next as int];
            let w = s.world;
            let (p_work, p_consume) = decision_of::<R>(text);
            let after = s.after(EventView::Reply { text }).after(EventView::Drawn { value: draw });
            let here = w.with_household(id, decided(w.households[id], p_work, p_consume, draw));
            &&& after.metrics == s.metrics
            &&& after.world.households == here.households
            &&& after.world.households[id].employed <==> draw.below(p_work)
            &&& after.world.t == w.t
            &&& next + 1 < w.n() ==> after.world.env == w.env && after.stage == (
            StageView::Deciding { next: next + 1, perception: s.stage->Deciding_perception })
            &&& next + 1 == w.n() ==> after.world == stocked(here)
            &&& next + 1 == w.n() ==> (after.stage matches StageView::MovingWages {
                next,
                imbalance,
            } && next == 0 && imbalance == crate::mechanisms::imbalance_of(stocked(here)))
        }),
{
    let next = s.stage->Deciding_next;
    let id = s.world.ids()[next as int];
    let w = s.world;
    let (p_work, p_consume) = decision_of::<R>(text);
    crate::run::lemma_places(w, next);
    crate::run::lemma_with_household(w, id, decided(w.households[id], p_work, p_consume, draw));
}

/// A wage is drawn for within its part of the imbalance and the price within its own; a draw for a
/// wage moves the wage of the household whose turn it is, and no other.
pub proof fn law_wages_move_in_turn(s: SimulationView<Fixed>, draw: Fixed)
    requires
        s.valid(),
        s.stage is MovingWages,
        0 <= s.world.env.alpha_w@ <= MODERATE,
        -ONE <= s.stage->MovingWages_imbalance@ <= ONE,
    ensures
        ({
            let imbalance = s.stage->MovingWages_imbalance;
            let next = s.stage->MovingWages_next;
            let id = s.world.ids()[next as int];
            let after = s.after(EventView::Drawn { value: draw });
            &&& s.action() matches ActionView::DrawUpTo { bound } && 0 <= s.world.env.alpha_w@
                * abs(imbalance@) - ONE * bound@ < ONE
            &&& after.world.env == s.world.env
            &&& after.world.t == s.world.t
            &&& after.metrics == s.metrics
            &&& after.world.households == s.world.households.insert(
                id,
                HouseholdView {
                    wage: moved(s.world.households[id].wage, imbalance, draw, Fixed::lit(0, 0)),
                    ..s.world.households[id]
                },
            )
            &&& next + 1 < s.world.n() ==> after.stage == (StageView::<Fixed>::MovingWages {
                next: next + 1,
                imbalance,
            })
            &&& next + 1 == s.world.n() ==> after.stage == (StageView::MovingPrice { imbalance })
        }),
{
    law_moves_are_bounded_by_the_imbalance(
        s.world.env.alpha_w,
        s.stage->MovingWages_imbalance,
    );
}

/// The draw for the price, within its part of the imbalance, ends the month: the new price stands
/// in the month's row, and the month is settled and noted at it. A quarter ends with reflections
/// where there is anyone to reflect; otherwise the next month begins, unless it was the last.
pub proof fn law_the_price_closes_the_month(s: SimulationView<Fixed>, draw: Fixed)
    requires
        s.valid(),
        s.stage is MovingPrice,
        0 <= s.world.env.alpha_p@ <= MODERATE,
        -ONE <= s.stage->MovingPrice_imbalance@ <= ONE,
    ensures
        ({
            let imbalance = s.stage->MovingPrice_imbalance;
            let after = s.after(EventView::Drawn { value: draw });
            let priced = WorldView {
                env: MacroEnvView {
                    price: moved(s.world.env.price, imbalance, draw, Fixed::lit(1, 6)),
                    ..s.world.env
                },
                ..s.world
            };
            &&& s.action() matches ActionView::DrawUpTo { bound } && 0 <= s.world.env.alpha_p@
                * abs(imbalance@) - ONE * bound@ < ONE
            &&& after.metrics == s.metrics.push(metrics_of(priced))
            &&& after.metrics.last().price == priced.env.price
            &&& after.world.env.price == priced.env.price
            &&& after.world.households == remembered(
                settled_world(priced),
                s.memory_length,
            ).households
            &&& s.world.n() > 0 ==> after.world.env == settled_world(priced).env
            &&& s.world.t % 3 == 0 && s.world.n() > 0 ==> after.stage == (
            StageView::<Fixed>::Reflecting { next: 0 }) && after.world.t == s.world.t
            &&& s.world.t % 3 != 0 && s.world.t < s.world.t_max ==> after.world.t == s.world.t + 1
            &&& s.world.t % 3 != 0 && s.world.t == s.world.t_max ==> after.stage is Finished
                && after.world.t == s.world.t
            &&& s.world.t % 3 != 0 && s.world.t < s.world.t_max && s.world.n() > 0 ==> (
            after.stage matches StageView::Deciding { next, .. } && next == 0)
        }),
{
    law_moves_are_bounded_by_the_imbalance(
        s.world.env.alpha_p,
        s.stage->MovingPrice_imbalance,
    );
    let priced = price_moved(s.world, s.stage->MovingPrice_imbalance, draw);
    let noted = remembered(settled_world(priced), s.memory_length);
    assert(noted.households.dom() =~= s.world.households.dom());
}

proof fn lemma_same_work<R>(a: Seq<HouseholdView<R>>, b: Seq<HouseholdView<R>>)
    requires
        a.len() == b.len(),
        forall|i: int|
            0 <= i < a.len() ==> (#[trigger] a[i]).employed_prev == b[i].employed,
    ensures
        employed_before_count(a) == employed_count(b),
    decreases a.len(),
{
    reveal(Seq::filter);
    if a.len() > 0 {
        let (c, d) = (a.drop_last(), b.drop_last());
        assert forall|i: int| 0 <= i < c.len() implies (#[trigger] c[i]).employed_prev
            == d[i].employed by {
            assert(c[i] == a[i]);
        }
        lemma_same_work(c, d);
        assert(a[a.len() - 1].employed_prev == b[b.len() - 1].employed);
    }
}

/// What households are told of unemployment in a month is what the row of the month before shows;
/// what they are told of inflation comes from the annual prices as they are then.
pub proof fn law_households_know_the_last_month(s: SimulationView<Fixed>, draw: Fixed)
    requires
        s.valid(),
        s.stage is MovingPrice,
        s.after(EventView::Drawn { value: draw }).stage is Deciding,
    ensures
        ({
            let after = s.after(EventView::Drawn { value: draw });
            let told = after.stage->Deciding_perception;
            &&& told.unemployment == after.metrics.last().unemployment_rate
            &&& told.inflation == inflation_of(after.world.env.price_history)
        }),
{
    let priced = price_moved(s.world, s.stage->MovingPrice_imbalance, draw);
    let noted = remembered(settled_world(priced), s.memory_length);
    assert(noted.households.dom() =~= s.world.households.dom());
    let (a, b) = (noted.roster(), priced.roster());
    assert forall|i: int| 0 <= i < a.len() implies (#[trigger] a[i]).employed_prev
        == b[i].employed by {
        assert(s.world.ids().contains(s.world.ids()[i]));
    }
    lemma_same_work(a, b);
    let after = s.after(EventView::Drawn { value: draw });
    assert(after.world.roster() =~= a);
}

/// A reflection enters with its household, whose turn it is; after the last one the next month
/// begins, unless it was the last. A year begins with the interest that the rule asks for.
pub proof fn law_households_reflect_in_turn<R: Number>(s: SimulationView<R>, text: Seq<char>)
    requires
        s.valid(),
        s.stage is Reflecting,
    ensures
        ({
            let next = s.stage->Reflecting_next;
            let id = s.world.ids()[next as int];
            let after = s.after(EventView::Reply { text });
            &&& after.metrics == s.metrics
            &&& after.world.households == s.world.households.insert(
                id,
                HouseholdView {
                    reflection: crate::text::trimmed(text),
                    ..s.world.households[id]
                },
            )
            &&& next + 1 < s.world.n() ==> after.stage == (StageView::<R>::Reflecting {
                next: next + 1,
            }) && after.world.env == s.world.env && after.world.t == s.world.t
            &&& next + 1 == s.world.n() && s.world.t < s.world.t_max ==> after.world.t == s.world.t
                + 1 && (after.stage matches StageView::Deciding { next, perception } && next == 0
                && perception == perceived(after.world))
            &&& next + 1 == s.world.n() && s.world.t < s.world.t_max && s.world.t % 12 == 0
                ==> after.world.env == (MacroEnvView {
                interest_rate: interest_of(s.world.env),
                year_unemp_buffer: Seq::empty(),
                ..s.world.env
            })
            &&& next + 1 == s.world.n() && (s.world.t == s.world.t_max || s.world.t % 12 != 0)
                ==> after.world.env == s.world.env
            &&& next + 1 == s.world.n() && s.world.t == s.world.t_max ==> after.stage is Finished
                && after.world.t == s.world.t
        }),
{
    let next = s.stage->Reflecting_next;
    let id = s.world.ids()[next as int];
    crate::run::lemma_places(s.world, next);
    crate::run::lemma_with_household(
        s.world,
        id,
        HouseholdView { reflection: crate::text::trimmed(text), ..s.world.households[id] },
    );
}

/// A failed call ends a run with its reason, and leaves the economy as it was.
pub proof fn law_failures_end_a_run<R: Number>(s: SimulationView<R>, reason: Seq<char>)
    requires
        s.stage is Deciding || s.stage is Reflecting,
    ensures
        ({
            let after = s.after(EventView::Failure { reason });
            &&& after.world == s.world
            &&& after.metrics == s.metrics
            &&& after.action() is Abort
            &&& s.stage is Deciding ==> after.stage == (StageView::<R>::DecisionFailed { reason })
            &&& s.stage is Reflecting ==> after.stage == (StageView::<R>::ReflectionFailed {
                reason,
            })
        }),
{
}

/// A run takes replies and failures where it asks for a reply, and draws where it asks for a draw.
/// What it does not take changes nothing.
pub proof fn law_answers_fit_the_question<R: Number>(s: SimulationView<R>, event: EventView<R>)
    ensures
        s.action() is AskDecision || s.action() is AskReflection ==> (s.accepts(event) <==> !(
        event is Drawn)),
        s.action() is DrawUnit || s.action() is DrawUpTo ==> (s.accepts(event) <==> event is Drawn),
        s.action() is Finish || s.action() is Abort ==> !s.accepts(event),
        !s.accepts(event) ==> s.after(event) == s,
{
}

/// Sampling takes a number where it draws one, and an age where it draws one from a band, if the age
/// lies in the band. What it does not take changes nothing.
pub proof fn law_draws_fit_the_question<R: Number>(s: SamplingView<R>, value: R, age: u32)
    ensures
        s.draw() is Power || s.draw() is Below ==> s.accepts(Drawn::Value { value }),
        s.draw() is Power || s.draw() is Below ==> !s.accepts(Drawn::<R>::Age { age }),
        s.draw() matches Draw::Age { youngest, oldest } ==> (s.accepts(Drawn::<R>::Age { age })
            <==> youngest <= age <= oldest),
        s.draw() is Age ==> !s.accepts(Drawn::Value { value }),
        s.draw() is Done ==> !s.accepts(Drawn::Value { value }) && !s.accepts(
            Drawn::<R>::Age { age },
        ),
        !s.accepts(Drawn::Value { value }) ==> s.after(Drawn::Value { value }) == s,
        !s.accepts(Drawn::<R>::Age { age }) ==> s.after(Drawn::<R>::Age { age }) == s,
{
}

proof fn lemma_nobody_worked<R>(roster: Seq<HouseholdView<R>>)
    requires
        forall|i: int| 0 <= i < roster.len() ==> !(#[trigger] roster[i]).employed_prev,
    ensures
        employed_before_count(roster) == 0,
    decreases roster.len(),
{
    reveal(Seq::filter);
    if roster.len() > 0 {
        let rest = roster.drop_last();
        assert forall|i: int| 0 <= i < rest.len() implies !(#[trigger] rest[i]).employed_prev by {
            assert(rest[i] == roster[i]);
        }
        lemma_nobody_worked(rest);
        assert(!roster[roster.len() - 1].employed_prev);
    }
}

/// A run starts with its first month, in which the first household decides, and is told that nobody
/// has work and that there is no inflation. It remembers at least one month, and is finished at once
/// where no month is asked for.
pub proof fn law_runs_start_with_the_first_month(cfg: Config<Fixed>, sampled: Seq<(Fixed, u32)>)
    requires
        0 < sampled.len() <= u64::MAX,
    ensures
        ({
            let s = started(cfg, sampled);
            let w = initial_world(cfg, sampled);
            &&& s.metrics.len() == 0
            &&& s.memory_length == (if cfg.memory_length == 0 {
                1
            } else {
                cfg.memory_length as nat
            })
            &&& s.world.households == w.households
            &&& s.world.env == w.env
            &&& s.world.t_max == w.t_max
            &&& cfg.months == 0 ==> s.stage is Finished && s.world.t == 0
            &&& cfg.months > 0 ==> s.world.t == 1
            &&& cfg.months > 0 ==> (s.stage matches StageView::Deciding { next, perception } && next
                == 0 && perception.unemployment@ == ONE && perception.inflation@ == 0)
        }),
{
    lemma_literal_units();
    crate::simulation::lemma_initial_households(cfg, sampled);
    let w = initial_world(cfg, sampled);
    let begun = WorldView { t: 1, ..w };
    assert forall|i: int| 0 <= i < begun.roster().len() implies !(
    #[trigger] begun.roster()[i]).employed_prev by {
        assert(w.ids().contains(w.ids()[i]));
    }
    lemma_nobody_worked(begun.roster());
    let n = w.n();
    crate::indicators::law_unemployment_counts_the_idle(0, n);
    let u = crate::metrics::unemployment_of::<Fixed>(0, n)@;
    assert(u == ONE) by (nonlinear_arith)
        requires
            0 <= u * n - (n - 0) * ONE < n,
    ;
    crate::indicators::law_no_inflation_at_first(w.env.price_history);
}

/// Work is drawn for between zero and one, one excluded; a run that is over asks for nothing.
pub proof fn law_work_is_drawn_for<R: Number>(s: SimulationView<R>)
    ensures
        s.stage is Hiring ==> s.action() is DrawUnit,
        s.stage is Finished <==> s.action() is Finish,
        s.stage is DecisionFailed || s.stage is ReflectionFailed <==> s.action() is Abort,
{
}

/// Where there are no households, nothing but the price moves, once a month.
pub proof fn law_empty_economies_move_their_price<R: Number>(s: SimulationView<R>, draw: R)
    requires
        s.valid(),
        s.stage is MovingPrice,
        s.world.n() == 0,
    ensures
        ({
            let after = s.after(EventView::Drawn { value: draw });
            &&& s.world.t < s.world.t_max ==> after.world.t == s.world.t + 1 && (
            after.stage matches StageView::MovingPrice { imbalance } && imbalance
                == crate::mechanisms::imbalance_of(after.world))
            &&& s.world.t == s.world.t_max ==> after.world.t == s.world.t && after.stage is Finished
            &&& after.world.env.price == moved(
                s.world.env.price,
                s.stage->MovingPrice_imbalance,
                draw,
                R::lit(1, 6),
            )
            &&& after.world.households == s.world.households
        }),
{
    let priced = price_moved(s.world, s.stage->MovingPrice_imbalance, draw);
    let noted = remembered(settled_world(priced), s.memory_length);
    assert(noted.households.dom() =~= s.world.households.dom());
    crate::world::lemma_ascending_len(s.world.ids(), s.world.households.dom());
    assert(noted.households =~= s.world.households) by {
        assert forall|id: u64| s.world.households.contains_key(id) implies false by {
            assert(s.world.ids().contains(id));
        }
    }
}

} // verus!
