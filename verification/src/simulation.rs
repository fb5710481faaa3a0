//! Setting up an economy, and what remains of its run.

use std::collections::BTreeMap;

use vstd::prelude::*;

use crate::config::{schedule_of, Config};
use crate::mechanisms::has_schedule;
use crate::metrics::MacroMetrics;
use crate::number::{total, Number};
use crate::world::{
    is_ascending_of, lemma_ascending_len, lemma_ascending_unique, Clock, EconWorld, Household,
    MacroEnv, MacroEnvView, WorldView,
};

verus! {

/// Calls `rand::random` for a 64-bit number. Nothing is claimed of what it returns: it comes from
/// the generator of the thread, which the operating system seeds.
#[verifier::external_body]
fn random_seed() -> u64 {
    rand::random()
}

/// The seed that all draws of a run come from: the one that is set, or a fresh one.
pub fn root_seed<R: Number>(cfg: &Config<R>) -> (r: u64)
    ensures
        cfg.seed matches Some(seed) ==> r == seed,
{
    match cfg.seed {
        Some(seed) => seed,
        None => random_seed(),
    }
}

/// The exponent of a Pareto draw.
pub fn pareto_exponent<R: Number>(alpha: R) -> (r: R)
    ensures
        r == R::lit(1, 0).div(alpha),
{
    R::decimal(1, 0).over(alpha)
}

/// A wage of the Pareto distribution, by inversion: `root` is a draw from the uniform distribution
/// between zero and one, raised to the [`pareto_exponent`].
pub fn sample_pareto_wage<R: Number>(root: R, x_min: R) -> (r: R)
    ensures
        r == x_min.div(root),
{
    x_min.over(root)
}

/// An age band: its youngest and oldest age, and its share of the population in percent.
#[derive(Clone, Copy)]
pub struct AgeBand {
    pub youngest: u32,
    pub oldest: u32,
    pub percent: i64,
}

/// The adult population of the United States in 2018, in four bands.
pub open spec fn age_bands() -> Seq<AgeBand> {
    seq![
        AgeBand { youngest: 18, oldest: 29, percent: 22 },
        AgeBand { youngest: 30, oldest: 44, percent: 28 },
        AgeBand { youngest: 45, oldest: 59, percent: 27 },
        AgeBand { youngest: 60, oldest: 79, percent: 23 },
    ]
}

/// The share of a band.
pub open spec fn share_of<R: Number>(band: AgeBand) -> R {
    R::lit(band.percent as int, 2)
}

/// The upper limit of the draw that picks a band.
pub open spec fn share_total<R: Number>() -> R {
    total(age_bands().map_values(|band: AgeBand| share_of::<R>(band)))
}

/// The band on which a draw falls, among those from `i` on, when the shares of the bands are laid
/// end to end; nothing where the draw lies beyond them.
pub open spec fn band_at<R: Number>(x: R, i: int) -> Option<AgeBand>
    decreases age_bands().len() - i,
{
    if i >= age_bands().len() {
        None
    } else if x.below(share_of::<R>(age_bands()[i])) {
        Some(age_bands()[i])
    } else {
        band_at(x.sub(share_of::<R>(age_bands()[i])), i + 1)
    }
}

fn bands() -> (r: Vec<AgeBand>)
    ensures
        r@ == age_bands(),
{
    let r: Vec<AgeBand> = vec![
        AgeBand { youngest: 18, oldest: 29, percent: 22 },
        AgeBand { youngest: 30, oldest: 44, percent: 28 },
        AgeBand { youngest: 45, oldest: 59, percent: 27 },
        AgeBand { youngest: 60, oldest: 79, percent: 23 },
    ];
    assert(r@ =~= age_bands());
    r
}

pub fn age_share_total<R: Number>() -> (r: R)
    ensures
        r == share_total::<R>(),
{
    let all = bands();
    let ghost shares = age_bands().map_values(|band: AgeBand| share_of::<R>(band));
    let mut t: R = R::decimal(0, 0);
    for i in 0..all.len()
        invariant
            all@ == age_bands(),
            shares == age_bands().map_values(|band: AgeBand| share_of::<R>(band)),
            t == total(shares.take(i as int)),
    {
        assert(shares.take(i + 1).drop_last() =~= shares.take(i as int));
        t = t.plus(R::decimal(all[i].percent, 2));
    }
    assert(shares.take(all.len() as int) =~= shares);
    t
}

/// How the age of a household is found.
#[derive(Debug, Clone, Copy, PartialEq, Eq, Structural)]
pub enum AgeDraw {
    /// By a draw from the ages between two, both included.
    Among { youngest: u32, oldest: u32 },
    /// Without a draw.
    Exactly { age: u32 },
}

/// Where the age of a household comes from: its band, or the oldest age beyond the last band.
pub open spec fn age_draw_of<R: Number>(x: R) -> AgeDraw {
    match band_at(x, 0) {
        Some(band) => AgeDraw::Among { youngest: band.youngest, oldest: band.oldest },
        None => AgeDraw::Exactly { age: 79 },
    }
}

/// Picks an age band; `x` comes from the uniform distribution between zero and
/// [`age_share_total`].
pub fn sample_age<R: Number>(x: R) -> (r: AgeDraw)
    ensures
        r == age_draw_of(x),
        r matches AgeDraw::Among { youngest, oldest } ==> 18 <= youngest <= oldest <= 79,
{
    let all = bands();
    let mut rest: R = x;
    for i in 0..all.len()
        invariant
            all@ == age_bands(),
            band_at(x, 0) == band_at(rest, i as int),
    {
        let share = R::decimal(all[i].percent, 2);
        if rest.lt(share) {
            return AgeDraw::Among { youngest: all[i].youngest, oldest: all[i].oldest };
        }
        rest = rest.minus(share);
    }
    AgeDraw::Exactly { age: 79 }
}

/// The environment at the start of a run.
pub open spec fn initial_env<R: Number>(cfg: Config<R>) -> MacroEnvView<R> {
    let (brackets, rates) = schedule_of(cfg.regime, cfg.tax_scale);
    MacroEnvView {
        price: cfg.init_price,
        interest_rate: cfg.natural_rate.add(cfg.target_inflation),
        inventory: R::lit(0, 0),
        productivity: cfg.productivity,
        redistribution: R::lit(0, 0),
        tax_brackets: brackets,
        tax_rates: rates,
        price_history: seq![cfg.init_price],
        year_price_buffer: Seq::empty(),
        year_unemp_buffer: Seq::empty(),
        natural_rate: cfg.natural_rate,
        target_inflation: cfg.target_inflation,
        natural_unemployment: cfg.natural_unemployment,
        alpha_pi: cfg.alpha_pi,
        alpha_u: cfg.alpha_u,
        alpha_w: cfg.alpha_w,
        alpha_p: cfg.alpha_p,
    }
}

/// The world at the start of a run, with a household for each sampled wage and age, numbered from
/// zero.
pub open spec fn initial_world<R: Number>(cfg: Config<R>, sampled: Seq<(R, u32)>) -> WorldView<R> {
    WorldView {
        t: 0,
        t_max: cfg.months as nat,
        households: Map::new(
            |id: u64| id < sampled.len(),
            |id: u64|
                Household::fresh(
                    sampled[id as int].0,
                    sampled[id as int].1 as nat,
                    cfg.init_savings,
                ),
        ),
        env: initial_env(cfg),
    }
}

/// The households at the start of a run are numbered from zero, in order.
pub proof fn lemma_initial_households<R: Number>(cfg: Config<R>, sampled: Seq<(R, u32)>)
    requires
        sampled.len() <= u64::MAX,
    ensures
        initial_world(cfg, sampled).n() == sampled.len(),
        is_ascending_of(
            initial_world(cfg, sampled).ids(),
            initial_world(cfg, sampled).households.dom(),
        ),
        initial_world(cfg, sampled).ids() =~= Seq::new(sampled.len(), |i: int| i as u64),
{
    let w = initial_world(cfg, sampled);
    let ids = Seq::new(sampled.len(), |i: int| i as u64);
    assert(is_ascending_of(ids, w.households.dom())) by {
        assert forall|id: u64| w.households.dom().contains(id) implies ids.contains(id) by {
            assert(ids[id as int] == id);
        }
    }
    lemma_ascending_unique(ids, w.households.dom());
    lemma_ascending_len(ids, w.households.dom());
}

/// A smaller economy has the first households of a larger one, if both are sampled alike.
pub proof fn law_smaller_economies_come_first<R: Number>(
    small: Config<R>,
    large: Config<R>,
    sampled: Seq<(R, u32)>,
    n: nat,
    id: u64,
)
    requires
        n <= sampled.len(),
        small.init_savings == large.init_savings,
        id < n,
    ensures
        initial_world(small, sampled.take(n as int)).households.contains_key(id),
        initial_world(large, sampled).households.contains_key(id),
        initial_world(small, sampled.take(n as int)).households[id] == initial_world(
            large,
            sampled,
        ).households[id],
{
}

/// Sets up the economy from the sampled wages and ages of its households.
pub fn init_world<R: Number>(cfg: &Config<R>, sampled: &Vec<(R, u32)>) -> (r: EconWorld<R>)
    requires
        sampled.len() == cfg.n_agents,
    ensures
        r@ == initial_world(*cfg, sampled@),
        r@.n() == cfg.n_agents,
        has_schedule(r@.env),
{
    let (brackets, rates) = cfg.tax_schedule();
    let mut price_history: Vec<R> = Vec::new();
    price_history.push(cfg.init_price);
    let env = MacroEnv {
        price: cfg.init_price,
        interest_rate: cfg.natural_rate.plus(cfg.target_inflation),
        inventory: R::decimal(0, 0),
        productivity: cfg.productivity,
        redistribution: R::decimal(0, 0),
        tax_brackets: brackets,
        tax_rates: rates,
        price_history,
        year_price_buffer: Vec::new(),
        year_unemp_buffer: Vec::new(),
        natural_rate: cfg.natural_rate,
        target_inflation: cfg.target_inflation,
        natural_unemployment: cfg.natural_unemployment,
        alpha_pi: cfg.alpha_pi,
        alpha_u: cfg.alpha_u,
        alpha_w: cfg.alpha_w,
        alpha_p: cfg.alpha_p,
    };
    assert(env@.price_history =~= seq![cfg.init_price]);
    let mut world = EconWorld {
        clock: Clock { t: 0, t_max: cfg.months as u64 },
        households: BTreeMap::new(),
        env,
    };
    let ghost goal = initial_world(*cfg, sampled@);
    assert(world@.households =~= Map::empty());
    for i in 0..sampled.len()
        invariant
            goal == initial_world(*cfg, sampled@),
            world@ == (WorldView { households: world@.households, ..goal }),
            world@.households == goal.households.restrict(Set::new(|id: u64| id < i)),
    {
        let (wage, age) = sampled[i];
        world.put_household(i as u64, Household::new(wage, age, cfg.init_savings));
        assert(world@.households =~= goal.households.restrict(Set::new(|id: u64| id < i + 1)));
    }
    assert(world@.households =~= goal.households);
    proof {
        lemma_initial_households(*cfg, sampled@);
    }
    world
}

/// How the language model was used in a run.
pub struct LlmUsage<R> {
    pub total_calls: usize,
    /// Calls that were answered from the cache.
    pub cache_hits: usize,
    pub cache_hit_rate: R,
}

/// What remains of a run.
pub struct SimulationResult<R> {
    /// The indicators, month by month.
    pub metrics_history: Vec<MacroMetrics<R>>,
    pub metadata: LlmUsage<R>,
    pub llm_model: String,
    pub llm_endpoint: String,
    /// Number of months run.
    pub final_month: usize,
}

pub const DETERMINISM_NOTE: &'static str =
    "LLM output is outside socsim bit-reproducibility; the prompt->response \
     cache (with temperature=0 and fixed seed) is the reproducibility \
     mechanism. The socsim core (household init, Bernoulli employment draws, \
     market-adjustment uniforms, scheduling, metrics) is deterministic given \
     the seed.";

/// The record of how the language model was used.
pub struct RunMetadataJson<R> {
    pub llm_model: String,
    pub llm_endpoint: String,
    pub llm_temperature: R,
    pub llm_seed: u64,
    pub total_calls: usize,
    pub cache_hits: usize,
    pub cache_hit_rate: R,
    pub determinism_note: &'static str,
}

/// Draws up the record of how the language model was used.
pub fn run_metadata<R: Number>(result: &SimulationResult<R>, cfg: &Config<R>) -> (r: RunMetadataJson<R>)
    ensures
        r.llm_model@ == result.llm_model@,
        r.llm_endpoint@ == result.llm_endpoint@,
        r.llm_temperature == cfg.llm.temperature,
        r.llm_seed == cfg.llm.seed,
        r.total_calls == result.metadata.total_calls,
        r.cache_hits == result.metadata.cache_hits,
        r.cache_hit_rate == result.metadata.cache_hit_rate,
        r.determinism_note@ == DETERMINISM_NOTE@,
{
    RunMetadataJson {
        llm_model: result.llm_model.clone(),
        llm_endpoint: result.llm_endpoint.clone(),
        llm_temperature: cfg.llm.temperature,
        llm_seed: cfg.llm.seed,
        total_calls: result.metadata.total_calls,
        cache_hits: result.metadata.cache_hits,
        cache_hit_rate: result.metadata.cache_hit_rate,
        determinism_note: DETERMINISM_NOTE,
    }
}

} // verus!
