use econagent_simulation::config::{Config, PolicyRegime};
use econagent_simulation::mechanisms::{
    progressive_tax, FiscalRewardMechanism, LlmDecisionMechanism, MacroPolicyMechanism,
    MarketClearingMechanism, MemoryUpdateMechanism,
};
use econagent_simulation::metrics::{okun_correlation, phillips_correlation};
use econagent_simulation::mock::{mock_reply, parse_marker, MOCK_REFLECTION};
use econagent_simulation::number::Number;
use econagent_simulation::run::{Action, Event, Simulation};
use econagent_simulation::sampling::{Draw, Drawn, Sampling};
use econagent_simulation::simulation::{
    age_share_total, init_world, pareto_exponent, root_seed, run_metadata, sample_age, sample_pareto_wage, AgeDraw,
    LlmUsage, SimulationResult,
};
use econagent_simulation::world::EconWorld;
use rand::rngs::StdRng;
use rand::{Rng, SeedableRng};

#[derive(Debug, Clone, Copy, PartialEq, PartialOrd)]
struct Real(f64);

impl Number for Real {
    fn decimal(mantissa: i64, places: u32) -> Self {
        Real(mantissa as f64 / 10f64.powi(places as i32))
    }

    fn from_count(n: u64) -> Self {
        Real(n as f64)
    }

    fn infinity() -> Self {
        Real(f64::INFINITY)
    }

    fn plus(self, other: Self) -> Self {
        Real(self.0 + other.0)
    }

    fn minus(self, other: Self) -> Self {
        Real(self.0 - other.0)
    }

    fn times(self, other: Self) -> Self {
        Real(self.0 * other.0)
    }

    fn over(self, other: Self) -> Self {
        Real(self.0 / other.0)
    }

    fn abs(self) -> Self {
        Real(self.0.abs())
    }

    fn round(self) -> Self {
        Real(self.0.round())
    }

    fn geometric_mean(self, other: Self) -> Self {
        Real((self.0 * other.0).sqrt())
    }

    fn to_i64(self) -> i64 {
        self.0 as i64
    }

    fn lt(self, other: Self) -> bool {
        self.0 < other.0
    }

    fn le(self, other: Self) -> bool {
        self.0 <= other.0
    }

    fn to_fixed(self, digits: u32) -> String {
        format!("{:.*}", digits as usize, self.0)
    }

    fn to_text(self) -> String {
        self.0.to_string()
    }

    fn parse(text: &str) -> Option<Self> {
        text.parse().ok().map(Real)
    }
}

/// Runs an economy with a client that answers prompts; all draws come from the seed.
fn run_with_client(
    cfg: &Config<Real>,
    mut client: impl FnMut(&str) -> Result<String, String>,
) -> Result<SimulationResult<Real>, String> {
    let root = root_seed(cfg);
    let mut init = StdRng::seed_from_u64(root.wrapping_mul(2));
    let mut sampling = Sampling::new(cfg);
    loop {
        let drawn = match sampling.next_draw() {
            Draw::Power { least, exponent } => {
                let u: f64 = init.gen_range(least.0..=1.0);
                Drawn::Value { value: Real(u.powf(exponent.0)) }
            }
            Draw::Below { bound } => Drawn::Value { value: Real(init.gen_range(0.0..bound.0)) },
            Draw::Age { youngest, oldest } => Drawn::Age { age: init.gen_range(youngest..=oldest) },
            Draw::Done => break,
        };
        assert!(sampling.take(drawn));
    }
    let sampled = sampling.finish().unwrap();
    assert_eq!(sampled.len(), cfg.n_agents);
    let mut rng = StdRng::seed_from_u64(root.wrapping_mul(2).wrapping_add(1));
    let mut calls = 0;
    let mut sim = Simulation::new(cfg, &sampled);
    loop {
        let event = match sim.next_action() {
            Action::AskDecision { prompt, .. } | Action::AskReflection { prompt, .. } => {
                calls += 1;
                match client(&prompt) {
                    Ok(text) => Event::Reply { text },
                    Err(reason) => Event::Failure { reason },
                }
            }
            Action::DrawUnit => Event::Drawn { value: Real(rng.gen_range(0.0..1.0)) },
            Action::DrawUpTo { bound } => Event::Drawn { value: Real(rng.gen_range(0.0..=bound.0)) },
            Action::Finish | Action::Abort => break,
        };
        assert!(sim.advance(event));
    }
    let usage = LlmUsage { total_calls: calls, cache_hits: 0, cache_hit_rate: Real(0.0) };
    sim.finish("mock-model".to_string(), "mock://".to_string(), usage)
}

fn scripted(work: f64, consume: f64) -> impl FnMut(&str) -> Result<String, String> {
    let reply = format!("{{\"work\": {work}, \"consume\": {consume}}}");
    move |prompt: &str| {
        if prompt.contains("Answer with JSON only") {
            Ok(reply.clone())
        } else {
            Ok("Reflection: steady as she goes.".to_string())
        }
    }
}

fn mock(prompt: &str) -> Result<String, String> {
    Ok(mock_reply::<Real>(prompt))
}

fn gdp(result: &SimulationResult<Real>) -> Vec<f64> {
    result.metrics_history.iter().map(|m| m.nominal_gdp.0).collect()
}

fn unemployment(result: &SimulationResult<Real>) -> Vec<f64> {
    result.metrics_history.iter().map(|m| m.unemployment_rate.0).collect()
}

fn test_config() -> Config<Real> {
    Config {
        n_agents: 8,
        months: 24,
        memory_length: 1,
        regime: PolicyRegime::Progressive,
        seed: Some(42),
        ..Config::default()
    }
}

fn base_config() -> Config<Real> {
    Config {
        n_agents: 10,
        months: 24,
        memory_length: 1,
        regime: PolicyRegime::Progressive,
        seed: Some(7),
        ..Config::default()
    }
}

fn reproduce_config() -> Config<Real> {
    Config {
        n_agents: 100,
        months: 60,
        memory_length: 1,
        regime: PolicyRegime::Progressive,
        seed: Some(42),
        ..Config::default()
    }
}

#[test]
fn scripted_run_produces_monthly_metrics() {
    let cfg = test_config();
    let result = run_with_client(&cfg, scripted(0.8, 0.4)).unwrap();
    assert_eq!(result.metrics_history.len(), cfg.months);
    assert_eq!(result.final_month, cfg.months);
}

#[test]
fn core_is_deterministic_given_mock() {
    let cfg = test_config();
    let a = run_with_client(&cfg, scripted(0.8, 0.4)).unwrap();
    let b = run_with_client(&cfg, scripted(0.8, 0.4)).unwrap();
    assert_eq!(gdp(&a), gdp(&b));
}

#[test]
fn produces_one_metric_row_per_month() {
    let cfg = base_config();
    let result = run_with_client(&cfg, scripted(0.8, 0.4)).unwrap();
    assert_eq!(result.metrics_history.len(), cfg.months);
    assert_eq!(result.final_month, cfg.months);
    for (i, m) in result.metrics_history.iter().enumerate() {
        assert_eq!(m.month, i);
        assert_eq!(m.year, i / 12);
    }
}

#[test]
fn macro_indicators_are_in_sane_ranges() {
    let cfg = base_config();
    let result = run_with_client(&cfg, scripted(0.8, 0.4)).unwrap();
    let mut saw_nonzero_gdp = false;
    for m in &result.metrics_history {
        assert!((0.0..=1.0).contains(&m.unemployment_rate.0), "{:?}", m.unemployment_rate);
        assert!((0.0..=1.0).contains(&m.gini_savings.0), "{:?}", m.gini_savings);
        assert!(m.nominal_gdp.0 >= 0.0);
        if m.nominal_gdp.0 > 0.0 {
            saw_nonzero_gdp = true;
        }
    }
    assert!(saw_nonzero_gdp);
}

#[test]
fn no_work_means_full_unemployment_and_zero_gdp() {
    let cfg = base_config();
    let result = run_with_client(&cfg, scripted(0.0, 0.0)).unwrap();
    for m in &result.metrics_history {
        assert!((m.unemployment_rate.0 - 1.0).abs() < 1e-9);
        assert!(m.nominal_gdp.0.abs() < 1e-9);
    }
}

#[test]
fn full_work_means_low_unemployment() {
    let cfg = base_config();
    let result = run_with_client(&cfg, scripted(1.0, 0.3)).unwrap();
    for m in &result.metrics_history {
        assert!(m.unemployment_rate.0.abs() < 1e-9);
        assert!(m.nominal_gdp.0 > 0.0);
    }
}

#[test]
fn none_regime_collects_no_tax() {
    let mut cfg = base_config();
    cfg.regime = PolicyRegime::NoTax;
    let (brackets, rates) = cfg.tax_schedule();
    assert!((progressive_tax(Real(100_000.0), &brackets, &rates)).0.abs() < 1e-9);

    let result = run_with_client(&cfg, scripted(0.8, 0.4)).unwrap();
    for m in &result.metrics_history {
        assert!(m.redistribution.0.abs() < 1e-9);
    }
}

#[test]
fn core_is_deterministic_given_fixed_mock() {
    let cfg = base_config();
    let a = run_with_client(&cfg, scripted(0.6, 0.5)).unwrap();
    let b = run_with_client(&cfg, scripted(0.6, 0.5)).unwrap();
    assert_eq!(gdp(&a), gdp(&b));
    assert_eq!(unemployment(&a), unemployment(&b));
}

#[test]
fn different_seed_changes_employment_trajectory() {
    let mut cfg_a = base_config();
    cfg_a.seed = Some(1);
    let mut cfg_b = base_config();
    cfg_b.seed = Some(999);
    let a = run_with_client(&cfg_a, scripted(0.5, 0.4)).unwrap();
    let b = run_with_client(&cfg_b, scripted(0.5, 0.4)).unwrap();
    assert_ne!(unemployment(&a), unemployment(&b));
}

#[test]
fn mock_reproduce_phillips_and_okun_are_negative() {
    let cfg = reproduce_config();
    let result = run_with_client(&cfg, mock).unwrap();
    let m = &result.metrics_history;
    let phillips = phillips_correlation(m).unwrap().0;
    let okun = okun_correlation(m).unwrap().0;
    assert!(phillips < 0.0, "{phillips}");
    assert!(okun < 0.0, "{okun}");
}

#[test]
fn mock_reproduce_macro_indicators_are_bounded() {
    let cfg = reproduce_config();
    let result = run_with_client(&cfg, mock).unwrap();
    for m in &result.metrics_history {
        assert!(m.nominal_gdp.0.is_finite() && m.nominal_gdp.0 >= 0.0);
        assert!(m.inflation_rate.0.is_finite());
        assert!((0.0..=1.0).contains(&m.unemployment_rate.0));
        assert!((0.0..=1.0).contains(&m.gini_savings.0));
    }
}

#[test]
fn mock_decision_client_is_bit_deterministic() {
    let cfg = reproduce_config();
    let a = run_with_client(&cfg, mock).unwrap();
    let b = run_with_client(&cfg, mock).unwrap();
    let series = |r: &SimulationResult<Real>| {
        r.metrics_history
            .iter()
            .map(|m| {
                (
                    m.nominal_gdp.0.to_bits(),
                    m.unemployment_rate.0.to_bits(),
                    m.inflation_rate.0.to_bits(),
                    m.gini_savings.0.to_bits(),
                )
            })
            .collect::<Vec<_>>()
    };
    assert_eq!(series(&a), series(&b));
}

#[test]
fn mock_reply_follows_the_economy() {
    let prompt = |u: &str, pi: &str| {
        format!("- Unemployment rate: {u}\n- Annual inflation: {pi}\nAnswer with JSON only")
    };
    assert_eq!(
        mock_reply::<Real>(&prompt("0.250", "0.100")),
        "{\"work\": 0.8800, \"consume\": 0.1150}"
    );
    assert_eq!(
        mock_reply::<Real>(&prompt("1.000", "-0.500")),
        "{\"work\": 1.0000, \"consume\": 0.1000}"
    );
    assert_eq!(
        mock_reply::<Real>("Answer with JSON only"),
        "{\"work\": 0.8200, \"consume\": 0.2500}"
    );
    assert_eq!(mock_reply::<Real>("Reflection:"), MOCK_REFLECTION);
    assert_eq!(parse_marker::<Real>("a: -1.5x a: 2", "a: "), Some(Real(-1.5)));
    assert_eq!(parse_marker::<Real>("a: --1", "a: "), None);
    assert_eq!(parse_marker::<Real>("a: ", "b: "), None);
    assert_eq!(parse_marker::<Real>("a: ", "a: "), None);
}

#[test]
fn failed_calls_end_a_run() {
    let cfg = test_config();
    let decision = run_with_client(&cfg, |_: &str| Err("no server".to_string()));
    assert_eq!(
        decision.err().unwrap(),
        "シミュレーションの実行に失敗: decision LLM call failed: no server"
    );
    let reflection = run_with_client(&cfg, |prompt: &str| {
        if prompt.contains("Answer with JSON only") {
            Ok("0.5 0.5".to_string())
        } else {
            Err("timeout".to_string())
        }
    });
    assert_eq!(
        reflection.err().unwrap(),
        "シミュレーションの実行に失敗: reflection LLM call failed: timeout"
    );
}

#[test]
fn runs_take_the_expected_answers() {
    let cfg = test_config();
    let result = run_with_client(&cfg, scripted(0.8, 0.4)).unwrap();
    assert_eq!(result.metadata.total_calls, 8 * 24 + 8 * 8);
    let empty = Config { n_agents: 0, months: 5, ..test_config() };
    let result = run_with_client(&empty, scripted(0.8, 0.4)).unwrap();
    assert_eq!((result.metadata.total_calls, result.final_month), (0, 5));
    assert_eq!(result.metrics_history[4].unemployment_rate, Real(0.0));
    let none = Config { months: 0, ..test_config() };
    let result = run_with_client(&none, scripted(0.8, 0.4)).unwrap();
    assert_eq!((result.metrics_history.len(), result.final_month), (0, 0));
}

#[test]
fn answers_must_fit() {
    let cfg = Config { n_agents: 1, months: 1, ..test_config() };
    let mut sim = Simulation::new(&cfg, &vec![(Real(10.0), 30)]);
    assert!(!sim.advance(Event::Drawn { value: Real(0.0) }));
    assert!(matches!(sim.next_action(), Action::AskDecision { id: 0, .. }));
    assert!(sim.advance(Event::Reply { text: "1 1".to_string() }));
    assert!(matches!(sim.next_action(), Action::DrawUnit));
    assert!(!sim.advance(Event::Reply { text: "1 1".to_string() }));
    assert!(sim.advance(Event::Drawn { value: Real(0.5) }));
    match sim.next_action() {
        Action::DrawUpTo { bound } => assert_eq!(bound, Real(0.05)),
        _ => panic!(),
    }
    assert!(sim.advance(Event::Drawn { value: Real(0.05) }));
    match sim.next_action() {
        Action::DrawUpTo { bound } => assert_eq!(bound, Real(0.1)),
        _ => panic!(),
    }
    assert!(sim.advance(Event::Drawn { value: Real(0.1) }));
    assert!(matches!(sim.next_action(), Action::Finish));
    assert!(!sim.advance(Event::Drawn { value: Real(0.0) }));
    assert_eq!(sim.metrics().len(), 1);
    assert_eq!(sim.world().household(0).unwrap().wage, Real(10.0 * (1.0 - 0.05)));
    assert_eq!(sim.world().env.price, Real(1.0 * (1.0 - 0.1)));
}

#[test]
fn inflation_changes_with_the_year() {
    let cfg = Config { months: 36, ..base_config() };
    let result = run_with_client(&cfg, scripted(0.8, 0.4)).unwrap();
    let rows = &result.metrics_history;
    for i in 0..36 {
        assert_eq!(rows[i].inflation_rate, rows[i / 12 * 12].inflation_rate);
        assert_eq!(rows[i].interest_rate, rows[i / 12 * 12].interest_rate);
        assert!(rows[i].interest_rate.0 >= 0.0);
    }
    assert_eq!(rows[0].inflation_rate, Real(0.0));
    assert_ne!(rows[12].inflation_rate, Real(0.0));
}

#[test]
fn run_metadata_repeats_the_run() {
    let cfg = test_config();
    let result = run_with_client(&cfg, scripted(0.8, 0.4)).unwrap();
    let record = run_metadata(&result, &cfg);
    assert_eq!(record.llm_model, "mock-model");
    assert_eq!(record.llm_endpoint, "mock://");
    assert_eq!((record.llm_temperature, record.llm_seed), (Real(0.0), 0));
    assert_eq!((record.total_calls, record.cache_hits), (256, 0));
    assert_eq!(record.cache_hit_rate, Real(0.0));
    assert!(record.determinism_note.ends_with("is deterministic given the seed."));
}

fn small_world(wages: &[f64]) -> EconWorld<Real> {
    let cfg = Config { n_agents: wages.len(), months: 100, ..test_config() };
    init_world(&cfg, &wages.iter().map(|w| (Real(*w), 40)).collect())
}

#[test]
fn worlds_start_fresh() {
    let world = small_world(&[10.0, 20.0, 30.0]);
    assert_eq!(world.n(), 3);
    assert_eq!(world.agent_ids(), vec![0, 1, 2]);
    assert_eq!(world.household(2).unwrap().wage, Real(30.0));
    assert!(world.household(3).is_none());
    assert_eq!((world.month(), world.month_in_year()), (0, 0));
    assert_eq!(world.env.interest_rate, Real(0.01 + 0.02));
    assert_eq!(world.env.price_history, vec![Real(1.0)]);
    assert_eq!(world.env.tax_brackets.len(), world.env.tax_rates.len() + 1);
}

#[test]
fn ages_fall_into_bands() {
    assert_eq!(sample_age(Real(0.0)), AgeDraw::Among { youngest: 18, oldest: 29 });
    assert_eq!(sample_age(Real(0.3)), AgeDraw::Among { youngest: 30, oldest: 44 });
    assert_eq!(sample_age(Real(0.6)), AgeDraw::Among { youngest: 45, oldest: 59 });
    assert_eq!(sample_age(Real(0.9)), AgeDraw::Among { youngest: 60, oldest: 79 });
    assert_eq!(sample_age(Real(1.5)), AgeDraw::Exactly { age: 79 });
    assert!((age_share_total::<Real>().0 - 1.0).abs() < 1e-12);
    assert_eq!(sample_pareto_wage(Real(0.5), Real(10.0)), Real(20.0));
    assert_eq!(pareto_exponent(Real(1.5)), Real(1.0 / 1.5));
}

#[test]
fn interest_follows_the_rule() {
    let mut world = small_world(&[10.0]);
    world.clock.t = 12;
    MacroPolicyMechanism.apply(&mut world);
    assert_eq!(world.env.interest_rate, Real(0.01 + 0.02));
    world.clock.t = 13;
    world.env.price_history = vec![Real(1.0), Real(1.1)];
    world.env.year_unemp_buffer = vec![Real(0.0), Real(0.2)];
    MacroPolicyMechanism.apply(&mut world);
    let pi = (1.1 - 1.0) / 1.0;
    let rule: f64 = 0.01 + 0.02 + 0.5 * (pi - 0.02) + 0.5 * (0.04 - 0.1);
    assert_eq!(world.env.interest_rate, Real(rule));
    assert!(world.env.year_unemp_buffer.is_empty());
    world.env.price_history = vec![Real(1.0), Real(0.1)];
    MacroPolicyMechanism.apply(&mut world);
    assert_eq!(world.env.interest_rate, Real(0.0));
}

#[test]
fn markets_clear() {
    let mut world = small_world(&[10.0, 20.0]);
    LlmDecisionMechanism.decide(&mut world, 0, Real(0.83), Real(0.5), Real(0.8));
    LlmDecisionMechanism.decide(&mut world, 1, Real(0.1), Real(1.0), Real(0.5));
    assert!(world.household(0).unwrap().employed);
    assert!(!world.household(1).unwrap().employed);
    let p_work = world.household(0).unwrap().p_work.0;
    assert!((p_work - 0.84).abs() < 1e-9 || (p_work - 0.82).abs() < 1e-9);
    world.env.inventory = Real(32.0);
    let phi = MarketClearingMechanism.produce(&mut world);
    assert_eq!(world.env.inventory, Real(200.0));
    assert_eq!(phi, Real(-1.0));
    assert_eq!(MarketClearingMechanism.wage_bound(&world, Real(-0.5)), Real(0.025));
    assert_eq!(MarketClearingMechanism.price_bound(&world, Real(0.5)), Real(0.05));
    MarketClearingMechanism.adjust_wage(&mut world, 1, Real(-0.5), Real(0.02));
    assert_eq!(world.household(1).unwrap().wage, Real(20.0 * (1.0 - 0.02)));
    MarketClearingMechanism.adjust_wage(&mut world, 1, Real(-0.5), Real(2.0));
    assert_eq!(world.household(1).unwrap().wage, Real(0.0));
    MarketClearingMechanism.adjust_price(&mut world, Real(0.5), Real(0.05));
    assert_eq!(world.env.price, Real(1.05));
    MarketClearingMechanism.adjust_price(&mut world, Real(-0.5), Real(1.0));
    assert_eq!(world.env.price, Real(1e-6));
}

#[test]
fn months_are_settled() {
    let mut world = small_world(&[100.0, 10.0]);
    world.clock.t = 12;
    world.env.year_price_buffer = vec![Real(2.0)];
    world.env.inventory = Real(50.0);
    LlmDecisionMechanism.decide(&mut world, 0, Real(1.0), Real(0.5), Real(0.0));
    LlmDecisionMechanism.decide(&mut world, 1, Real(0.0), Real(0.0), Real(0.0));
    world.households.get_mut(&0).unwrap().savings = Real(40.0);
    let mut fiscal = FiscalRewardMechanism::new();
    fiscal.apply(&mut world);
    let tax = 0.10 * 9_700.0 + 0.12 * (16_800.0 - 9_700.0);
    let share = tax / 2.0;
    assert_eq!(world.env.redistribution, Real(share));
    let h = world.household(0).unwrap();
    assert_eq!(h.savings, Real(40.0 - 20.0 + (16_800.0 - tax) + share));
    assert_eq!((h.last_consumption, h.last_tax), (Real(20.0), Real(tax)));
    assert_eq!(world.household(1).unwrap().savings, Real(share));
    assert_eq!(world.env.inventory, Real(30.0));
    assert_eq!(world.env.price_history, vec![Real(1.0), Real(1.5)]);
    assert!(world.env.year_price_buffer.is_empty());
    assert_eq!(world.env.year_unemp_buffer, vec![Real(0.5)]);
    let m = &fiscal.metrics[0];
    assert_eq!((m.month, m.year), (11, 0));
    assert_eq!(m.nominal_gdp, Real(168.0));
    assert_eq!(m.inflation_rate, Real(0.0));
    assert_eq!((m.avg_work_propensity, m.avg_consume_propensity), (Real(0.5), Real(0.25)));
}

#[test]
fn months_are_remembered() {
    let mut world = small_world(&[10.0]);
    let memory = MemoryUpdateMechanism::new(2);
    assert_eq!(MemoryUpdateMechanism::new(0).memory_length, 1);
    LlmDecisionMechanism.decide(&mut world, 0, Real(1.0), Real(0.0), Real(0.0));
    world.clock.t = 1;
    memory.remember(&mut world);
    assert!(world.household(0).unwrap().employed_prev);
    LlmDecisionMechanism.decide(&mut world, 0, Real(0.0), Real(0.0), Real(0.0));
    world.clock.t = 2;
    memory.remember(&mut world);
    world.clock.t = 3;
    memory.remember(&mut world);
    let h = world.household(0).unwrap();
    assert!(!h.employed_prev);
    assert_eq!(
        h.memory,
        vec![
            "month 1: unemployed, worked=false, consumed=0.00, savings=0.00".to_string(),
            "month 2: unemployed, worked=false, consumed=0.00, savings=0.00".to_string(),
        ]
    );
    memory.reflect(&mut world, 0, "  calm \n");
    assert_eq!(world.household(0).unwrap().reflection, "calm");
    let perception = LlmDecisionMechanism.perceive(&world);
    assert_eq!((perception.unemployment, perception.inflation), (Real(1.0), Real(0.0)));
}

#[test]
fn seeds_are_kept_or_fresh() {
    let mut cfg = test_config();
    assert_eq!(root_seed(&cfg), 42);
    cfg.seed = None;
    let fresh: Vec<u64> = (0..4).map(|_| root_seed(&cfg)).collect();
    assert!(fresh.iter().any(|s| *s != fresh[0]));
}
