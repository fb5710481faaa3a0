use econagent_simulation::config::{Config, PolicyRegime};
use econagent_simulation::fixed::Fixed;
use econagent_simulation::mechanisms::{progressive_tax, MarketClearingMechanism};
use econagent_simulation::metrics::{gini, mean, nominal_gdp, unemployment_rate, MacroMetrics};
use econagent_simulation::mock::mock_reply;
use econagent_simulation::number::Number;
use econagent_simulation::prompts::{decision_prompt, parse_decision};
use econagent_simulation::run::{Action, Event, Simulation};
use econagent_simulation::simulation::{init_world, sample_pareto_wage, LlmUsage};
use econagent_simulation::world::{snap_probability, Household};

fn fixed(text: &str) -> Fixed {
    Fixed::parse(text).unwrap()
}

fn is_share(x: Fixed) -> bool {
    fixed("0").le(x) && x.le(fixed("1"))
}

fn is_amount(x: Fixed) -> bool {
    fixed("0").le(x)
}

/// A small generator, so that runs are the same everywhere.
struct Draws(u64);

impl Draws {
    fn next(&mut self) -> u64 {
        self.0 = self.0.wrapping_mul(6364136223846793005).wrapping_add(1442695040888963407);
        self.0 >> 33
    }

    /// A draw between zero and one, one excluded.
    fn unit(&mut self) -> Fixed {
        Fixed::from_count(self.next() % 1_000_000).over(Fixed::from_count(1_000_000))
    }
}

fn config(regime: PolicyRegime) -> Config<Fixed> {
    Config { n_agents: 6, months: 30, memory_length: 2, regime, ..Config::default() }
}

/// Runs an economy; gives the simulation at its end and the numbers of answers and of replies that
/// it took.
fn play(
    cfg: &Config<Fixed>,
    seed: u64,
    mut reply: impl FnMut(&str, u64) -> String,
) -> (Simulation<Fixed>, (usize, usize)) {
    let mut draws = Draws(seed);
    let sampled = (0..cfg.n_agents).map(|i| (Fixed::from_count(10 + 7 * i as u64), 30)).collect();
    let mut sim = Simulation::new(cfg, &sampled);
    let (mut answers, mut replies) = (0, 0);
    loop {
        let event = match sim.next_action() {
            Action::AskDecision { prompt, .. } | Action::AskReflection { prompt, .. } => {
                replies += 1;
                Event::Reply { text: reply(&prompt, draws.next()) }
            }
            Action::DrawUnit => Event::Drawn { value: draws.unit() },
            Action::DrawUpTo { bound } => Event::Drawn { value: bound.times(draws.unit()) },
            Action::Finish | Action::Abort => break,
        };
        assert!(sim.advance(event));
        answers += 1;
        for id in sim.world().agent_ids() {
            let h = sim.world().household(id).unwrap();
            assert!(is_amount(h.wage) && is_amount(h.savings));
            assert!(is_share(h.p_work) && is_share(h.p_consume));
            assert!(h.memory.len() <= 2 && h.memory.len() <= sim.metrics().len());
        }
        assert_eq!(sim.world().n(), cfg.n_agents);
    }
    (sim, (answers, replies))
}

fn odd_reply(_: &str, x: u64) -> String {
    match x % 5 {
        0 => "{\"work\": 7, \"consume\": -2}".to_string(),
        1 => "0.9 and 0.35".to_string(),
        2 => "no idea".to_string(),
        3 => "{\"labor\": \"0.55\", \"consumption\": 0.8}".to_string(),
        _ => "-3".to_string(),
    }
}

fn check_row(m: &MacroMetrics<Fixed>) {
    assert!(is_share(m.unemployment_rate) && is_share(m.gini_savings));
    assert!(is_share(m.avg_work_propensity) && is_share(m.avg_consume_propensity));
    assert!(is_amount(m.nominal_gdp) && is_amount(m.interest_rate) && is_amount(m.redistribution));
    assert!(fixed("0.000001").le(m.price));
}

#[test]
fn runs_stay_in_bounds_and_in_order() {
    for seed in 1..4 {
        let (sim, (answers, replies)) = play(&config(PolicyRegime::Progressive), seed, odd_reply);
        assert_eq!(answers, 30 * (3 * 6 + 1) + 10 * 6);
        assert_eq!(replies, 6 * 30 + 6 * (30 / 3));
        assert_eq!(sim.metrics().len(), 30);
        for (i, m) in sim.metrics().iter().enumerate() {
            assert_eq!((m.month, m.year), (i, i / 12));
            check_row(m);
        }
        assert_eq!(sim.world().agent_ids(), vec![0, 1, 2, 3, 4, 5]);
    }
}

#[test]
fn runs_depend_on_their_answers_alone() {
    let cfg = config(PolicyRegime::Proportional);
    let rows = |seed: u64| {
        let (sim, _) = play(&cfg, seed, odd_reply);
        sim.metrics().iter().map(|m| (m.price.to_text(), m.gini_savings.to_text())).collect::<Vec<_>>()
    };
    assert_eq!(rows(5), rows(5));
    assert_ne!(rows(5), rows(6));
}

#[test]
fn runs_without_tax_redistribute_nothing() {
    let (sim, _) = play(&config(PolicyRegime::NoTax), 9, |p, _| mock_reply::<Fixed>(p));
    assert!(sim.metrics().iter().all(|m| m.redistribution.to_text() == "0"));
    let (taxed, _) = play(&config(PolicyRegime::Progressive), 9, |p, _| mock_reply::<Fixed>(p));
    assert!(taxed.metrics().iter().any(|m| m.redistribution.to_text() != "0"));
}

#[test]
fn certain_decisions_settle_unemployment() {
    let cfg = config(PolicyRegime::Progressive);
    let (idle, _) = play(&cfg, 3, |_, _| "0 0".to_string());
    let (busy, _) = play(&cfg, 3, |_, _| "1 0.3".to_string());
    for i in 0..30 {
        assert_eq!(idle.metrics()[i].unemployment_rate.to_text(), "1");
        assert_eq!(idle.metrics()[i].nominal_gdp.to_text(), "0");
        assert_eq!(busy.metrics()[i].unemployment_rate.to_text(), "0");
    }
    let usage = LlmUsage { total_calls: 0, cache_hits: 0, cache_hit_rate: fixed("0") };
    let result = busy.finish("m".to_string(), "e".to_string(), usage);
    assert_eq!(result.map(|r| r.final_month).ok(), Some(30));
}

#[test]
fn interest_and_inflation_change_with_the_year() {
    let (sim, _) = play(&config(PolicyRegime::Progressive), 2, odd_reply);
    let rows = sim.metrics();
    for i in 1..30 {
        if i % 12 != 0 {
            assert_eq!(rows[i].interest_rate.to_text(), rows[i - 1].interest_rate.to_text());
            assert_eq!(rows[i].inflation_rate.to_text(), rows[i - 1].inflation_rate.to_text());
        }
    }
    assert_eq!(rows[0].inflation_rate.to_text(), "0");
    assert_ne!(rows[12].inflation_rate.to_text(), "0");
}

#[test]
fn shares_stay_shares() {
    assert_eq!(unemployment_rate::<Fixed>(2, 3).to_text(), "0.333333333334");
    assert_eq!(unemployment_rate::<Fixed>(3, 3).to_text(), "0");
    assert_eq!(unemployment_rate::<Fixed>(0, 3).to_text(), "1");
    assert_eq!(mean(&[fixed("0.2"), fixed("1"), fixed("0")]).to_text(), "0.4");
    assert_eq!(gini(&[fixed("0"), fixed("4")]).to_text(), "0.5");
    assert!(is_share(gini(&[fixed("0"), fixed("0.000000000001"), fixed("7")])));
    assert_eq!(nominal_gdp(0, fixed("168"), fixed("2"), fixed("3")).to_text(), "0");
    assert_eq!(nominal_gdp(2, fixed("168"), fixed("2"), fixed("0.5")).to_text(), "336");
}

#[test]
fn probabilities_snap_to_fiftieths() {
    let snap = |t: &str| snap_probability(fixed(t)).to_text();
    assert_eq!(snap("0.513"), "0.52");
    assert_eq!(snap("0.51"), "0.52");
    assert_eq!(snap("0.5099"), "0.5");
    assert_eq!(snap("0.52"), "0.52");
    assert_eq!(snap("-4"), "0");
    assert_eq!(snap("4"), "1");
    let (w, c) = parse_decision::<Fixed>("{\"work\": 0.815, \"consume\": \"0.33\"}");
    assert_eq!((w.to_text(), c.to_text()), ("0.82".to_string(), "0.34".to_string()));
}

#[test]
fn tax_grows_and_stays_within_income() {
    for regime in [PolicyRegime::Progressive, PolicyRegime::Proportional, PolicyRegime::NoTax] {
        for scale in ["0", "0.5", "1", "4", "-1"] {
            let cfg = Config { tax_scale: fixed(scale), ..config(regime) };
            let (brackets, rates) = cfg.tax_schedule();
            assert_eq!(brackets.len(), rates.len() + 1);
            assert!(rates.iter().all(|r| is_share(*r)));
            assert!(rates.windows(2).all(|r| r[0].le(r[1])));
            assert_eq!(brackets[0].to_text(), "0");
            assert!(brackets.windows(2).all(|b| b[0].lt(b[1])));
            let mut before = fixed("0");
            for income in [0, 1, 9_700, 9_701, 40_000, 90_000, 200_000, 600_000, 1_000_000_000] {
                let z = Fixed::from_count(income);
                let tax = progressive_tax(z, &brackets, &rates);
                assert!(before.le(tax) && tax.le(z));
                before = tax;
            }
            if regime == PolicyRegime::NoTax {
                assert_eq!(before.to_text(), "0");
            }
        }
    }
}

#[test]
fn markets_follow_demand() {
    let cfg = config(PolicyRegime::Progressive);
    let mut world = init_world(&cfg, &(0..6).map(|_| (fixed("10"), 20)).collect());
    MarketClearingMechanism.adjust_wage(&mut world, 0, fixed("0.5"), fixed("0.02"));
    MarketClearingMechanism.adjust_wage(&mut world, 1, fixed("-0.5"), fixed("0.02"));
    assert_eq!(world.household(0).unwrap().wage.to_text(), "10.2");
    assert_eq!(world.household(1).unwrap().wage.to_text(), "9.8");
    world.env.inventory = fixed("3");
    assert_eq!(MarketClearingMechanism.produce(&mut world).to_text(), "-1");
    assert!(fixed("10").le(sample_pareto_wage(fixed("0.3"), fixed("10"))));
}

#[test]
fn the_mock_reads_prompts() {
    let cfg = config(PolicyRegime::Progressive);
    let world = init_world(&cfg, &(0..6).map(|_| (fixed("10"), 20)).collect());
    let h = Household::new(fixed("10"), 20, fixed("5"));
    let answer = |u: &str, pi: &str| {
        mock_reply::<Fixed>(&decision_prompt(&h, &world.env, fixed(u), fixed(pi)))
    };
    assert_eq!(answer("0.1", "0"), "{\"work\": 0.8200, \"consume\": 0.2500}");
    assert_eq!(answer("0.2", "0"), "{\"work\": 0.8600, \"consume\": 0.2000}");
    assert_eq!(answer("0.2", "0.05"), "{\"work\": 0.8600, \"consume\": 0.1700}");
    assert_eq!(answer("0.9", "0.5"), "{\"work\": 1.0000, \"consume\": 0.0500}");
    assert_eq!(answer("0.1", "-0.1"), "{\"work\": 0.8200, \"consume\": 0.3100}");
}
