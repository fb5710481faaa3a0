use econagent_simulation::config::{
    parse_regime, Config, LlmSettings, PolicyRegime, RunSettings,
};
use econagent_simulation::json::JsonField;
use econagent_simulation::mechanisms::progressive_tax;
use econagent_simulation::metrics::{
    gini, inflation_rate, mean, nominal_gdp, okun_correlation, pearson, phillips_correlation,
    unemployment_rate, MacroMetrics,
};
use econagent_simulation::number::{clamp, max, min, sum, Number};
use econagent_simulation::prompts::{
    decision_of_members, decision_prompt, extract_floats, lookup_number, parse_decision,
    parse_json_decision, reflection_prompt, settle_decision,
};
use econagent_simulation::simulation::init_world;
use econagent_simulation::text::{find, numeral_text, same_text, trim};
use econagent_simulation::world::{snap_probability, Household};

#[derive(Debug, Clone, Copy, PartialEq, PartialOrd)]
struct Real(f64);

impl Number for Real {
    fn decimal(mantissa: i64, places: u32) -> Self {
        Real(mantissa as f64 / 10f64.powi(places as i32))
    }

    fn from_count(n: u64) -> Self {
        Real(n as f64)
    }

    fn infinity() -> Self {
        Real(f64::INFINITY)
    }

    fn plus(self, other: Self) -> Self {
        Real(self.0 + other.0)
    }

    fn minus(self, other: Self) -> Self {
        Real(self.0 - other.0)
    }

    fn times(self, other: Self) -> Self {
        Real(self.0 * other.0)
    }

    fn over(self, other: Self) -> Self {
        Real(self.0 / other.0)
    }

    fn abs(self) -> Self {
        Real(self.0.abs())
    }

    fn round(self) -> Self {
        Real(self.0.round())
    }

    fn geometric_mean(self, other: Self) -> Self {
        Real((self.0 * other.0).sqrt())
    }

    fn to_i64(self) -> i64 {
        self.0 as i64
    }

    fn lt(self, other: Self) -> bool {
        self.0 < other.0
    }

    fn le(self, other: Self) -> bool {
        self.0 <= other.0
    }

    fn to_fixed(self, digits: u32) -> String {
        format!("{:.*}", digits as usize, self.0)
    }

    fn to_text(self) -> String {
        self.0.to_string()
    }

    fn parse(text: &str) -> Option<Self> {
        text.parse().ok().map(Real)
    }
}

fn reals(values: &[f64]) -> Vec<Real> {
    values.iter().map(|x| Real(*x)).collect()
}

fn row(month: usize, u: f64, infl: f64, gdp: f64) -> MacroMetrics<Real> {
    MacroMetrics {
        month,
        year: month / 12,
        nominal_gdp: Real(gdp),
        price: Real(1.0),
        interest_rate: Real(0.0),
        unemployment_rate: Real(u),
        inflation_rate: Real(infl),
        gini_savings: Real(0.0),
        avg_work_propensity: Real(0.0),
        avg_consume_propensity: Real(0.0),
        redistribution: Real(0.0),
    }
}

#[test]
fn progressive_tax_brackets() {
    let brackets = reals(&[0.0, 9_700.0, 39_475.0, f64::INFINITY]);
    let rates = reals(&[0.10, 0.12, 0.22]);
    assert!((progressive_tax(Real(0.0), &brackets, &rates).0 - 0.0).abs() < 1e-9);
    assert!((progressive_tax(Real(9_700.0), &brackets, &rates).0 - 970.0).abs() < 1e-6);
    assert!((progressive_tax(Real(20_000.0), &brackets, &rates).0 - 2206.0).abs() < 1e-6);
}

#[test]
fn proportional_tax_single_bracket() {
    let brackets = reals(&[0.0, f64::INFINITY]);
    let rates = reals(&[0.2]);
    assert!((progressive_tax(Real(1000.0), &brackets, &rates).0 - 200.0).abs() < 1e-9);
}

#[test]
fn zero_tax_regime() {
    let brackets = reals(&[0.0, f64::INFINITY]);
    let rates = reals(&[0.0]);
    assert!((progressive_tax(Real(5000.0), &brackets, &rates).0 - 0.0).abs() < 1e-9);
}

#[test]
fn tax_edges() {
    let brackets = reals(&[0.0, 100.0, f64::INFINITY]);
    let rates = reals(&[0.5, 1.0]);
    assert_eq!(progressive_tax(Real(-7.0), &brackets, &rates), Real(0.0));
    assert_eq!(progressive_tax(Real(100.0), &brackets, &rates), Real(50.0));
    assert_eq!(progressive_tax(Real(101.0), &brackets, &rates), Real(51.0));
    assert_eq!(progressive_tax(Real(101.0), &brackets, &[]), Real(0.0));
    assert_eq!(progressive_tax(Real(-1.0), &[], &rates), Real(0.0));
}

#[test]
fn progressive_tax_matches_hand_calc() {
    let cfg = Config::<Real> { regime: PolicyRegime::Progressive, ..Config::default() };
    let (brackets, rates) = cfg.tax_schedule();
    let t = progressive_tax(Real(50_000.0), &brackets, &rates).0;
    assert!((t - 6858.5).abs() < 1e-3, "{t}");
}

#[test]
fn schedules_of_the_regimes() {
    let mut cfg = Config::<Real>::default();
    let (brackets, rates) = cfg.tax_schedule();
    assert_eq!(
        brackets,
        reals(&[0.0, 9_700.0, 39_475.0, 84_200.0, 160_725.0, 204_100.0, 510_300.0, f64::INFINITY])
    );
    assert_eq!(rates, reals(&[0.10, 0.12, 0.22, 0.24, 0.32, 0.35, 0.37]));
    cfg.tax_scale = Real(3.0);
    let (_, rates) = cfg.tax_schedule();
    assert_eq!(rates[6], Real(1.0));
    assert_eq!(rates[0], Real(0.1 * 3.0));
    cfg.tax_scale = Real(-1.0);
    assert!(cfg.tax_schedule().1.iter().all(|r| *r == Real(0.0)));
    cfg.regime = PolicyRegime::Proportional;
    cfg.tax_scale = Real(0.5);
    assert_eq!(cfg.tax_schedule(), (reals(&[0.0, f64::INFINITY]), reals(&[0.11])));
    cfg.regime = PolicyRegime::NoTax;
    assert_eq!(cfg.tax_schedule(), (reals(&[0.0, f64::INFINITY]), reals(&[0.0])));
}

#[test]
fn unemployment_in_range() {
    assert!((unemployment_rate::<Real>(0, 10).0 - 1.0).abs() < 1e-12);
    assert!((unemployment_rate::<Real>(10, 10).0 - 0.0).abs() < 1e-12);
    assert!((unemployment_rate::<Real>(5, 10).0 - 0.5).abs() < 1e-12);
    assert_eq!(unemployment_rate::<Real>(0, 0), Real(0.0));
}

#[test]
fn gini_of_equal_is_zero() {
    let eq = reals(&[100.0, 100.0, 100.0, 100.0]);
    assert!(gini(&eq).0 < 1e-9);
}

#[test]
fn gini_of_extreme_inequality_near_one() {
    let mut v = vec![Real(0.0); 99];
    v.push(Real(100.0));
    let g = gini(&v).0;
    assert!(g > 0.95, "{g}");
}

#[test]
fn gini_where_it_is_not_defined() {
    assert_eq!(gini::<Real>(&[]), Real(0.0));
    assert_eq!(gini(&reals(&[0.0, 0.0])), Real(0.0));
    assert_eq!(gini(&reals(&[-1.0, 5.0])), Real(0.0));
    assert_eq!(gini(&reals(&[1.0, 3.0])), Real(0.25));
}

#[test]
fn inflation_from_history() {
    let h = reals(&[1.0, 1.05]);
    assert!((inflation_rate(&h).0 - 0.05).abs() < 1e-9);
    assert_eq!(inflation_rate(&reals(&[1.0])).0, 0.0);
    assert_eq!(inflation_rate(&reals(&[0.0, 2.0])).0, 0.0);
    assert_eq!(inflation_rate(&reals(&[5.0, 2.0, 1.0])).0, -0.5);
}

#[test]
fn nominal_gdp_scales_with_employment() {
    let g1 = nominal_gdp(10, Real(168.0), Real(1.0), Real(1.0)).0;
    let g2 = nominal_gdp(20, Real(168.0), Real(1.0), Real(1.0)).0;
    assert!((g2 - 2.0 * g1).abs() < 1e-9);
    assert_eq!(nominal_gdp(3, Real(2.0), Real(5.0), Real(7.0)), Real(210.0));
}

#[test]
fn pearson_perfect_negative() {
    let x = reals(&[1.0, 2.0, 3.0, 4.0]);
    let y = reals(&[4.0, 3.0, 2.0, 1.0]);
    let r = pearson(&x, &y).unwrap().0;
    assert!((r + 1.0).abs() < 1e-9, "{r}");
}

#[test]
fn pearson_degenerate_is_none() {
    assert!(pearson(&reals(&[1.0, 1.0, 1.0]), &reals(&[1.0, 2.0, 3.0])).is_none());
    assert!(pearson(&reals(&[1.0]), &reals(&[1.0])).is_none());
    assert!(pearson(&reals(&[1.0, 2.0]), &reals(&[1.0])).is_none());
}

#[test]
fn phillips_negative_on_synthetic_data() {
    let mut m = Vec::new();
    for k in 0..48 {
        let u = 0.02 + 0.001 * k as f64;
        let infl = 0.05 - 0.0008 * k as f64;
        m.push(row(k, u, infl, 1000.0 - 2.0 * k as f64));
    }
    let r = phillips_correlation(&m).unwrap().0;
    assert!(r < 0.0, "{r}");
}

#[test]
fn phillips_takes_settled_months_only() {
    let mut m = vec![row(0, 0.9, 0.9, 1.0), row(1, 0.1, 0.1, 1.0)];
    assert!(phillips_correlation(&m).unwrap().0 > 0.99);
    m.push(row(36, 0.1, 0.2, 1.0));
    assert!(phillips_correlation(&m).unwrap().0 > 0.9);
    m.push(row(37, 0.2, 0.1, 1.0));
    assert!(phillips_correlation(&m).unwrap().0 < -0.99);
}

#[test]
fn okun_negative_on_synthetic_data() {
    let mut m = Vec::new();
    let mut gdp = 1000.0;
    let mut u = 0.05;
    for k in 0..40 {
        let up = k % 2 == 0;
        u += if up { 0.01 } else { -0.01 };
        gdp *= if up { 0.97 } else { 1.03 };
        m.push(row(k, u, 0.0, gdp));
    }
    let r = okun_correlation(&m).unwrap().0;
    assert!(r < 0.0, "{r}");
}

#[test]
fn okun_needs_three_months_with_output() {
    let m = vec![row(0, 0.1, 0.0, 5.0), row(1, 0.2, 0.0, 4.0), row(2, 0.1, 0.0, 5.0)];
    assert!(okun_correlation(&m[..2]).is_none());
    assert!((okun_correlation(&m).unwrap().0 + 1.0).abs() < 1e-9);
    let idle = vec![row(0, 0.1, 0.0, 0.0), row(1, 0.2, 0.0, 0.0), row(2, 0.1, 0.0, 5.0)];
    assert!(okun_correlation(&idle).is_none());
}

#[test]
fn means_and_extremes() {
    assert_eq!(mean::<Real>(&[]), Real(0.0));
    assert_eq!(mean(&reals(&[1.0, 2.0, 6.0])), Real(3.0));
    assert_eq!(sum(&reals(&[1.0, 2.0, 6.0])), Real(9.0));
    let nan = Real(f64::NAN);
    assert_eq!(max(nan, Real(1.0)), Real(1.0));
    assert_eq!(max(Real(1.0), nan), Real(1.0));
    assert_eq!(max(Real(1.0), Real(2.0)), Real(2.0));
    assert_eq!(min(nan, Real(1.0)), Real(1.0));
    assert_eq!(min(Real(1.0), Real(-2.0)), Real(-2.0));
    assert_eq!(clamp(Real(9.0), Real(0.0), Real(1.0)), Real(1.0));
    assert_eq!(clamp(Real(-9.0), Real(0.0), Real(1.0)), Real(0.0));
    assert!(clamp(nan, Real(0.0), Real(1.0)).0.is_nan());
}

#[test]
fn parses_strict_json() {
    let (w, c) = parse_decision::<Real>("{\"work\": 0.8, \"consume\": 0.4}");
    assert!((w.0 - 0.8).abs() < 1e-9);
    assert!((c.0 - 0.4).abs() < 1e-9);
}

#[test]
fn parses_json_with_prose() {
    let (w, c) = parse_decision::<Real>(
        "Sure! Here is my decision: {\"work\": 1.0, \"consume\": 0.0} done.",
    );
    assert!((w.0 - 1.0).abs() < 1e-9);
    assert!((c.0 - 0.0).abs() < 1e-9);
}

#[test]
fn falls_back_to_floats() {
    let (w, c) = parse_decision::<Real>("work 0.6 and consume 0.3 roughly");
    assert!((w.0 - 0.6).abs() < 1e-9);
    assert!((c.0 - 0.3).abs() < 1e-9);
}

#[test]
fn snaps_to_grid_and_clamps() {
    let (w, c) = parse_decision::<Real>("{\"work\": 1.5, \"consume\": -0.3}");
    assert!((w.0 - 1.0).abs() < 1e-9);
    assert!((c.0 - 0.0).abs() < 1e-9);
}

#[test]
fn neutral_fallback_when_no_numbers() {
    let (w, c) = parse_decision::<Real>("I am not sure what to do.");
    assert!((w.0 - 0.5).abs() < 1e-9);
    assert!((c.0 - 0.5).abs() < 1e-9);
}

#[test]
fn json_objects_are_read() {
    let read = |text: &str| parse_json_decision::<Real>(text);
    assert_eq!(
        read("x {\"labor\": \" 0.25 \", \"consumption\": 1} y"),
        Some((Real(0.25), Real(1.0)))
    );
    assert_eq!(
        read("{\"work\": null, \"p_work\": 2e-1, \"consume\": 0.1}"),
        Some((Real(0.2), Real(0.1)))
    );
    assert_eq!(read("{\"work\": 0.1, \"consume\": }"), None);
    assert_eq!(read("{\"work\": 0.1}"), None);
    assert_eq!(read("{\"work\": \"nan\", \"consume\": 0.4}"), None);
    assert_eq!(
        read("{\"work\": \"nan\", \"labor\": 1e-7, \"consume\": 0.4}"),
        Some((Real(1e-7), Real(0.4)))
    );
    assert_eq!(read("[0.1, 0.2]"), None);
    assert_eq!(read("} {"), None);
    assert_eq!(read("{\"a\": 1} {\"b\": 2}"), None);
}

#[test]
fn decisions_take_two_numbers() {
    assert_eq!(parse_decision::<Real>("I will work 0.8"), (Real(0.5), Real(0.5)));
    assert_eq!(settle_decision(None, &reals(&[0.9])), (Real(0.5), Real(0.5)));
    let (w, c) = parse_decision::<Real>("Work 0.6, consume 0.3.");
    assert!((w.0 - 0.6).abs() < 1e-9);
    assert!((c.0 - 0.3).abs() < 1e-9);
    assert_eq!(settle_decision(None, &reals(&[2.0, -1.0, 7.0])), (Real(1.0), Real(0.0)));
    assert_eq!(
        settle_decision(Some((Real(0.0), Real(1.0))), &reals(&[0.5, 0.5])),
        (Real(0.0), Real(1.0))
    );
}

#[test]
fn members_are_looked_up_in_order() {
    let members = vec![
        ("b".to_string(), JsonField::Number("2".to_string())),
        ("a".to_string(), JsonField::Other),
        ("c".to_string(), JsonField::Text(" 3.5 ".to_string())),
        ("b".to_string(), JsonField::Number("9".to_string())),
    ];
    assert_eq!(lookup_number::<Real>(&members, &["a", "b"]), Some(Real(2.0)));
    assert_eq!(lookup_number::<Real>(&members, &["c"]), Some(Real(3.5)));
    assert_eq!(lookup_number::<Real>(&members, &["a", "d"]), None);
    assert_eq!(decision_of_members::<Real>(&members), None);
}

#[test]
fn numbers_in_a_text() {
    assert_eq!(extract_floats::<Real>("a-1.5b 2. .25 3"), reals(&[-1.5, 2.0, 0.25, 3.0]));
    assert_eq!(extract_floats::<Real>("1.2.3 - 4-5"), reals(&[4.0, 5.0]));
    assert_eq!(extract_floats::<Real>("--7"), reals(&[7.0]));
    assert_eq!(extract_floats::<Real>("From 1... to 2.5."), reals(&[1.0, 2.5]));
    assert_eq!(extract_floats::<Real>("5.-3"), reals(&[5.0, 3.0]));
    assert_eq!(extract_floats::<Real>("0..5 and 1.2.3."), reals(&[]));
    assert_eq!(extract_floats::<Real>("-. -7. ."), reals(&[-7.0]));
    assert_eq!(extract_floats::<Real>(""), reals(&[]));
}

#[test]
fn probabilities_lie_on_the_grid() {
    assert_eq!(snap_probability(Real(0.5)), Real(25.0 * 0.02));
    assert_eq!(snap_probability(Real(0.511)), Real(26.0 * 0.02));
    assert_eq!(snap_probability(Real(1.7)), Real(1.0));
    assert_eq!(snap_probability(Real(-1.7)), Real(0.0));
}

#[test]
fn regimes_and_their_names() {
    for regime in [PolicyRegime::Progressive, PolicyRegime::Proportional, PolicyRegime::NoTax] {
        assert_eq!(parse_regime(regime.label()), Ok(regime));
        assert_eq!(parse_regime(&regime.label().to_uppercase()), Ok(regime));
    }
    assert_eq!(PolicyRegime::NoTax.label(), "none");
    assert_eq!(parse_regime("  Prog\n"), Ok(PolicyRegime::Progressive));
    assert_eq!(parse_regime("flat"), Ok(PolicyRegime::Proportional));
    assert_eq!(parse_regime("prop"), Ok(PolicyRegime::Proportional));
    assert_eq!(parse_regime("OFF"), Ok(PolicyRegime::NoTax));
    assert_eq!(
        parse_regime("taxes"),
        Err("不正な政策レジーム: \"taxes\" (progressive / proportional / none)".to_string())
    );
}

#[test]
fn settings_and_their_record() {
    let cfg = Config::<Real>::default();
    assert_eq!((cfg.n_agents, cfg.months, cfg.memory_length), (100, 240, 1));
    assert_eq!(cfg.wage_pareto_alpha, Real(1.5));
    assert_eq!(cfg.seed, Some(42));
    let llm = LlmSettings::<Real>::default();
    assert_eq!((llm.temperature, llm.seed, llm.cache_path), (Real(0.0), 0, None));
    let asked = Config::for_run(RunSettings {
        n_agents: 7,
        months: 3,
        memory_length: 2,
        regime: PolicyRegime::NoTax,
        tax_scale: Real(1.25),
        seed: None,
        llm_temperature: Real(0.5),
        llm_seed: 9,
        cache_path: "c.json".to_string(),
        output_dir: "out".to_string(),
    });
    assert_eq!(asked.tax_scale, Real(1.25));
    assert_eq!(asked.llm.cache_path, Some("c.json".to_string()));
    let record = asked.to_run_config_json();
    assert_eq!((record.command, record.n_agents, record.months), ("run", 7, 3));
    assert_eq!((record.regime.as_str(), record.tax_scale), ("none", Real(1.25)));
    assert_eq!((record.seed, record.llm_seed, record.llm_temperature), (None, 9, Real(0.5)));
    assert_eq!(record.output_dir, "out");
    assert_eq!(record.alpha_p, Real(0.1));
    let offline = asked.without_cache_file();
    assert_eq!(offline.llm.cache_path, None);
    assert_eq!((offline.llm.seed, offline.n_agents), (9, 7));
}

#[test]
fn texts_are_trimmed_and_searched() {
    assert_eq!(trim("\u{3000} a b \t\n"), "a b");
    assert_eq!(trim(" \u{a0} "), "");
    assert!(same_text("été", "été"));
    assert!(!same_text("a", "ab"));
    assert_eq!(find(&['a', 'b', 'a', 'b'], &['b', 'a']), Some(1));
    assert_eq!(find(&['a'], &[]), Some(0));
    assert_eq!(find(&['a'], &['a', 'a']), None);
    assert_eq!(numeral_text(0), "0");
    assert_eq!(numeral_text(1_002_003), "1002003");
}

#[test]
fn prompts_show_the_situation() {
    let cfg = Config::<Real> { n_agents: 1, ..Config::default() };
    let world = init_world(&cfg, &vec![(Real(12.5), 33)]);
    let mut h = Household::new(Real(12.5), 33, Real(100.0));
    let plain = decision_prompt(&h, &world.env, Real(0.25), Real(-0.125));
    assert!(plain.starts_with("You are an economic agent (a worker-consumer) in a simulated macroeconomy. Each month"));
    assert!(plain.contains(
        "## Your profile\n- Age: 33 years\n- Hourly wage: 12.50\n- Savings: 100.00\n\
         - Status: unemployed last month\n- Last month consumption: 0.00, tax paid: 0.00\n"
    ));
    assert!(plain.contains(
        "\n## Current economy\n- Price level: 1.000\n- Interest rate: 0.030\n\
         - Unemployment rate: 0.250\n- Annual inflation: -0.125\n\
         - Per-capita redistribution last month: 0.00\n\n## Decision\n"
    ));
    assert!(plain.ends_with("Answer with JSON only, e.g. {\"work\": 0.80, \"consume\": 0.40}\n"));
    h.reflection = "Prices rose.".to_string();
    h.memory = vec!["month 0: x".to_string(), "month 1: y".to_string()];
    h.employed_prev = true;
    let full = decision_prompt(&h, &world.env, Real(0.0), Real(0.0));
    assert!(full.contains("- Status: employed last month\n"));
    assert!(full.contains(
        "\n## Your recent reflection\nPrices rose.\n\n## Recent months\n- month 0: x\n- month 1: y\n\n## Decision\n"
    ));
    let reflection = reflection_prompt(&h);
    assert!(reflection.starts_with("You are an economic agent reflecting on the past quarter. Summarize, in one or two sentences, what"));
    assert!(reflection.ends_with(
        "Your profile: age 33, hourly wage 12.50, savings 100.00.\nRecent months:\n- month 0: x\n- month 1: y\n\nReflection:"
    ));
    h.memory.clear();
    assert!(reflection_prompt(&h).ends_with("savings 100.00.\n\nReflection:"));
}
