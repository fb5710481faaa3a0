use econagent_simulation::config::PolicyRegime;
use econagent_simulation::fixed::Fixed;
use econagent_simulation::metrics::MacroMetrics;
use econagent_simulation::number::Number;
use econagent_simulation::reproduce::{
    anchors, reproduce_months, reproduce_summary, scenario, scenario_regimes, scenario_seed_labels,
    ReproduceScenario,
};
use econagent_simulation::simulation::{LlmUsage, SimulationResult};
use econagent_simulation::sweep::{
    digest, label_hash, parse_count, parse_counts, split_csv, summarize, summarize_scale, sweep_plan,
    tax_scale_range,
};

fn fixed(text: &str) -> Fixed {
    Fixed::parse(text).unwrap()
}

fn text(x: Fixed) -> String {
    x.to_text()
}

fn row(month: usize, u: &str, infl: &str, gdp: &str, gini: &str) -> MacroMetrics<Fixed> {
    let zero = fixed("0");
    MacroMetrics {
        month,
        year: month / 12,
        nominal_gdp: fixed(gdp),
        price: fixed("1"),
        interest_rate: zero,
        unemployment_rate: fixed(u),
        inflation_rate: fixed(infl),
        gini_savings: fixed(gini),
        avg_work_propensity: fixed("0.5"),
        avg_consume_propensity: fixed("0.25"),
        redistribution: zero,
    }
}

fn result(metrics_history: Vec<MacroMetrics<Fixed>>) -> SimulationResult<Fixed> {
    let final_month = metrics_history.len();
    SimulationResult {
        metrics_history,
        metadata: LlmUsage { total_calls: 4, cache_hits: 1, cache_hit_rate: fixed("0.25") },
        llm_model: "m".to_string(),
        llm_endpoint: "e".to_string(),
        final_month,
    }
}

#[test]
fn fixed_numbers_compute() {
    assert_eq!(text(fixed("1.5").plus(fixed("2.25"))), "3.75");
    assert_eq!(text(fixed("1").minus(fixed("2.25"))), "-1.25");
    assert_eq!(text(fixed("-1.5").times(fixed("2.5"))), "-3.75");
    assert_eq!(text(fixed("1").over(fixed("3"))), "0.333333333333");
    assert_eq!(text(fixed("-2").over(fixed("3"))), "-0.666666666666");
    assert_eq!(text(fixed("123456789.000000000001").times(fixed("1000000000"))), "123456789000000000.001");
    assert_eq!(text(fixed("2").geometric_mean(fixed("1"))), "1.414213562373");
    assert_eq!(text(fixed("1000000").geometric_mean(fixed("0.01"))), "100");
    assert_eq!(text(fixed("0.000000000003").geometric_mean(fixed("0.000000000012"))), "0.000000000006");
    assert_eq!(text(Fixed::infinity().geometric_mean(Fixed::infinity())), text(Fixed::infinity()));
    assert_eq!(text(fixed("-4").geometric_mean(fixed("-9"))), "6");
    assert_eq!(text(fixed("-4").geometric_mean(fixed("9"))), "0");
    assert_eq!(text(fixed("-2.5").round()), "-3");
    assert_eq!(text(fixed("2.499999").round()), "2");
    assert_eq!(text(fixed("-7").abs()), "7");
    assert_eq!(fixed("-7.9").to_i64(), -7);
    assert_eq!(Fixed::infinity().to_i64(), i64::MAX);
    assert_eq!(fixed("-1000000000000000000000").to_i64(), i64::MIN);
    assert!(fixed("1").lt(fixed("1.000000000001")));
    assert!(fixed("1").le(fixed("1")));
    assert!(!fixed("1").lt(fixed("1")));
}

#[test]
fn fixed_numbers_stop_at_the_limit() {
    let top = Fixed::infinity();
    assert_eq!(text(top), "1000000000000000000000000");
    assert_eq!(text(top.plus(top)), text(top));
    assert_eq!(text(top.times(top)), text(top));
    assert_eq!(text(fixed("1").over(fixed("0"))), text(top));
    assert_eq!(text(fixed("-1").over(fixed("0"))), "-1000000000000000000000000");
    assert_eq!(text(fixed("0").over(fixed("0"))), "0");
    assert_eq!(text(fixed("99999999999999999999999999999999999999999")), text(top));
    assert_eq!(text(top.over(fixed("0.5"))), text(top));
}

#[test]
fn fixed_numbers_are_written_and_read() {
    assert_eq!(fixed("3.14159").to_fixed(2), "3.14");
    assert_eq!(fixed("2.675").to_fixed(2), "2.68");
    assert_eq!(fixed("-0.004").to_fixed(2), "-0.00");
    assert_eq!(fixed("9.99").to_fixed(1), "10.0");
    assert_eq!(fixed("7.5").to_fixed(0), "8");
    assert_eq!(fixed("1.25").to_fixed(14), "1.25000000000000");
    assert_eq!(text(fixed("+12.")), "12");
    assert_eq!(text(fixed("-.5")), "-0.5");
    assert_eq!(text(fixed("0.1234567890129")), "0.123456789012");
    assert!(Fixed::parse("").is_none());
    assert!(Fixed::parse(".").is_none());
    assert!(Fixed::parse("-").is_none());
    assert!(Fixed::parse("1.2.3").is_none());
    assert!(Fixed::parse("1.x").is_none());
    assert_eq!(text(Fixed::decimal(-15, 1)), "-1.5");
    assert_eq!(text(Fixed::decimal(123, 13)), "0.000000000012");
    assert_eq!(text(Fixed::decimal(5, 40)), "0");
    assert_eq!(text(Fixed::from_count(u64::MAX)), "18446744073709551615");
}

#[test]
fn fixed_numbers_may_have_an_exponent() {
    assert_eq!(text(fixed("1e3")), "1000");
    assert_eq!(text(fixed("1e-7")), "0.0000001");
    assert_eq!(text(fixed("1E+2")), "100");
    assert_eq!(text(fixed("-12.5e1")), "-125");
    assert_eq!(text(fixed("12.5e-1")), "1.25");
    assert_eq!(text(fixed("123e-14")), "0.000000000001");
    assert_eq!(text(fixed(".5e1")), "5");
    assert_eq!(text(fixed("1e999")), text(Fixed::infinity()));
    assert_eq!(text(fixed("1e-999")), "0");
    assert_eq!(text(fixed("0e99999999999999999999999999999999999999999999")), "0");
    assert_eq!(text(fixed("7e-99999999999999999999999999999999999999999999")), "0");
    assert!(Fixed::parse("1e").is_none());
    assert!(Fixed::parse("1e+").is_none());
    assert!(Fixed::parse("e1").is_none());
    assert!(Fixed::parse("1e2e3").is_none());
    assert!(Fixed::parse("1e2.5").is_none());
}

#[test]
fn labels_are_hashed() {
    assert_eq!(label_hash(""), 0xcbf29ce484222325);
    assert_eq!(label_hash("a"), 0xaf63dc4c8601ec8c);
    assert_eq!(label_hash("foobar"), 0x85944171f73967e8);
}

#[test]
fn lists_are_split() {
    assert_eq!(split_csv(" a, b ,,c d,"), vec!["a", "b", "c d"]);
    assert!(split_csv(" , ").is_empty());
    assert!(split_csv("").is_empty());
    assert_eq!(parse_counts("50, 100,300"), Ok(vec![50, 100, 300]));
    assert_eq!(parse_counts(""), Ok(vec![]));
    assert_eq!(parse_counts("1,x2,-3"), Err("不正な n_agents: x2".to_string()));
    assert_eq!(parse_count("+007"), Some(7));
    assert_eq!(parse_count("+"), None);
    assert_eq!(parse_count(""), None);
    assert_eq!(parse_count("-1"), None);
    assert_eq!(parse_count(&usize::MAX.to_string()), Some(usize::MAX));
    assert_eq!(parse_count("99999999999999999999999999"), None);
}

#[test]
fn scales_are_stepped() {
    let scales = |lo: &str, hi: &str, step: &str| {
        tax_scale_range(fixed(lo), fixed(hi), fixed(step)).into_iter().map(text).collect::<Vec<_>>()
    };
    assert_eq!(scales("0.5", "1.5", "0.5"), vec!["0.5", "1", "1.5"]);
    assert_eq!(scales("0.5", "1.4", "0.5"), vec!["0.5", "1"]);
    assert_eq!(scales("0.1", "0.3", "0.1"), vec!["0.1", "0.2", "0.3"]);
    assert_eq!(scales("1", "1", "0.5"), vec!["1"]);
    assert_eq!(scales("1", "0", "0.5"), vec!["1"]);
    assert_eq!(scales("1", "2", "0"), vec!["1"]);
    assert_eq!(scales("0", "0.0000010", "0.0000004"), vec!["0", "0", "0.000001"]);
}

#[test]
fn sweeps_cover_every_combination() {
    let models = vec!["m1".to_string(), "m2".to_string()];
    let plan = sweep_plan(&[5, 7], &[fixed("0.5"), fixed("1")], &models, 3);
    assert_eq!(plan.len(), 2 * 2 * 2 * 3);
    let cell = &plan[4];
    assert_eq!((cell.n_agents, cell.llm_model.as_str(), cell.run), (5, "m2", 1));
    assert_eq!(text(cell.tax_scale), "0.5");
    assert_eq!(cell.seed_labels, vec![5, label_hash("0.5"), label_hash("m2"), 1]);
    let last = &plan[23];
    assert_eq!((last.n_agents, last.llm_model.as_str(), last.run), (7, "m2", 2));
    assert_eq!(text(last.tax_scale), "1");
    assert!(sweep_plan(&[5], &[fixed("1")], &models, 0).is_empty());
}

#[test]
fn runs_are_summed_up() {
    let rows = vec![
        row(0, "0.9", "0.9", "10", "0.1"),
        row(36, "0.1", "0.02", "20", "0.2"),
        row(37, "0.3", "0.04", "30", "0.3"),
    ];
    let d = digest(&rows);
    assert_eq!((text(d.inflation), text(d.unemployment)), ("0.03".to_string(), "0.2".to_string()));
    assert_eq!((text(d.gdp), text(d.gini)), ("30".to_string(), "0.3".to_string()));
    let none = digest::<Fixed>(&[]);
    assert_eq!((text(none.gdp), text(none.inflation)), ("0".to_string(), "0".to_string()));
    let r = summarize(&result(rows), 9, fixed("1.5"), "m", PolicyRegime::Proportional, 2, 77);
    assert_eq!((r.n_agents, r.run, r.seed, r.final_month), (9, 2, 77, 3));
    assert_eq!((r.llm_model.as_str(), r.regime.as_str()), ("m", "proportional"));
    assert_eq!((text(r.mean_work_propensity), text(r.mean_consume_propensity)), ("0.5".to_string(), "0.25".to_string()));
    assert_eq!(text(r.cache_hit_rate), "0.25");
    let other = summarize(&result(vec![row(0, "0", "0", "1", "0.5")]), 9, fixed("1.5"), "m", PolicyRegime::Proportional, 3, 78);
    let all = vec![r, other];
    let at = summarize_scale(&all, fixed("1.5")).unwrap();
    assert_eq!((text(at.gini), text(at.unemployment)), ("0.4".to_string(), "0.1".to_string()));
    assert!(summarize_scale(&all, fixed("1")).is_none());
}

fn sample(regime: PolicyRegime) -> ReproduceScenario<Fixed> {
    let rows = vec![
        row(0, "0.1", "0.3", "30", "0.1"),
        row(1, "0.2", "0.2", "20", "0.2"),
        row(2, "0.15", "0.3", "24", "0.3"),
        row(3, "0.1", "0.25", "30", "0.3"),
    ];
    scenario(regime, &result(rows))
}

#[test]
fn experiments_are_held_against_expectations() {
    assert_eq!(reproduce_months(true, 240), 60);
    assert_eq!(reproduce_months(false, 240), 240);
    assert_eq!(
        scenario_regimes(),
        vec![PolicyRegime::Progressive, PolicyRegime::Proportional, PolicyRegime::NoTax]
    );
    assert_eq!(scenario_seed_labels(PolicyRegime::NoTax), vec![label_hash("none")]);
    let base = sample(PolicyRegime::Progressive);
    assert_eq!((base.name.as_str(), base.results_subdir.as_str()), ("progressive", "progressive"));
    assert_eq!((text(base.final_gdp), base.final_month), ("30".to_string(), 4));
    let found = anchors(&base);
    assert!(found.iter().all(|a| a.pass));
    assert_eq!(found[0].name, "Phillips curve: corr(unemployment, inflation) < 0");
    assert_eq!((text(found[1].target_lo), text(found[1].target_hi)), ("-1".to_string(), "0".to_string()));
    assert_eq!((text(found[3].target_lo), text(found[3].target_hi)), ("0".to_string(), "0.3".to_string()));

    let mut flat = sample(PolicyRegime::Progressive);
    flat.phillips_r = None;
    flat.okun_r = Some(fixed("0"));
    flat.mean_unemployment_3y = fixed("0.31");
    let off = anchors(&flat);
    assert_eq!(off.iter().map(|a| a.pass).collect::<Vec<_>>(), vec![false, false, true, false]);

    let mut faint = sample(PolicyRegime::Progressive);
    faint.phillips_r = Some(fixed("-0.0000005"));
    faint.okun_r = Some(fixed("-1"));
    assert!(anchors(&faint).iter().all(|a| a.pass));

    let scenarios = vec![sample(PolicyRegime::NoTax), flat, sample(PolicyRegime::Progressive)];
    let summary = reproduce_summary(true, false, 240, 3, scenarios).unwrap();
    assert_eq!((summary.n_pass, summary.n_anchors), (1, 4));
    assert_eq!((summary.command, summary.mock, summary.quick), ("reproduce", true, false));
    assert_eq!(summary.scenarios.len(), 3);
    assert!(reproduce_summary(true, false, 240, 3, vec![sample(PolicyRegime::NoTax)]).is_none());
}
