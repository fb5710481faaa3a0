use econagent_simulation::config::{Config, PolicyRegime};
use econagent_simulation::fixed::Fixed;
use econagent_simulation::mechanisms::{
    progressive_tax, FiscalRewardMechanism, LlmDecisionMechanism, MarketClearingMechanism,
};
use econagent_simulation::metrics::{
    gini, mean, okun_correlation, pearson, phillips_correlation, MacroMetrics,
};
use econagent_simulation::mock::mock_reply;
use econagent_simulation::number::{sum, Number};
use econagent_simulation::prompts::{decision_prompt, extract_floats, parse_decision};
use econagent_simulation::sampling::{Draw, Drawn, Sampling};
use econagent_simulation::simulation::init_world;
use econagent_simulation::sweep::tax_scale_range;
use econagent_simulation::world::{snap_probability, EconWorld, Household};

fn fixed(text: &str) -> Fixed {
    Fixed::parse(text).unwrap()
}

fn all(texts: &[&str]) -> Vec<Fixed> {
    texts.iter().map(|t| fixed(t)).collect()
}

fn row(month: usize, u: Fixed, infl: Fixed, gdp: Fixed) -> MacroMetrics<Fixed> {
    let zero = fixed("0");
    MacroMetrics {
        month,
        year: month / 12,
        nominal_gdp: gdp,
        price: fixed("1"),
        interest_rate: zero,
        unemployment_rate: u,
        inflation_rate: infl,
        gini_savings: zero,
        avg_work_propensity: zero,
        avg_consume_propensity: zero,
        redistribution: zero,
    }
}

fn world(wages: &[&str]) -> EconWorld<Fixed> {
    let cfg = Config {
        n_agents: wages.len(),
        regime: PolicyRegime::Progressive,
        ..Config::default()
    };
    init_world(&cfg, &wages.iter().map(|w| (fixed(w), 30)).collect())
}

/// Whether a number lies within a billionth of another.
fn is_close(x: Fixed, y: &str) -> bool {
    x.minus(fixed(y)).abs().lt(fixed("0.000000001"))
}

#[test]
fn linear_series_correlate_fully() {
    let mut m = Vec::new();
    for k in 0..48 {
        let step = Fixed::from_count(k as u64);
        m.push(row(
            k,
            fixed("0.02").plus(fixed("0.001").times(step)),
            fixed("0.05").minus(fixed("0.0008").times(step)),
            fixed("1000").minus(fixed("2").times(step)),
        ));
    }
    let r = phillips_correlation(&m).unwrap();
    assert!(is_close(r, "-1") && fixed("-1").le(r));
}

#[test]
fn alternating_series_correlate_fully() {
    let mut m = Vec::new();
    let mut gdp = fixed("1000");
    let mut u = fixed("0.05");
    for k in 0..40 {
        let up = k % 2 == 0;
        u = u.plus(fixed(if up { "0.01" } else { "-0.01" }));
        gdp = gdp.times(fixed(if up { "0.97" } else { "1.03" }));
        m.push(row(k, u, fixed("0"), gdp));
    }
    let r = okun_correlation(&m).unwrap();
    assert!(is_close(r, "-1") && fixed("-1").le(r));
}

#[test]
fn correlations_are_bounded_and_symmetric() {
    let r = pearson(&all(&["0.001", "0.002"]), &all(&["0.002", "0.001"])).unwrap();
    assert_eq!(r.to_text(), "-1");
    let x = all(&["1", "2", "4", "3"]);
    let y = all(&["2", "1", "9", "-3"]);
    let r = pearson(&x, &y).unwrap();
    assert_eq!(pearson(&y, &x).unwrap().to_text(), r.to_text());
    assert!(fixed("-1").le(r) && r.le(fixed("1")) && fixed("0").lt(r));
    let flipped: Vec<Fixed> = x.iter().map(|v| fixed("0").minus(*v)).collect();
    assert_eq!(pearson(&flipped, &y).unwrap().to_text(), fixed("0").minus(r).to_text());
    let scaled: Vec<Fixed> = x.iter().map(|v| v.times(fixed("1000"))).collect();
    assert!(fixed("0").lt(pearson(&scaled, &y).unwrap()));
}

#[test]
fn correlations_depend_on_the_pairs_alone() {
    let x = all(&["0.1", "-0.35", "0.72", "0.333333333333", "0.0005"]);
    let y = all(&["1.5", "2.25", "-0.125", "0.77", "1"]);
    let r = pearson(&x, &y).unwrap();
    assert_eq!(pearson(&x, &x).unwrap().to_text(), "1");
    assert_eq!(pearson(&y, &y).unwrap().to_text(), "1");
    let order = [3, 0, 4, 2, 1];
    let other: Vec<Fixed> = order.iter().map(|i| x[*i]).collect();
    let along: Vec<Fixed> = order.iter().map(|i| y[*i]).collect();
    assert_eq!(pearson(&other, &along).unwrap().to_text(), r.to_text());
    for (factor, gain) in [("1", "-10"), ("3.7", "2.25"), ("10", "10")] {
        let w: Vec<Fixed> = x.iter().map(|v| fixed(factor).times(*v).plus(fixed(gain))).collect();
        assert!(pearson(&w, &y).unwrap().minus(r).abs().lt(fixed("0.00001")));
    }
    assert!(pearson(&all(&["2", "2", "2"]), &all(&["1", "2", "3"])).is_none());
    assert!(pearson(&all(&["1", "2", "3"]), &all(&["2", "2", "2"])).is_none());
}

#[test]
fn production_is_counted_in_hours() {
    let mut w = world(&["10", "20", "30"]);
    for id in 0..3 {
        let p = fixed(if id < 2 { "1" } else { "0" });
        LlmDecisionMechanism.decide(&mut w, id, p, fixed("0.5"), fixed("0.5"));
    }
    w.env.inventory = fixed("7");
    w.env.productivity = fixed("1.000000000001");
    MarketClearingMechanism.produce(&mut w);
    assert_eq!(w.env.inventory.to_text(), "343.000000000336");
}

#[test]
fn taxes_are_handed_back() {
    let wages = ["10", "77.7", "333.333333333333"];
    let mut w = world(&wages);
    for id in 0..3 {
        LlmDecisionMechanism.decide(&mut w, id, fixed("1"), fixed("0.3"), fixed("0"));
        w.households.get_mut(&id).unwrap().savings = fixed("1000.000000000001");
    }
    let households = |w: &EconWorld<Fixed>| -> Vec<Household<Fixed>> {
        w.agent_ids().into_iter().map(|id| w.household(id).unwrap().clone()).collect()
    };
    let before = households(&w);
    FiscalRewardMechanism::new().apply(&mut w);
    let after = households(&w);
    let total = |v: Vec<Fixed>| sum(&v);
    let savings = total(before.iter().map(|h| h.savings).collect());
    let incomes = total(before.iter().map(|h| h.pretax_income()).collect());
    let spent = total(after.iter().map(|h| h.last_consumption).collect());
    let taxes = total(after.iter().map(|h| h.last_tax).collect());
    let left = taxes.minus(w.env.redistribution.times(fixed("3")));
    assert!(fixed("0").le(left) && left.lt(fixed("0.000000000003")));
    assert_eq!(
        total(after.iter().map(|h| h.savings).collect()).to_text(),
        savings.minus(spent).plus(incomes).minus(left).to_text()
    );
}

#[test]
fn taxes_have_no_jumps() {
    let cfg = Config { regime: PolicyRegime::Progressive, ..Config::<Fixed>::default() };
    let (brackets, rates) = cfg.tax_schedule();
    let most = rates[rates.len() - 1];
    let slack = fixed("0.000000000007");
    for border in &brackets[1..brackets.len() - 1] {
        for gap in ["0.000000000001", "0.5", "1000"] {
            let below = progressive_tax(border.minus(fixed(gap)), &brackets, &rates);
            let above = progressive_tax(border.plus(fixed(gap)), &brackets, &rates);
            let growth = above.minus(below);
            assert!(growth.minus(slack).le(most.times(fixed(gap).times(fixed("2")))));
        }
    }
}

#[test]
fn equal_rates_tax_all_alike() {
    let brackets = all(&["0", "100", "1000", "1000000000000"]);
    let rates = all(&["0.25", "0.25", "0.25"]);
    for income in ["0", "8", "100", "100.4", "5000.000000000004"] {
        let z = fixed(income);
        let tax = progressive_tax(z, &brackets, &rates);
        assert_eq!(tax.to_text(), z.over(fixed("4")).to_text());
    }
}

#[test]
fn gini_measures_inequality_alone() {
    let v = all(&["3", "1", "0", "8.5"]);
    let g = gini(&v);
    assert_eq!(g.to_text(), "0.55");
    assert_eq!(gini(&all(&["8.5", "0", "3", "1"])).to_text(), g.to_text());
    let scaled: Vec<Fixed> = v.iter().map(|x| x.times(fixed("0.001"))).collect();
    assert_eq!(gini(&scaled).to_text(), g.to_text());
    let raised: Vec<Fixed> = v.iter().map(|x| x.plus(fixed("2"))).collect();
    assert!(gini(&raised).lt(g));
    assert_eq!(gini(&all(&["7.7", "7.7", "7.7"])).to_text(), "0");
    assert_eq!(gini(&all(&["0", "0", "7.7"])).to_text(), "0.666666666666");
    assert_eq!(gini(&all(&["0", "0", "0", "0.000000000001"])).to_text(), "0.75");
}

#[test]
fn decisions_are_fiftieths() {
    let step = fixed("0.02");
    for reply in ["", "0.8", "1e9 and -4", "{\"work\": 0.3333, \"consume\": \"7e-1\"}", "0.11. 0.09."] {
        let (w, c) = parse_decision::<Fixed>(reply);
        for p in [w, c] {
            let k = p.over(step);
            assert_eq!(k.round().to_text(), k.to_text());
            assert!(fixed("0").le(k) && k.le(fixed("50")));
        }
    }
    let (w, c) = parse_decision::<Fixed>("{\"work\": 1e-7, \"consume\": 0.4}");
    assert_eq!((w.to_text(), c.to_text()), ("0".to_string(), "0.4".to_string()));
}

#[test]
fn snapping_keeps_order() {
    let values = all(&["-3", "0", "0.0099", "0.01", "0.4", "0.409", "0.41", "0.99", "2"]);
    let snapped: Vec<Fixed> = values.iter().map(|p| snap_probability(*p)).collect();
    assert!(snapped.windows(2).all(|p| p[0].le(p[1])));
}

#[test]
fn written_numbers_are_read_back() {
    for t in ["0", "-0.5", "12.345678901234", "1000000000000000000000000", "-0.000000000001", "20"] {
        let x = fixed(t);
        assert_eq!(fixed(&x.to_text()).to_text(), x.to_text());
    }
    assert_eq!(fixed(&fixed("2.71828").to_fixed(3)).to_text(), "2.718");
    assert_eq!(fixed(&fixed("-2.71850").to_fixed(3)).to_text(), "-2.719");
    assert_eq!(fixed(&fixed("-0.0004").to_fixed(3)).to_text(), "0");
    assert_eq!(fixed(&fixed("99.5").to_fixed(0)).to_text(), "100");
}

#[test]
fn the_mock_follows_the_economy() {
    let w = world(&["10"]);
    let h = Household::new(fixed("10"), 20, fixed("5"));
    let answer = |u: &str, pi: &str| {
        mock_reply::<Fixed>(&decision_prompt(&h, &w.env, fixed(u), fixed(pi)))
    };
    let mut before = extract_floats::<Fixed>(&answer("0", "-0.2"));
    assert_eq!(before.len(), 2);
    for (u, pi) in [("0", "0"), ("0.07", "0"), ("0.07", "0.1"), ("0.5", "0.3"), ("1", "0.3")] {
        let text = answer(u, pi);
        let numbers = extract_floats::<Fixed>(&text);
        assert_eq!(numbers.len(), 2);
        assert!(before[0].le(numbers[0]) && numbers[1].le(before[1]));
        let (work, consume) = parse_decision::<Fixed>(&text);
        assert_eq!(work.to_text(), snap_probability(numbers[0]).to_text());
        assert_eq!(consume.to_text(), snap_probability(numbers[1]).to_text());
        before = numbers;
    }
}

#[test]
fn scales_lie_in_their_range() {
    for (lo, hi, step) in [("0.5", "1.4", "0.5"), ("0", "1", "0.3"), ("0.1", "0.3", "0.1")] {
        let scales = tax_scale_range(fixed(lo), fixed(hi), fixed(step));
        assert!(scales.iter().all(|s| fixed(lo).le(*s) && s.le(fixed(hi))));
    }
}

#[test]
fn smaller_economies_come_first() {
    let small = world(&["10", "20"]);
    let large = world(&["10", "20", "30"]);
    assert_eq!(small.agent_ids(), vec![0, 1]);
    for id in small.agent_ids() {
        let (a, b) = (small.household(id).unwrap(), large.household(id).unwrap());
        assert_eq!((a.wage.to_text(), a.age), (b.wage.to_text(), b.age));
        assert_eq!(a.savings.to_text(), b.savings.to_text());
    }
}

#[test]
fn amounts_add_up_exactly() {
    let v = all(&["0.1", "0.2", "0.000000000001"]);
    assert_eq!(sum(&v).to_text(), "0.300000000001");
    assert_eq!(mean(&v[..2]).to_text(), "0.15");
}

#[test]
fn households_are_drawn_one_after_another() {
    let cfg = Config { n_agents: 2, ..Config::<Fixed>::default() };
    let mut sampling = Sampling::new(&cfg);
    for (power, place, age) in [("0.5", "0.6", Some(50)), ("0.25", "1.5", None)] {
        match sampling.next_draw() {
            Draw::Power { least, exponent } => {
                assert_eq!(least.to_text(), "0.000000001");
                assert_eq!(exponent.to_text(), "0.666666666666");
            }
            _ => panic!("a wage is drawn first"),
        }
        assert!(!sampling.take(Drawn::Age { age: 30 }));
        assert!(sampling.take(Drawn::Value { value: fixed(power) }));
        match sampling.next_draw() {
            Draw::Below { bound } => assert_eq!(bound.to_text(), "1"),
            _ => panic!("an age band is drawn second"),
        }
        assert!(sampling.take(Drawn::Value { value: fixed(place) }));
        if let Some(age) = age {
            assert!(matches!(sampling.next_draw(), Draw::Age { youngest: 45, oldest: 59 }));
            assert!(!sampling.take(Drawn::Age { age: 60 }));
            assert!(sampling.take(Drawn::Age { age }));
        }
    }
    assert!(matches!(sampling.next_draw(), Draw::Done));
    assert!(!sampling.take(Drawn::Value { value: fixed("0.5") }));
    let sampled = sampling.finish().unwrap();
    let texts: Vec<(String, u32)> = sampled.iter().map(|(w, a)| (w.to_text(), *a)).collect();
    assert_eq!(texts, vec![("20".to_string(), 50), ("40".to_string(), 79)]);
    assert!(Sampling::new(&cfg).finish().is_none());
}

#[test]
fn the_mock_answers_bare_requests() {
    assert_eq!(
        mock_reply::<Fixed>("Answer with JSON only"),
        "{\"work\": 0.8200, \"consume\": 0.2500}"
    );
    assert_eq!(mock_reply::<Fixed>(""), mock_reply::<Fixed>("Unemployment rate: 0.5"));
}
