//! The headline experiment: the three regimes side by side, and whether the correlations of the
//! Phillips curve and of Okun's law come out negative.

use vstd::prelude::*;

use crate::config::PolicyRegime;
use crate::metrics::{okun_correlation, okun_of, phillips_correlation, phillips_of};
use crate::number::Number;
use crate::simulation::SimulationResult;
use crate::sweep::{
    digest, fnv, label_hash, last_gdp, last_gini, settled_inflation, settled_unemployment,
};
use crate::text::same_text;

verus! {

/// The months of the short experiment.
pub const QUICK_MONTHS: usize = 60;

/// The months to run.
pub fn reproduce_months(quick: bool, months: usize) -> (r: usize)
    ensures
        r == (if quick {
            QUICK_MONTHS
        } else {
            months
        }),
{
    if quick {
        QUICK_MONTHS
    } else {
        months
    }
}

/// The regimes that are compared, the standard one first.
pub fn scenario_regimes() -> (r: Vec<PolicyRegime>)
    ensures
        r@ == seq![PolicyRegime::Progressive, PolicyRegime::Proportional, PolicyRegime::NoTax],
{
    let r: Vec<PolicyRegime> = vec![
        PolicyRegime::Progressive,
        PolicyRegime::Proportional,
        PolicyRegime::NoTax,
    ];
    assert(r@ =~= seq![
        PolicyRegime::Progressive,
        PolicyRegime::Proportional,
        PolicyRegime::NoTax,
    ]);
    r
}

/// What the seed of the run under a regime is derived from, besides the seed of the experiment.
pub fn scenario_seed_labels(regime: PolicyRegime) -> (r: Vec<u64>)
    ensures
        r@ == seq![fnv(vstd::utf8::encode_utf8(regime.name()))],
{
    let r: Vec<u64> = vec![label_hash(regime.label())];
    assert(r@ =~= seq![fnv(vstd::utf8::encode_utf8(regime.name()))]);
    r
}

/// What the run under one regime came to.
pub struct ReproduceScenario<R> {
    pub name: String,
    pub regime: String,
    /// Mean inflation of the settled months.
    pub mean_inflation_3y: R,
    /// Mean unemployment of the settled months.
    pub mean_unemployment_3y: R,
    pub final_gdp: R,
    pub final_gini: R,
    /// Correlation of unemployment and inflation.
    pub phillips_r: Option<R>,
    /// Correlation of the change of unemployment and the growth of output.
    pub okun_r: Option<R>,
    pub final_month: usize,
    /// Directory of the run's files.
    pub results_subdir: String,
}

/// Sums up the run under a regime.
pub fn scenario<R: Number>(regime: PolicyRegime, result: &SimulationResult<R>) -> (r: ReproduceScenario<R>)
    ensures
        r.name@ == regime.name(),
        r.regime@ == regime.name(),
        r.mean_inflation_3y == settled_inflation(result.metrics_history@),
        r.mean_unemployment_3y == settled_unemployment(result.metrics_history@),
        r.final_gdp == last_gdp(result.metrics_history@),
        r.final_gini == last_gini(result.metrics_history@),
        r.phillips_r == phillips_of(result.metrics_history@),
        r.okun_r == okun_of(result.metrics_history@),
        r.final_month == result.final_month,
        r.results_subdir@ == regime.name(),
{
    let d = digest(&result.metrics_history);
    ReproduceScenario {
        name: regime.label().to_owned(),
        regime: regime.label().to_owned(),
        mean_inflation_3y: d.inflation,
        mean_unemployment_3y: d.unemployment,
        final_gdp: d.gdp,
        final_gini: d.gini,
        phillips_r: phillips_correlation(&result.metrics_history),
        okun_r: okun_correlation(&result.metrics_history),
        final_month: result.final_month,
        results_subdir: regime.label().to_owned(),
    }
}

/// An expectation on an observed value.
pub struct ReproduceAnchor<R> {
    pub name: &'static str,
    /// The value in the literature.
    pub paper_value: &'static str,
    /// Nothing where the value is not defined.
    pub observed: Option<R>,
    pub target_lo: R,
    pub target_hi: R,
    pub pass: bool,
}

/// Whether an observed value lies within a range; one that is not defined does not.
pub open spec fn within<R: Number>(observed: Option<R>, lo: R, hi: R) -> bool {
    match observed {
        Some(x) => lo.at_most(x) && x.at_most(hi),
        None => false,
    }
}

/// Whether an observed value is negative; one that is not defined is not.
pub open spec fn negative<R: Number>(observed: Option<R>) -> bool {
    match observed {
        Some(x) => x.below(R::lit(0, 0)),
        None => false,
    }
}

/// Holds an observed value against a range.
pub fn anchor<R: Number>(
    name: &'static str,
    paper_value: &'static str,
    observed: Option<R>,
    lo: R,
    hi: R,
) -> (r: ReproduceAnchor<R>)
    ensures
        r == (ReproduceAnchor {
            name,
            paper_value,
            observed,
            target_lo: lo,
            target_hi: hi,
            pass: within(observed, lo, hi),
        }),
{
    let pass = match observed {
        Some(x) => lo.le(x) && x.le(hi),
        None => false,
    };
    ReproduceAnchor { name, paper_value, observed, target_lo: lo, target_hi: hi, pass }
}

/// Asks of an observed correlation that it is negative: from minus one up to zero, zero excluded.
pub fn sign_anchor<R: Number>(name: &'static str, observed: Option<R>) -> (r: ReproduceAnchor<R>)
    ensures
        r.name == name,
        r.paper_value@ == "negative"@,
        r.observed == observed,
        r.target_lo == R::lit(-1, 0),
        r.target_hi == R::lit(0, 0),
        r.pass == negative(observed),
{
    let pass = match observed {
        Some(x) => x.lt(R::decimal(0, 0)),
        None => false,
    };
    ReproduceAnchor {
        name,
        paper_value: "negative",
        observed,
        target_lo: R::decimal(-1, 0),
        target_hi: R::decimal(0, 0),
        pass,
    }
}

pub const PHILLIPS_ANCHOR: &'static str = "Phillips curve: corr(unemployment, inflation) < 0";

pub const OKUN_ANCHOR: &'static str = "Okun's law: corr(Δunemployment, GDP growth) < 0";

pub const INFLATION_ANCHOR: &'static str =
    "mean inflation (3y+) bounded (offline-mock sanity, not paper level)";

pub const UNEMPLOYMENT_ANCHOR: &'static str = "mean unemployment (3y+) bounded in [0.0, 0.30]";

/// The expectations on a scenario: both correlations are negative, and inflation and unemployment
/// stay within bounds.
pub open spec fn expected<R: Number>(
    base: ReproduceScenario<R>,
    a: Seq<ReproduceAnchor<R>>,
) -> bool {
    &&& a.len() == 4
    &&& a[0].name@ == PHILLIPS_ANCHOR@
    &&& a[0].paper_value@ == "negative"@
    &&& a[0].observed == base.phillips_r
    &&& a[0].target_lo == R::lit(-1, 0)
    &&& a[0].target_hi == R::lit(0, 0)
    &&& a[0].pass == negative(base.phillips_r)
    &&& a[1].name@ == OKUN_ANCHOR@
    &&& a[1].paper_value@ == "negative"@
    &&& a[1].observed == base.okun_r
    &&& a[1].target_lo == R::lit(-1, 0)
    &&& a[1].target_hi == R::lit(0, 0)
    &&& a[1].pass == negative(base.okun_r)
    &&& a[2].name@ == INFLATION_ANCHOR@
    &&& a[2].paper_value@ == "moderate (paper ~±5%)"@
    &&& a[2].observed == Some(base.mean_inflation_3y)
    &&& a[2].target_lo == R::lit(-5, 1)
    &&& a[2].target_hi == R::lit(1, 0)
    &&& a[2].pass == within(a[2].observed, a[2].target_lo, a[2].target_hi)
    &&& a[3].name@ == UNEMPLOYMENT_ANCHOR@
    &&& a[3].paper_value@ == "0.02-0.12 (paper)"@
    &&& a[3].observed == Some(base.mean_unemployment_3y)
    &&& a[3].target_lo == R::lit(0, 0)
    &&& a[3].target_hi == R::lit(30, 2)
    &&& a[3].pass == within(a[3].observed, a[3].target_lo, a[3].target_hi)
}

/// Holds a scenario against what is expected of it.
pub fn anchors<R: Number>(base: &ReproduceScenario<R>) -> (r: Vec<ReproduceAnchor<R>>)
    ensures
        expected(*base, r@),
{
    vec![
        sign_anchor(PHILLIPS_ANCHOR, base.phillips_r),
        sign_anchor(OKUN_ANCHOR, base.okun_r),
        anchor(
            INFLATION_ANCHOR,
            "moderate (paper ~±5%)",
            Some(base.mean_inflation_3y),
            R::decimal(-5, 1),
            R::decimal(1, 0),
        ),
        anchor(
            UNEMPLOYMENT_ANCHOR,
            "0.02-0.12 (paper)",
            Some(base.mean_unemployment_3y),
            R::decimal(0, 0),
            R::decimal(30, 2),
        ),
    ]
}

/// How many expectations are met.
pub open spec fn met<R>(anchors: Seq<ReproduceAnchor<R>>) -> nat {
    anchors.filter(|a: ReproduceAnchor<R>| a.pass).len()
}

fn count_met<R: Number>(anchors: &Vec<ReproduceAnchor<R>>) -> (r: usize)
    ensures
        r == met(anchors@),
{
    let ghost passes = |a: ReproduceAnchor<R>| a.pass;
    let mut count: usize = 0;
    for i in 0..anchors.len()
        invariant
            passes == (|a: ReproduceAnchor<R>| a.pass),
            count <= i,
            count == anchors@.take(i as int).filter(passes).len(),
    {
        proof {
            reveal(Seq::filter);
            assert(anchors@.take(i + 1).drop_last() =~= anchors@.take(i as int));
        }
        if anchors[i].pass {
            count = count + 1;
        }
    }
    assert(anchors@.take(anchors.len() as int) =~= anchors@);
    count
}

pub const PAPER: &'static str =
    "Li et al. (2024) EconAgent — headline macro dynamics: Phillips curve (inflation vs \
     unemployment, negative) and Okun's law (GDP growth vs unemployment change, negative)";

/// What the experiment came to.
pub struct ReproduceSummary<R> {
    pub command: &'static str,
    pub paper: &'static str,
    pub mock: bool,
    pub quick: bool,
    pub months: usize,
    pub n_agents: usize,
    pub scenarios: Vec<ReproduceScenario<R>>,
    pub anchors: Vec<ReproduceAnchor<R>>,
    pub n_pass: usize,
    pub n_anchors: usize,
}

/// Whether a scenario is the one that the expectations are on.
pub open spec fn is_headline<R>(s: ReproduceScenario<R>) -> bool {
    s.regime@ == "progressive"@
}

/// Sums up the experiment: holds its first scenario under the progressive regime against what is
/// expected of it. There is nothing to sum up without such a scenario.
pub fn reproduce_summary<R: Number>(
    mock: bool,
    quick: bool,
    months: usize,
    n_agents: usize,
    scenarios: Vec<ReproduceScenario<R>>,
) -> (r: Option<ReproduceSummary<R>>)
    ensures
        match r {
            Some(s) => {
                &&& s.command@ == "reproduce"@
                &&& s.paper@ == PAPER@
                &&& s.mock == mock
                &&& s.quick == quick
                &&& s.months == months
                &&& s.n_agents == n_agents
                &&& s.scenarios == scenarios
                &&& exists|k: int|
                    {
                        &&& 0 <= k < scenarios.len()
                        &&& is_headline(#[trigger] scenarios[k])
                        &&& forall|j: int| 0 <= j < k ==> !is_headline(#[trigger] scenarios[j])
                        &&& expected(scenarios[k], s.anchors@)
                    }
                &&& s.n_pass == met(s.anchors@)
                &&& s.n_anchors == s.anchors.len()
            },
            None => forall|j: int| 0 <= j < scenarios.len() ==> !is_headline(#[trigger] scenarios[j]),
        },
{
    let mut k: usize = 0;
    while k < scenarios.len() && !same_text(scenarios[k].regime.as_str(), "progressive")
        invariant
            k <= scenarios.len(),
            forall|j: int| 0 <= j < k ==> !is_headline(#[trigger] scenarios[j]),
        decreases scenarios.len() - k,
    {
        k = k + 1;
    }
    if k == scenarios.len() {
        return None;
    }
    let found = anchors(&scenarios[k]);
    assert(is_headline(scenarios[k as int]));
    let n_pass = count_met(&found);
    let n_anchors: usize = found.len();
    Some(
        ReproduceSummary {
            command: "reproduce",
            paper: PAPER,
            mock,
            quick,
            months,
            n_agents,
            scenarios,
            anchors: found,
            n_pass,
            n_anchors,
        },
    )
}

} // verus!
