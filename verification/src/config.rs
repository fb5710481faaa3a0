//! The settings of a run: fiscal regime, tax schedule, policy parameters and model settings.

use vstd::prelude::*;

use crate::number::{clamp, clamped, Number};
use crate::text::{chars_of, lower, lower_char, lowered, same_chars, trim, trimmed};

verus! {

/// How income is taxed. All revenue is redistributed in equal parts.
#[derive(Debug, Clone, Copy, PartialEq, Eq, Structural)]
pub enum PolicyRegime {
    /// The brackets and rates of the federal income tax of the United States in 2018.
    Progressive,
    /// One rate for all income.
    Proportional,
    /// No tax, and so no redistribution.
    NoTax,
}

impl PolicyRegime {
    /// The name of a regime.
    pub open spec fn name(self) -> Seq<char> {
        match self {
            PolicyRegime::Progressive => "progressive"@,
            PolicyRegime::Proportional => "proportional"@,
            PolicyRegime::NoTax => "none"@,
        }
    }

    pub fn label(&self) -> (r: &'static str)
        ensures
            r@ == self.name(),
    {
        match self {
            PolicyRegime::Progressive => "progressive",
            PolicyRegime::Proportional => "proportional",
            PolicyRegime::NoTax => "none",
        }
    }
}

/// The regime that a text names, in any case and with white space around it or not.
pub open spec fn regime_named(s: Seq<char>) -> Option<PolicyRegime> {
    let name = lowered(trimmed(s));
    if name == "progressive"@ || name == "prog"@ {
        Some(PolicyRegime::Progressive)
    } else if name == "proportional"@ || name == "flat"@ || name == "prop"@ {
        Some(PolicyRegime::Proportional)
    } else if name == "none"@ || name == "off"@ {
        Some(PolicyRegime::NoTax)
    } else {
        None
    }
}

/// What is said of a text that names no regime.
pub open spec fn unknown_regime(s: Seq<char>) -> Seq<char> {
    "不正な政策レジーム: \""@ + s + "\" (progressive / proportional / none)"@
}

fn spells(name: &Vec<char>, word: &str) -> (r: bool)
    ensures
        r == (name@ == word@),
{
    same_chars(name, &chars_of(word))
}

pub fn parse_regime(s: &str) -> (r: Result<PolicyRegime, String>)
    ensures
        match r {
            Ok(regime) => regime_named(s@) == Some(regime),
            Err(message) => regime_named(s@) is None && message@ == unknown_regime(s@),
        },
{
    let word = chars_of(trim(s));
    let mut name: Vec<char> = Vec::new();
    for i in 0..word.len()
        invariant
            name@ == lowered(word@).take(i as int),
    {
        name.push(lower(word[i]));
        assert(name@ =~= lowered(word@).take(i + 1));
    }
    assert(name@ =~= lowered(trimmed(s@)));
    if spells(&name, "progressive") || spells(&name, "prog") {
        Ok(PolicyRegime::Progressive)
    } else if spells(&name, "proportional") || spells(&name, "flat") || spells(&name, "prop") {
        Ok(PolicyRegime::Proportional)
    } else if spells(&name, "none") || spells(&name, "off") {
        Ok(PolicyRegime::NoTax)
    } else {
        let mut message = "不正な政策レジーム: \"".to_owned();
        message.append(s);
        message.append("\" (progressive / proportional / none)");
        Err(message)
    }
}

/// Every regime is read back from its own name.
pub proof fn law_regime_names_are_read_back(regime: PolicyRegime)
    ensures
        regime_named(regime.name()) == Some(regime),
{
    reveal_strlit("progressive");
    reveal_strlit("proportional");
    reveal_strlit("none");
    reveal_strlit("prog");
    reveal_strlit("prop");
    reveal_strlit("flat");
    reveal_strlit("off");
    let name = regime.name();
    assert(trimmed(name) == name);
    assert(lowered(name) =~= name);
}

/// A regime is named the same way in small and in capital letters.
pub proof fn law_regime_names_ignore_case(s: Seq<char>, t: Seq<char>)
    requires
        lowered(s) == lowered(t),
    ensures
        regime_named(s) == regime_named(t),
{
    lemma_trim_commutes_with_case(s);
    lemma_trim_commutes_with_case(t);
}

/// A regime is named by one of its names, in capitals or not, with white space around it or not, and
/// by nothing else.
pub proof fn law_regimes_have_names(s: Seq<char>)
    ensures
        regime_named(s) == regime_named(trimmed(s)),
        regime_named(s) == Some(PolicyRegime::Progressive) <==> {
            ||| lowered(trimmed(s)) == "progressive"@
            ||| lowered(trimmed(s)) == "prog"@
        },
        regime_named(s) == Some(PolicyRegime::Proportional) <==> {
            ||| lowered(trimmed(s)) == "proportional"@
            ||| lowered(trimmed(s)) == "flat"@
            ||| lowered(trimmed(s)) == "prop"@
        },
        regime_named(s) == Some(PolicyRegime::NoTax) <==> {
            ||| lowered(trimmed(s)) == "none"@
            ||| lowered(trimmed(s)) == "off"@
        },
{
    reveal_strlit("progressive");
    reveal_strlit("proportional");
    reveal_strlit("none");
    reveal_strlit("prog");
    reveal_strlit("prop");
    reveal_strlit("flat");
    reveal_strlit("off");
    crate::sweep::lemma_trimmed_part(s);
    assert("proportional"@[2] != "progressive"@[2] || "proportional"@.len() != "progressive"@.len());
    assert("prog"@[3] != "prop"@[3]);
    assert("prog"@[0] != "flat"@[0] && "none"@[0] != "prog"@[0]);
    assert("prop"@[0] != "none"@[0] && "flat"@[0] != "none"@[0]);
}

proof fn lemma_trim_commutes_with_case(s: Seq<char>)
    ensures
        lowered(trimmed(s)) == trimmed(lowered(s)),
    decreases s.len(),
{
    if s.len() > 0 {
        lemma_trim_commutes_with_case(s.drop_first());
        lemma_trim_commutes_with_case(s.drop_last());
        assert(lowered(s).drop_first() =~= lowered(s.drop_first()));
        assert(lowered(s).drop_last() =~= lowered(s.drop_last()));
        assert(lowered(s)[0] == lower_char(s[0]));
        assert(lowered(s).last() == lower_char(s.last()));
    } else {
        assert(lowered(s) =~= s);
    }
}

/// The borders of the 2018 brackets, in dollars a year.
pub open spec fn us2018_brackets<R: Number>() -> Seq<R> {
    seq![
        R::lit(0, 0),
        R::lit(9_700, 0),
        R::lit(39_475, 0),
        R::lit(84_200, 0),
        R::lit(160_725, 0),
        R::lit(204_100, 0),
        R::lit(510_300, 0),
    ]
}

/// The marginal rates of the 2018 brackets.
pub open spec fn us2018_rates<R: Number>() -> Seq<R> {
    seq![
        R::lit(10, 2),
        R::lit(12, 2),
        R::lit(22, 2),
        R::lit(24, 2),
        R::lit(32, 2),
        R::lit(35, 2),
        R::lit(37, 2),
    ]
}

/// A rate with a scale applied to it, as a rate again.
pub open spec fn scaled_rate<R: Number>(rate: R, tax_scale: R) -> R {
    clamped(rate.mul(tax_scale), R::lit(0, 0), R::lit(1, 0))
}

/// The bracket borders and the marginal rates of a regime, its base rates scaled. The last bracket
/// has no upper limit, so there is one border more than there are rates.
pub open spec fn schedule_of<R: Number>(regime: PolicyRegime, tax_scale: R) -> (Seq<R>, Seq<R>) {
    match regime {
        PolicyRegime::Progressive => (
            us2018_brackets::<R>().push(R::top()),
            us2018_rates::<R>().map_values(|rate: R| scaled_rate(rate, tax_scale)),
        ),
        PolicyRegime::Proportional => (
            seq![R::lit(0, 0), R::top()],
            seq![scaled_rate(R::lit(22, 2), tax_scale)],
        ),
        PolicyRegime::NoTax => (seq![R::lit(0, 0), R::top()], seq![R::lit(0, 0)]),
    }
}

fn scale_rate<R: Number>(percent: i64, tax_scale: R) -> (r: R)
    ensures
        r == scaled_rate(R::lit(percent as int, 2), tax_scale),
{
    clamp(R::decimal(percent, 2).times(tax_scale), R::decimal(0, 0), R::decimal(1, 0))
}

/// How the language model is called.
#[derive(Debug, Clone)]
pub struct LlmSettings<R> {
    /// Sampling temperature; zero for reproducible replies.
    pub temperature: R,
    /// Seed that is handed to the model.
    pub seed: u64,
    /// File that keeps replies between runs; nothing for a cache in memory.
    pub cache_path: Option<String>,
}

impl<R: Number> Default for LlmSettings<R> {
    fn default() -> (r: Self)
        ensures
            r.temperature == R::lit(0, 0),
            r.seed == 0,
            r.cache_path is None,
    {
        LlmSettings { temperature: R::decimal(0, 0), seed: 0, cache_path: None }
    }
}

/// The settings of one run.
#[derive(Debug, Clone)]
pub struct Config<R> {
    /// Number of households.
    pub n_agents: usize,
    /// Number of months to run.
    pub months: usize,
    /// Number of months that a household remembers.
    pub memory_length: usize,
    pub regime: PolicyRegime,
    /// Factor on the base tax rates.
    pub tax_scale: R,
    /// Goods that an employed household makes in an hour.
    pub productivity: R,
    pub init_price: R,
    /// Smallest wage of the Pareto distribution of wages.
    pub wage_min: R,
    /// Shape of the Pareto distribution; the smaller, the more unequal.
    pub wage_pareto_alpha: R,
    pub init_savings: R,
    pub natural_rate: R,
    pub target_inflation: R,
    pub natural_unemployment: R,
    /// Weight of inflation in the interest rule.
    pub alpha_pi: R,
    /// Weight of unemployment in the interest rule.
    pub alpha_u: R,
    /// Largest relative change of a wage in a month.
    pub alpha_w: R,
    /// Largest relative change of the price in a month.
    pub alpha_p: R,
    /// Seed of all random draws; nothing for a fresh one.
    pub seed: Option<u64>,
    pub llm: LlmSettings<R>,
    pub output_dir: String,
}

impl<R: Number> Default for Config<R> {
    fn default() -> (r: Self)
        ensures
            r.n_agents == 100,
            r.months == 240,
            r.memory_length == 1,
            r.regime == PolicyRegime::Progressive,
            r.tax_scale == R::lit(1, 0),
            r.productivity == R::lit(1, 0),
            r.init_price == R::lit(1, 0),
            r.wage_min == R::lit(10, 0),
            r.wage_pareto_alpha == R::lit(15, 1),
            r.init_savings == R::lit(0, 0),
            r.natural_rate == R::lit(1, 2),
            r.target_inflation == R::lit(2, 2),
            r.natural_unemployment == R::lit(4, 2),
            r.alpha_pi == R::lit(5, 1),
            r.alpha_u == R::lit(5, 1),
            r.alpha_w == R::lit(5, 2),
            r.alpha_p == R::lit(10, 2),
            r.seed == Some(42u64),
            r.llm.temperature == R::lit(0, 0),
            r.llm.seed == 0,
            r.llm.cache_path is None,
            r.output_dir@ == "results"@,
    {
        Config {
            n_agents: 100,
            months: 240,
            memory_length: 1,
            regime: PolicyRegime::Progressive,
            tax_scale: R::decimal(1, 0),
            productivity: R::decimal(1, 0),
            init_price: R::decimal(1, 0),
            wage_min: R::decimal(10, 0),
            wage_pareto_alpha: R::decimal(15, 1),
            init_savings: R::decimal(0, 0),
            natural_rate: R::decimal(1, 2),
            target_inflation: R::decimal(2, 2),
            natural_unemployment: R::decimal(4, 2),
            alpha_pi: R::decimal(5, 1),
            alpha_u: R::decimal(5, 1),
            alpha_w: R::decimal(5, 2),
            alpha_p: R::decimal(10, 2),
            seed: Some(42),
            llm: LlmSettings::default(),
            output_dir: "results".to_owned(),
        }
    }
}

/// The record of a run's settings.
pub struct RunConfigJson<R> {
    pub command: &'static str,
    pub n_agents: usize,
    pub months: usize,
    pub memory_length: usize,
    pub regime: String,
    pub tax_scale: R,
    pub productivity: R,
    pub init_price: R,
    pub wage_min: R,
    pub wage_pareto_alpha: R,
    pub init_savings: R,
    pub natural_rate: R,
    pub target_inflation: R,
    pub natural_unemployment: R,
    pub alpha_pi: R,
    pub alpha_u: R,
    pub alpha_w: R,
    pub alpha_p: R,
    pub seed: Option<u64>,
    pub llm_temperature: R,
    pub llm_seed: u64,
    pub output_dir: String,
}

impl<R: Number> Config<R> {
    /// The bracket borders and the marginal rates that apply in a run.
    pub fn tax_schedule(&self) -> (r: (Vec<R>, Vec<R>))
        ensures
            (r.0@, r.1@) == schedule_of(self.regime, self.tax_scale),
            r.0.len() == r.1.len() + 1,
    {
        let zero = R::decimal(0, 0);
        match self.regime {
            PolicyRegime::Progressive => {
                let brackets: Vec<R> = vec![
                    zero,
                    R::decimal(9_700, 0),
                    R::decimal(39_475, 0),
                    R::decimal(84_200, 0),
                    R::decimal(160_725, 0),
                    R::decimal(204_100, 0),
                    R::decimal(510_300, 0),
                    R::infinity(),
                ];
                let rates: Vec<R> = vec![
                    scale_rate(10, self.tax_scale),
                    scale_rate(12, self.tax_scale),
                    scale_rate(22, self.tax_scale),
                    scale_rate(24, self.tax_scale),
                    scale_rate(32, self.tax_scale),
                    scale_rate(35, self.tax_scale),
                    scale_rate(37, self.tax_scale),
                ];
                proof {
                    let (b, s) = schedule_of(self.regime, self.tax_scale);
                    assert(brackets@ =~= b);
                    assert(rates@ =~= s);
                }
                (brackets, rates)
            },
            PolicyRegime::Proportional => {
                (vec![zero, R::infinity()], vec![scale_rate(22, self.tax_scale)])
            },
            PolicyRegime::NoTax => (vec![zero, R::infinity()], vec![zero]),
        }
    }

    /// The record of the settings.
    pub fn to_run_config_json(&self) -> (r: RunConfigJson<R>)
        ensures
            r.command@ == "run"@,
            r.n_agents == self.n_agents,
            r.months == self.months,
            r.memory_length == self.memory_length,
            r.regime@ == self.regime.name(),
            r.tax_scale == self.tax_scale,
            r.productivity == self.productivity,
            r.init_price == self.init_price,
            r.wage_min == self.wage_min,
            r.wage_pareto_alpha == self.wage_pareto_alpha,
            r.init_savings == self.init_savings,
            r.natural_rate == self.natural_rate,
            r.target_inflation == self.target_inflation,
            r.natural_unemployment == self.natural_unemployment,
            r.alpha_pi == self.alpha_pi,
            r.alpha_u == self.alpha_u,
            r.alpha_w == self.alpha_w,
            r.alpha_p == self.alpha_p,
            r.seed == self.seed,
            r.llm_temperature == self.llm.temperature,
            r.llm_seed == self.llm.seed,
            r.output_dir@ == self.output_dir@,
    {
        RunConfigJson {
            command: "run",
            n_agents: self.n_agents,
            months: self.months,
            memory_length: self.memory_length,
            regime: self.regime.label().to_owned(),
            tax_scale: self.tax_scale,
            productivity: self.productivity,
            init_price: self.init_price,
            wage_min: self.wage_min,
            wage_pareto_alpha: self.wage_pareto_alpha,
            init_savings: self.init_savings,
            natural_rate: self.natural_rate,
            target_inflation: self.target_inflation,
            natural_unemployment: self.natural_unemployment,
            alpha_pi: self.alpha_pi,
            alpha_u: self.alpha_u,
            alpha_w: self.alpha_w,
            alpha_p: self.alpha_p,
            seed: self.seed,
            llm_temperature: self.llm.temperature,
            llm_seed: self.llm.seed,
            output_dir: self.output_dir.clone(),
        }
    }
}

/// What a command asks of a run; everything else keeps its default.
pub struct RunSettings<R> {
    pub n_agents: usize,
    pub months: usize,
    pub memory_length: usize,
    pub regime: PolicyRegime,
    pub tax_scale: R,
    pub seed: Option<u64>,
    pub llm_temperature: R,
    pub llm_seed: u64,
    pub cache_path: String,
    pub output_dir: String,
}

impl<R: Number> Config<R> {
    /// The settings of a run that a command asks for.
    pub fn for_run(asked: RunSettings<R>) -> (r: Self)
        ensures
            r.n_agents == asked.n_agents,
            r.months == asked.months,
            r.memory_length == asked.memory_length,
            r.regime == asked.regime,
            r.tax_scale == asked.tax_scale,
            r.productivity == R::lit(1, 0),
            r.init_price == R::lit(1, 0),
            r.wage_min == R::lit(10, 0),
            r.wage_pareto_alpha == R::lit(15, 1),
            r.init_savings == R::lit(0, 0),
            r.natural_rate == R::lit(1, 2),
            r.target_inflation == R::lit(2, 2),
            r.natural_unemployment == R::lit(4, 2),
            r.alpha_pi == R::lit(5, 1),
            r.alpha_u == R::lit(5, 1),
            r.alpha_w == R::lit(5, 2),
            r.alpha_p == R::lit(10, 2),
            r.seed == asked.seed,
            r.llm.temperature == asked.llm_temperature,
            r.llm.seed == asked.llm_seed,
            r.llm.cache_path == Some(asked.cache_path),
            r.output_dir == asked.output_dir,
    {
        Config {
            n_agents: asked.n_agents,
            months: asked.months,
            memory_length: asked.memory_length,
            regime: asked.regime,
            tax_scale: asked.tax_scale,
            seed: asked.seed,
            llm: LlmSettings {
                temperature: asked.llm_temperature,
                seed: asked.llm_seed,
                cache_path: Some(asked.cache_path),
            },
            output_dir: asked.output_dir,
            ..Config::default()
        }
    }

    /// The same settings, with replies kept in memory only.
    pub fn without_cache_file(self) -> (r: Self)
        ensures
            r == (Config { llm: LlmSettings { cache_path: None, ..self.llm }, ..self }),
    {
        let mut r = self;
        r.llm.cache_path = None;
        r
    }
}

} // verus!
