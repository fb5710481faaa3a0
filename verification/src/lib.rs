//! A macroeconomy of households that a language model decides for.
//!
//! Each month every household decides how willing it is to work and how much of its savings to
//! spend. Production, wages, prices, taxes, redistribution and interest follow from the decisions
//! and from random draws. The library holds the whole model; replies and draws come from outside,
//! through [`run::Simulation`], and a run is a function of them.
//!
//! * [`number`] says what the model asks of its numbers, and [`fixed`] offers decimal ones.
//! * [`config`], [`world`], [`sampling`] and [`simulation`] set up an economy.
//! * [`prompts`] and [`json`] ask households and read their answers.
//! * [`mock`] answers in place of a language model.
//! * [`mechanisms`] move the economy through a month, and [`run`] through all of them.
//! * [`metrics`] are the indicators; [`sweep`] and [`reproduce`] compare runs.
//! * [`laws`] are what holds of every run over numbers that are [`number::Ordered`].
//! * [`exact`], [`spread`] and [`correlation`] are what holds to the unit over decimal numbers, of the
//!   accounts, of inequality and of correlations; [`moments`] is the arithmetic behind it.
//! * [`indicators`], [`monthly`], [`settlement`] and [`course`] are what indicators measure, what a
//!   month does, how it ends, and how a run goes from its start; [`summaries`] is what experiments
//!   plan and report.
//! * [`wording`] is what prompts and notes say, [`replies`] what is read off a reply, and [`written`]
//!   what the texts of decimal numbers are worth.
//!
//! The contracts hold for any [`number::Number`] whose operations do what they are named for. The
//! laws ask for more: that sums, products and quotients keep order, and that `a + (b - a)` is `b`.
//! Decimal numbers meet all of it, which is proved. Hardware floating point, which the command line
//! runs on, does not: it rounds, and it has values that are not numbers. Of such a run the laws hold
//! only as nearly as its arithmetic comes to theirs.

pub mod config;
pub mod correlation;
pub mod course;
pub mod exact;
pub mod fixed;
pub mod indicators;
pub mod json;
pub mod laws;
pub mod mechanisms;
pub mod metrics;
pub mod mock;
pub mod moments;
pub mod monthly;
pub mod number;
pub mod prompts;
pub mod replies;
pub mod reproduce;
pub mod run;
pub mod sampling;
pub mod settlement;
pub mod simulation;
pub mod spread;
pub mod summaries;
pub mod sweep;
pub mod text;
pub mod wording;
pub mod world;
pub mod written;
