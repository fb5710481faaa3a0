# econagent_simulation

A macroeconomic simulation in which a language model decides for each household how much to work
and to spend, written and verified in Verus.

* `src/` is the verified library: the model, its indicators, the prompts and how replies are read,
  the course of a run, parameter sweeps and the headline experiment.
* Its laws are the functions whose names start with `law_`. Those of `src/laws.rs` hold of every run
  over ordered numbers; those of `src/exact.rs`, `src/spread.rs` and `src/correlation.rs` hold to the
  unit over decimal numbers; those of `src/written.rs` say what the texts of decimal numbers are worth.
* `tests/` runs the library, with floating-point numbers and with the decimal numbers of
  `src/fixed.rs`.
* `app/` is the command line: it calls the language model, makes the random draws and writes files.

The model is generic over its numbers. `number::Number` lists the operations that it uses, and every
contract is stated over their results. `fixed::Fixed` implements them with decimal arithmetic that
is verified too.

The laws hold for numbers with the properties that `number::Ordered` lists: that sums, products and
quotients keep order, and that `a + (b - a)` is `b`. `fixed::Fixed` is proved to have them. The
command line uses hardware floating point, which has not: of such a run the laws hold only as nearly
as its arithmetic comes to theirs.

A run is driven from outside. `run::Simulation` says what it needs next (a reply to a prompt, or a
draw from a given range), takes the answer, and moves on. What it does is a function of the answers.
