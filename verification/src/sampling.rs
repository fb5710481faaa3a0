//! Drawing the households of an economy, one after another.
//!
//! A household takes two or three draws: one for its wage, one for its age band, and one for its
//! age within the band. [`Sampling`] says which draw comes next and from which range, and takes what
//! was drawn.

use vstd::prelude::*;

use crate::config::Config;
use crate::number::Number;
use crate::simulation::{
    age_draw_of, age_share_total, pareto_exponent, sample_age, sample_pareto_wage, share_total,
    AgeDraw,
};

verus! {

/// What sampling needs next.
#[derive(Debug, Clone, Copy)]
pub enum Draw<R> {
    /// A draw from `least` to one, both included, raised to the power `exponent`.
    Power { least: R, exponent: R },
    /// A draw from zero to `bound`, the bound excluded.
    Below { bound: R },
    /// A draw from two ages and those between them.
    Age { youngest: u32, oldest: u32 },
    /// Nothing: all households are there.
    Done,
}

/// What was drawn.
#[derive(Debug, Clone, Copy)]
pub enum Drawn<R> {
    Value { value: R },
    Age { age: u32 },
}

/// What is known of the household that is being drawn.
#[derive(Debug, Clone, Copy)]
pub enum Partial<R> {
    Nothing,
    Wage { wage: R },
    Band { wage: R, youngest: u32, oldest: u32 },
}

/// The drawing of the households of an economy.
pub struct Sampling<R> {
    n_agents: usize,
    wage_min: R,
    exponent: R,
    drawn: Vec<(R, u32)>,
    partial: Partial<R>,
}

/// What a [`Sampling`] is.
#[verifier::ext_equal]
pub struct SamplingView<R> {
    pub n_agents: nat,
    pub wage_min: R,
    pub exponent: R,
    /// The wages and ages drawn so far.
    pub drawn: Seq<(R, u32)>,
    pub partial: Partial<R>,
}

impl<R> View for Sampling<R> {
    type V = SamplingView<R>;

    closed spec fn view(&self) -> SamplingView<R> {
        SamplingView {
            n_agents: self.n_agents as nat,
            wage_min: self.wage_min,
            exponent: self.exponent,
            drawn: self.drawn@,
            partial: self.partial,
        }
    }
}

/// The drawing of households before the first draw.
pub open spec fn sampling_of<R: Number>(cfg: Config<R>) -> SamplingView<R> {
    SamplingView {
        n_agents: cfg.n_agents as nat,
        wage_min: cfg.wage_min,
        exponent: R::lit(1, 0).div(cfg.wage_pareto_alpha),
        drawn: Seq::empty(),
        partial: Partial::Nothing,
    }
}

impl<R: Number> SamplingView<R> {
    /// Whether the drawing is in a state that it can reach: no more households than asked for, and
    /// none of them, nor a band, beyond the ages of adults.
    pub open spec fn valid(self) -> bool {
        &&& self.drawn.len() <= self.n_agents
        &&& forall|i: int| 0 <= i < self.drawn.len() ==> 18 <= (#[trigger] self.drawn[i]).1 <= 79
        &&& match self.partial {
            Partial::Nothing => true,
            Partial::Wage { .. } => self.drawn.len() < self.n_agents,
            Partial::Band { youngest, oldest, .. } => self.drawn.len() < self.n_agents && 18
                <= youngest <= oldest <= 79,
        }
    }

    /// The draw that comes next.
    pub open spec fn draw(self) -> Draw<R> {
        match self.partial {
            Partial::Nothing => if self.drawn.len() < self.n_agents {
                Draw::Power { least: R::lit(1, 9), exponent: self.exponent }
            } else {
                Draw::Done
            },
            Partial::Wage { .. } => Draw::Below { bound: share_total::<R>() },
            Partial::Band { youngest, oldest, .. } => Draw::Age { youngest, oldest },
        }
    }

    /// Whether something can have been drawn by the draw that comes next.
    pub open spec fn accepts(self, drawn: Drawn<R>) -> bool {
        match (self.draw(), drawn) {
            (Draw::Power { .. }, Drawn::Value { .. }) => true,
            (Draw::Below { .. }, Drawn::Value { .. }) => true,
            (Draw::Age { youngest, oldest }, Drawn::Age { age }) => youngest <= age <= oldest,
            _ => false,
        }
    }

    /// The drawing with one more household.
    pub open spec fn with(self, wage: R, age: u32) -> SamplingView<R> {
        SamplingView { drawn: self.drawn.push((wage, age)), partial: Partial::Nothing, ..self }
    }

    /// The drawing after something was drawn; what cannot have been drawn changes nothing.
    pub open spec fn after(self, drawn: Drawn<R>) -> SamplingView<R> {
        match (self.partial, drawn) {
            (Partial::Nothing, Drawn::Value { value }) => if self.drawn.len() < self.n_agents {
                SamplingView { partial: Partial::Wage { wage: self.wage_min.div(value) }, ..self }
            } else {
                self
            },
            (Partial::Wage { wage }, Drawn::Value { value }) => match age_draw_of(value) {
                AgeDraw::Among { youngest, oldest } => SamplingView {
                    partial: Partial::Band { wage, youngest, oldest },
                    ..self
                },
                AgeDraw::Exactly { age } => self.with(wage, age),
            },
            (Partial::Band { wage, youngest, oldest }, Drawn::Age { age }) => if youngest <= age
                <= oldest {
                self.with(wage, age)
            } else {
                self
            },
            _ => self,
        }
    }
}

/// A household is the wage of its first draw and the age of the others.
pub proof fn law_a_household_takes_its_draws<R: Number>(
    s: SamplingView<R>,
    power: R,
    place: R,
    age: u32,
)
    requires
        s.partial is Nothing,
        s.drawn.len() < s.n_agents,
    ensures
        ({
            let placed = s.after(Drawn::Value { value: power }).after(Drawn::Value { value: place });
            match age_draw_of(place) {
                AgeDraw::Among { youngest, oldest } => youngest <= age <= oldest ==> placed.after(
                    Drawn::Age { age },
                ) == s.with(s.wage_min.div(power), age),
                AgeDraw::Exactly { age } => placed == s.with(s.wage_min.div(power), age),
            }
        }),
{
}

/// Drawing goes on until there are as many households as asked for, and all of them are adults.
pub proof fn law_sampling_ends_with_all_households<R: Number>(s: SamplingView<R>)
    requires
        s.valid(),
    ensures
        s.draw() is Done <==> s.drawn.len() == s.n_agents,
        forall|i: int| 0 <= i < s.drawn.len() ==> 18 <= (#[trigger] s.drawn[i]).1 <= 79,
{
}

impl<R: Number> Sampling<R> {
    /// Whether the drawing is in a state that it can reach.
    pub closed spec fn wf(&self) -> bool {
        self@.valid()
    }

    pub fn new(cfg: &Config<R>) -> (r: Self)
        ensures
            r.wf(),
            r@ == sampling_of(*cfg),
            r@.valid(),
    {
        let r = Sampling {
            n_agents: cfg.n_agents,
            wage_min: cfg.wage_min,
            exponent: pareto_exponent(cfg.wage_pareto_alpha),
            drawn: Vec::new(),
            partial: Partial::Nothing,
        };
        assert(r@ =~= sampling_of(*cfg));
        r
    }

    /// The draw that comes next.
    pub fn next_draw(&self) -> (r: Draw<R>)
        ensures
            r == self@.draw(),
    {
        match self.partial {
            Partial::Nothing => if self.drawn.len() < self.n_agents {
                Draw::Power { least: R::decimal(1, 9), exponent: self.exponent }
            } else {
                Draw::Done
            },
            Partial::Wage { .. } => Draw::Below { bound: age_share_total() },
            Partial::Band { youngest, oldest, .. } => Draw::Age { youngest, oldest },
        }
    }

    /// Takes what was drawn. What cannot have been drawn is not accepted.
    pub fn take(&mut self, drawn: Drawn<R>) -> (accepted: bool)
        requires
            old(self).wf(),
        ensures
            final(self).wf(),
            final(self)@ == old(self)@.after(drawn),
            final(self)@.valid(),
            accepted == old(self)@.accepts(drawn),
    {
        match (self.partial, drawn) {
            (Partial::Nothing, Drawn::Value { value }) => {
                if self.drawn.len() >= self.n_agents {
                    return false;
                }
                self.partial = Partial::Wage { wage: sample_pareto_wage(value, self.wage_min) };
                true
            },
            (Partial::Wage { wage }, Drawn::Value { value }) => {
                match sample_age(value) {
                    AgeDraw::Among { youngest, oldest } => {
                        self.partial = Partial::Band { wage, youngest, oldest };
                    },
                    AgeDraw::Exactly { age } => {
                        self.drawn.push((wage, age));
                        self.partial = Partial::Nothing;
                    },
                }
                true
            },
            (Partial::Band { wage, youngest, oldest }, Drawn::Age { age }) => {
                if age < youngest || oldest < age {
                    return false;
                }
                self.drawn.push((wage, age));
                self.partial = Partial::Nothing;
                true
            },
            _ => false,
        }
    }

    /// The wages and ages of all households, once they are drawn.
    pub fn finish(self) -> (r: Option<Vec<(R, u32)>>)
        requires
            self.wf(),
        ensures
            match r {
                Some(sampled) => sampled@ == self@.drawn && sampled.len() == self@.n_agents,
                None => self@.drawn.len() < self@.n_agents,
            },
    {
        if self.drawn.len() == self.n_agents {
            Some(self.drawn)
        } else {
            None
        }
    }
}

} // verus!
