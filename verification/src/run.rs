//! Running an economy month by month.
//!
//! A run needs replies of a language model and random draws. [`Simulation`] says which one it needs
//! next and takes the answer, so whoever drives it decides where answers come from; the course of
//! the run is a function of the answers.
//!
//! A month begins with the interest decision. Then each household is asked for its decision, and a
//! draw settles whether it finds work. When all have decided, goods are produced, a draw moves each
//! wage, and another the price. Then the month is settled and noted, and at the end of a quarter
//! each household is asked to reflect.

use vstd::prelude::*;

use crate::config::Config;
use crate::mechanisms::{
    change_bound, decided, has_schedule, imbalance_of, is_quarter_end, is_year_start, metrics_of,
    perceived, policy_set, price_moved, reflected, remembered, settled_world, stocked, wage_moved,
    FiscalRewardMechanism, LlmDecisionMechanism, MacroPolicyMechanism, MarketClearingMechanism,
    MemoryUpdateMechanism, Perception,
};
use crate::metrics::{inflation_of, MacroMetrics};
use crate::number::Number;
use crate::prompts::{
    decision_of, decision_prompt, decision_text, parse_decision, reflection_prompt,
    reflection_text,
};
use crate::simulation::{
    init_world, initial_world, lemma_initial_households, LlmUsage, SimulationResult,
};
use crate::world::{is_ascending_of, lemma_ascending_len, EconWorld, HouseholdView, WorldView};

verus! {

/// What a run needs next.
pub enum Action<R> {
    /// The reply to a prompt that asks the household for its decision.
    AskDecision { id: u64, prompt: String },
    /// A draw from the uniform distribution between zero and one, one excluded.
    DrawUnit,
    /// A draw from the uniform distribution between zero and a bound, both included.
    DrawUpTo { bound: R },
    /// The reply to a prompt that asks the household to reflect.
    AskReflection { id: u64, prompt: String },
    /// Nothing: all months are done.
    Finish,
    /// Nothing: a call for a reply has failed.
    Abort,
}

/// What an [`Action`] is.
pub enum ActionView<R> {
    AskDecision { id: u64, prompt: Seq<char> },
    DrawUnit,
    DrawUpTo { bound: R },
    AskReflection { id: u64, prompt: Seq<char> },
    Finish,
    Abort,
}

impl<R> View for Action<R> {
    type V = ActionView<R>;

    open spec fn view(&self) -> ActionView<R> {
        match self {
            Action::AskDecision { id, prompt } => ActionView::AskDecision { id: *id, prompt: prompt@ },
            Action::DrawUnit => ActionView::DrawUnit,
            Action::DrawUpTo { bound } => ActionView::DrawUpTo { bound: *bound },
            Action::AskReflection { id, prompt } => ActionView::AskReflection {
                id: *id,
                prompt: prompt@,
            },
            Action::Finish => ActionView::Finish,
            Action::Abort => ActionView::Abort,
        }
    }
}

/// An answer to an [`Action`].
pub enum Event<R> {
    /// The reply to a prompt.
    Reply { text: String },
    /// The call for a reply failed.
    Failure { reason: String },
    /// A drawn number.
    Drawn { value: R },
}

/// What an [`Event`] is.
pub enum EventView<R> {
    Reply { text: Seq<char> },
    Failure { reason: Seq<char> },
    Drawn { value: R },
}

impl<R> View for Event<R> {
    type V = EventView<R>;

    open spec fn view(&self) -> EventView<R> {
        match self {
            Event::Reply { text } => EventView::Reply { text: text@ },
            Event::Failure { reason } => EventView::Failure { reason: reason@ },
            Event::Drawn { value } => EventView::Drawn { value: *value },
        }
    }
}

/// How far a run has come within a month.
enum Stage<R> {
    Deciding { next: usize, perception: Perception<R> },
    Hiring { next: usize, perception: Perception<R>, p_work: R, p_consume: R },
    MovingWages { next: usize, imbalance: R },
    MovingPrice { imbalance: R },
    Reflecting { next: usize },
    Finished,
    DecisionFailed { reason: String },
    ReflectionFailed { reason: String },
}

/// How far a run has come: whose turn it is, by its place in the order of the households, and what
/// has been found in the month so far.
pub enum StageView<R> {
    /// The household is to be asked for its decision.
    Deciding { next: nat, perception: Perception<R> },
    /// The household has decided, and is to find work or not.
    Hiring { next: nat, perception: Perception<R>, p_work: R, p_consume: R },
    /// The wage of the household is to move.
    MovingWages { next: nat, imbalance: R },
    /// The price is to move.
    MovingPrice { imbalance: R },
    /// The household is to be asked for a reflection.
    Reflecting { next: nat },
    /// All months are done.
    Finished,
    /// A call for a decision failed.
    DecisionFailed { reason: Seq<char> },
    /// A call for a reflection failed.
    ReflectionFailed { reason: Seq<char> },
}

impl<R> Stage<R> {
    spec fn view(&self) -> StageView<R> {
        match self {
            Stage::Deciding { next, perception } => StageView::Deciding {
                next: *next as nat,
                perception: *perception,
            },
            Stage::Hiring { next, perception, p_work, p_consume } => StageView::Hiring {
                next: *next as nat,
                perception: *perception,
                p_work: *p_work,
                p_consume: *p_consume,
            },
            Stage::MovingWages { next, imbalance } => StageView::MovingWages {
                next: *next as nat,
                imbalance: *imbalance,
            },
            Stage::MovingPrice { imbalance } => StageView::MovingPrice { imbalance: *imbalance },
            Stage::Reflecting { next } => StageView::Reflecting { next: *next as nat },
            Stage::Finished => StageView::Finished,
            Stage::DecisionFailed { reason } => StageView::DecisionFailed { reason: reason@ },
            Stage::ReflectionFailed { reason } => StageView::ReflectionFailed { reason: reason@ },
        }
    }
}

/// What is said before the reason why a run failed.
pub const RUN_FAILED: &'static str = "シミュレーションの実行に失敗: ";

/// A run in progress.
pub struct Simulation<R> {
    world: EconWorld<R>,
    ids: Vec<u64>,
    fiscal: FiscalRewardMechanism<R>,
    memory: MemoryUpdateMechanism,
    stage: Stage<R>,
}

/// What a [`Simulation`] is.
pub struct SimulationView<R> {
    pub world: WorldView<R>,
    /// The indicators of the settled months.
    pub metrics: Seq<MacroMetrics<R>>,
    pub memory_length: nat,
    pub stage: StageView<R>,
}

impl<R> View for Simulation<R> {
    type V = SimulationView<R>;

    closed spec fn view(&self) -> SimulationView<R> {
        SimulationView {
            world: self.world@,
            metrics: self.fiscal.metrics@,
            memory_length: self.memory.memory_length as nat,
            stage: self.stage.view(),
        }
    }
}

impl<R: Number> SimulationView<R> {
    /// The run with its next month begun, or finished if there is none.
    pub open spec fn next_month(self) -> SimulationView<R> {
        if self.world.t >= self.world.t_max {
            SimulationView { stage: StageView::Finished, ..self }
        } else {
            let w = policy_set(WorldView { t: self.world.t + 1, ..self.world });
            if w.n() > 0 {
                SimulationView {
                    world: w,
                    stage: StageView::Deciding { next: 0, perception: perceived(w) },
                    ..self
                }
            } else {
                SimulationView { world: w, ..self }.market_open()
            }
        }
    }

    /// The run with all decisions made and goods produced.
    pub open spec fn market_open(self) -> SimulationView<R> {
        let w = stocked(self.world);
        let imbalance = imbalance_of(w);
        SimulationView {
            world: w,
            stage: if w.n() > 0 {
                StageView::MovingWages { next: 0, imbalance }
            } else {
                StageView::MovingPrice { imbalance }
            },
            ..self
        }
    }

    /// The run with its month settled and noted.
    pub open spec fn month_closed(self) -> SimulationView<R> {
        let closed = SimulationView {
            world: remembered(settled_world(self.world), self.memory_length),
            metrics: self.metrics.push(metrics_of(self.world)),
            ..self
        };
        if is_quarter_end(self.world.month()) && self.world.n() > 0 {
            SimulationView { stage: StageView::Reflecting { next: 0 }, ..closed }
        } else {
            closed.next_month()
        }
    }

    /// What the run needs next.
    pub open spec fn action(self) -> ActionView<R> {
        match self.stage {
            StageView::Deciding { next, perception } => {
                let id = self.world.ids()[next as int];
                ActionView::AskDecision {
                    id,
                    prompt: decision_text(
                        self.world.households[id],
                        self.world.env,
                        perception.unemployment,
                        perception.inflation,
                    ),
                }
            },
            StageView::Hiring { .. } => ActionView::DrawUnit,
            StageView::MovingWages { imbalance, .. } => ActionView::DrawUpTo {
                bound: change_bound(self.world.env.alpha_w, imbalance),
            },
            StageView::MovingPrice { imbalance } => ActionView::DrawUpTo {
                bound: change_bound(self.world.env.alpha_p, imbalance),
            },
            StageView::Reflecting { next } => {
                let id = self.world.ids()[next as int];
                ActionView::AskReflection { id, prompt: reflection_text(self.world.households[id]) }
            },
            StageView::Finished => ActionView::Finish,
            StageView::DecisionFailed { .. } => ActionView::Abort,
            StageView::ReflectionFailed { .. } => ActionView::Abort,
        }
    }

    /// Whether an answer is one to what the run needs next.
    pub open spec fn accepts(self, event: EventView<R>) -> bool {
        match self.stage {
            StageView::Deciding { .. } => !(event is Drawn),
            StageView::Hiring { .. } => event is Drawn,
            StageView::MovingWages { .. } => event is Drawn,
            StageView::MovingPrice { .. } => event is Drawn,
            StageView::Reflecting { .. } => !(event is Drawn),
            _ => false,
        }
    }

    /// The run after an answer; as it was, if the answer is not one to what it needs.
    pub open spec fn after(self, event: EventView<R>) -> SimulationView<R> {
        let w = self.world;
        match (self.stage, event) {
            (StageView::Deciding { next, perception }, EventView::Reply { text }) => {
                let (p_work, p_consume) = decision_of::<R>(text);
                SimulationView {
                    stage: StageView::Hiring { next, perception, p_work, p_consume },
                    ..self
                }
            },
            (StageView::Deciding { .. }, EventView::Failure { reason }) => SimulationView {
                stage: StageView::DecisionFailed { reason },
                ..self
            },
            (StageView::Hiring { next, perception, p_work, p_consume }, EventView::Drawn { value }) => {
                let id = w.ids()[next as int];
                let hired = SimulationView {
                    world: w.with_household(
                        id,
                        decided(w.households[id], p_work, p_consume, value),
                    ),
                    ..self
                };
                if next + 1 < w.n() {
                    SimulationView {
                        stage: StageView::Deciding { next: next + 1, perception },
                        ..hired
                    }
                } else {
                    hired.market_open()
                }
            },
            (StageView::MovingWages { next, imbalance }, EventView::Drawn { value }) => SimulationView {
                world: wage_moved(w, w.ids()[next as int], imbalance, value),
                stage: if next + 1 < w.n() {
                    StageView::MovingWages { next: next + 1, imbalance }
                } else {
                    StageView::MovingPrice { imbalance }
                },
                ..self
            },
            (StageView::MovingPrice { imbalance }, EventView::Drawn { value }) => SimulationView {
                world: price_moved(w, imbalance, value),
                ..self
            }.month_closed(),
            (StageView::Reflecting { next }, EventView::Reply { text }) => {
                let entered = SimulationView {
                    world: reflected(w, w.ids()[next as int], text),
                    ..self
                };
                if next + 1 < w.n() {
                    SimulationView { stage: StageView::Reflecting { next: next + 1 }, ..entered }
                } else {
                    entered.next_month()
                }
            },
            (StageView::Reflecting { .. }, EventView::Failure { reason }) => SimulationView {
                stage: StageView::ReflectionFailed { reason },
                ..self
            },
            _ => self,
        }
    }
}

impl<R: Number> SimulationView<R> {
    /// Whether the record of the settled months is complete, and in step with the annual accounts
    /// and the memories.
    pub open spec fn records_kept(self) -> bool {
        let done = self.metrics.len();
        let env = self.world.env;
        &&& env.price_history.len() == 1 + done / 12
        &&& env.year_price_buffer.len() == done % 12
        &&& forall|i: int| 0 <= i < done ==> (#[trigger] self.metrics[i]).month == i
        &&& forall|i: int| 0 <= i < done ==> (#[trigger] self.metrics[i]).year == i / 12
        &&& forall|i: int|
            0 <= i < done ==> (#[trigger] self.metrics[i]).inflation_rate == inflation_of(
                env.price_history.take(1 + i / 12),
            )
        &&& forall|id: u64|
            self.world.households.contains_key(id) ==> (
            #[trigger] self.world.households[id]).memory.len() == (if done < self.memory_length {
                done
            } else {
                self.memory_length
            })
    }

    /// What holds of a run at every point.
    pub open spec fn sound(self) -> bool {
        let w = self.world;
        &&& w.t <= w.t_max <= usize::MAX
        &&& is_ascending_of(w.ids(), w.households.dom())
        &&& has_schedule(w.env)
        &&& self.records_kept()
    }

    /// Whether a run is in a state that it can reach.
    pub open spec fn valid(self) -> bool {
        &&& self.sound()
        &&& match self.stage {
            StageView::Deciding { next, .. } => next < self.world.n() && self.is_open(),
            StageView::Hiring { next, .. } => next < self.world.n() && self.is_open(),
            StageView::MovingWages { next, .. } => next < self.world.n() && self.is_open(),
            StageView::MovingPrice { .. } => self.is_open(),
            StageView::Reflecting { next } => {
                &&& next < self.world.n()
                &&& self.is_closed()
                &&& self.world.t > 0
                &&& is_quarter_end(self.world.month())
            },
            StageView::Finished => self.is_closed() && self.world.t == self.world.t_max,
            StageView::DecisionFailed { .. } => self.is_open(),
            StageView::ReflectionFailed { .. } => self.is_closed(),
        }
    }

    /// Whether the running month is not settled yet.
    pub open spec fn is_open(self) -> bool {
        self.metrics.len() + 1 == self.world.t
    }

    /// Whether all months begun are settled.
    pub open spec fn is_closed(self) -> bool {
        self.metrics.len() == self.world.t
    }
}

/// Beginning a month keeps a run in order.
pub proof fn lemma_next_month<R: Number>(s: SimulationView<R>)
    requires
        s.sound(),
        s.is_closed(),
    ensures
        s.next_month().valid(),
        s.next_month().world.households.dom() == s.world.households.dom(),
{
}

/// Settling a month keeps a run in order.
pub proof fn lemma_month_closed<R: Number>(s: SimulationView<R>)
    requires
        s.sound(),
        s.is_open(),
    ensures
        s.month_closed().valid(),
        s.month_closed().world.households.dom() == s.world.households.dom(),
{
    let noted = remembered(settled_world(s.world), s.memory_length);
    let closed = SimulationView {
        world: noted,
        metrics: s.metrics.push(metrics_of(s.world)),
        ..s
    };
    let done = s.metrics.len();
    assert(noted.households.dom() =~= s.world.households.dom());
    assert(closed.records_kept()) by {
        assert forall|i: int| 0 <= i < done + 1 implies (
        #[trigger] closed.metrics[i]).inflation_rate == inflation_of(
            closed.world.env.price_history.take(1 + i / 12),
        ) by {
            assert(closed.world.env.price_history.take(1 + i / 12)
                =~= s.world.env.price_history.take(1 + i / 12));
            if i == done {
                assert(s.world.env.price_history.take(1 + i / 12) =~= s.world.env.price_history);
            }
        }
    }
    lemma_next_month(closed);
}

/// The identifiers at the places of the order are those of the households.
pub proof fn lemma_places<R>(w: WorldView<R>, place: nat)
    requires
        is_ascending_of(w.ids(), w.households.dom()),
        place < w.n(),
    ensures
        place < w.ids().len(),
        w.households.contains_key(w.ids()[place as int]),
{
    lemma_ascending_len(w.ids(), w.households.dom());
    assert(w.ids().contains(w.ids()[place as int]));
}

/// Replacing a household keeps the households.
pub proof fn lemma_with_household<R>(w: WorldView<R>, id: u64, h: HouseholdView<R>)
    requires
        w.households.contains_key(id),
    ensures
        w.with_household(id, h).households.dom() == w.households.dom(),
        w.with_household(id, h).ids() == w.ids(),
        w.with_household(id, h).n() == w.n(),
{
    assert(w.households.insert(id, h).dom() =~= w.households.dom());
}

/// A run is in order after every answer, and its households stay the same.
pub proof fn law_runs_stay_in_order<R: Number>(s: SimulationView<R>, event: EventView<R>)
    requires
        s.valid(),
    ensures
        s.after(event).valid(),
        s.after(event).world.households.dom() == s.world.households.dom(),
{
    let w = s.world;
    match (s.stage, event) {
        (StageView::Hiring { next, perception, p_work, p_consume }, EventView::Drawn { value }) => {
            lemma_places(w, next);
            let id = w.ids()[next as int];
            lemma_with_household(w, id, decided(w.households[id], p_work, p_consume, value));
        },
        (StageView::MovingWages { next, imbalance }, EventView::Drawn { value }) => {
            lemma_places(w, next);
            let id = w.ids()[next as int];
            let moved = wage_moved(w, id, imbalance, value);
            lemma_with_household(w, id, moved.households[id]);
        },
        (StageView::MovingPrice { imbalance }, EventView::Drawn { value }) => {
            let priced = SimulationView { world: price_moved(w, imbalance, value), ..s };
            lemma_month_closed(priced);
        },
        (StageView::Reflecting { next }, EventView::Reply { text }) => {
            lemma_places(w, next);
            let id = w.ids()[next as int];
            let entered = SimulationView { world: reflected(w, id, text), ..s };
            lemma_with_household(w, id, entered.world.households[id]);
            if next + 1 >= w.n() {
                lemma_next_month(entered);
            }
        },
        _ => {},
    }
}

/// The run of an economy at its start.
pub open spec fn started<R: Number>(cfg: Config<R>, sampled: Seq<(R, u32)>) -> SimulationView<R> {
    SimulationView {
        world: initial_world(cfg, sampled),
        metrics: Seq::empty(),
        memory_length: if cfg.memory_length < 1 {
            1
        } else {
            cfg.memory_length as nat
        },
        stage: StageView::Finished,
    }.next_month()
}

/// A finished run has the indicators of each of its months, in order.
pub proof fn law_one_row_per_month<R: Number>(s: SimulationView<R>)
    requires
        s.valid(),
        s.stage is Finished,
    ensures
        s.metrics.len() == s.world.t_max,
        forall|i: int| 0 <= i < s.metrics.len() ==> (#[trigger] s.metrics[i]).month == i,
        forall|i: int| 0 <= i < s.metrics.len() ==> (#[trigger] s.metrics[i]).year == i / 12,
{
}

/// Inflation is the same in all months of a year, and zero in the first year.
pub proof fn law_inflation_is_constant_within_a_year<R: Number>(s: SimulationView<R>, i: int, j: int)
    requires
        s.valid(),
        0 <= i < s.metrics.len(),
        0 <= j < s.metrics.len(),
        s.metrics[i].year == s.metrics[j].year,
    ensures
        s.metrics[i].inflation_rate == s.metrics[j].inflation_rate,
        s.metrics[i].year == 0 ==> s.metrics[i].inflation_rate == R::lit(0, 0),
{
}

/// A household remembers the last months, and no more of them than it can.
pub proof fn law_memories_are_bounded<R: Number>(s: SimulationView<R>, id: u64)
    requires
        s.valid(),
        s.world.households.contains_key(id),
    ensures
        s.world.households[id].memory.len() <= s.memory_length,
        s.world.households[id].memory.len() <= s.metrics.len(),
{
}

/// The interest rate is set only when a year begins; any other answer leaves it as it is.
pub proof fn law_interest_changes_with_the_year<R: Number>(s: SimulationView<R>, event: EventView<R>)
    requires
        s.valid(),
    ensures
        s.after(event).world.env.interest_rate != s.world.env.interest_rate ==> {
            &&& s.after(event).world.t == s.world.t + 1
            &&& is_year_start(s.after(event).world.month())
        },
{
}

/// What a run is given at its start stays: the tax schedule and the parameters of policy and
/// market.
pub proof fn law_parameters_never_change<R: Number>(s: SimulationView<R>, event: EventView<R>)
    ensures
        ({
            let old_env = s.world.env;
            let new_env = s.after(event).world.env;
            &&& new_env.tax_brackets == old_env.tax_brackets
            &&& new_env.tax_rates == old_env.tax_rates
            &&& new_env.productivity == old_env.productivity
            &&& new_env.natural_rate == old_env.natural_rate
            &&& new_env.target_inflation == old_env.target_inflation
            &&& new_env.natural_unemployment == old_env.natural_unemployment
            &&& new_env.alpha_pi == old_env.alpha_pi
            &&& new_env.alpha_u == old_env.alpha_u
            &&& new_env.alpha_w == old_env.alpha_w
            &&& new_env.alpha_p == old_env.alpha_p
            &&& s.after(event).world.t_max == s.world.t_max
            &&& s.after(event).memory_length == s.memory_length
        }),
{
}

/// Households decide at the same time: while they do, what one decides changes neither the economy
/// nor what the others are shown.
pub proof fn law_decisions_are_simultaneous<R: Number>(s: SimulationView<R>, event: EventView<R>, other: u64)
    requires
        s.valid(),
        s.stage is Deciding || s.stage is Hiring,
        s.after(event).stage is Deciding || s.after(event).stage is Hiring,
        s.world.households.contains_key(other),
        other != s.world.ids()[s.turn()],
    ensures
        s.after(event).perception() == s.perception(),
        s.after(event).world.env == s.world.env,
        s.after(event).world.households[other] == s.world.households[other],
{
}

impl<R> SimulationView<R> {
    /// Whose turn it is to decide, by its place in the order.
    pub open spec fn turn(self) -> int {
        match self.stage {
            StageView::Deciding { next, .. } => next as int,
            StageView::Hiring { next, .. } => next as int,
            _ => 0,
        }
    }

    /// What the deciding households are told.
    pub open spec fn perception(self) -> Option<Perception<R>> {
        match self.stage {
            StageView::Deciding { perception, .. } => Some(perception),
            StageView::Hiring { perception, .. } => Some(perception),
            _ => None,
        }
    }
}

/// The answers that a number of months take: in each month a reply and two draws for every
/// household and a draw for the price, and at each quarter's end a reply for every household.
pub open spec fn answers_in(n: nat, months: nat) -> nat {
    months * (3 * n + 1) + (months / 3) * n
}

impl<R: Number> SimulationView<R> {
    /// The answers that a run still takes.
    pub open spec fn answers_left(self) -> int {
        let n = self.world.n();
        let later = answers_in(n, self.world.t_max) - answers_in(n, self.world.t);
        let reflections = if is_quarter_end(self.world.month()) {
            n
        } else {
            0
        };
        match self.stage {
            StageView::Deciding { next, .. } => 2 * (n - next) + n + 1 + reflections + later,
            StageView::Hiring { next, .. } => 2 * (n - next) + n + reflections + later,
            StageView::MovingWages { next, .. } => n - next + 1 + reflections + later,
            StageView::MovingPrice { .. } => 1 + reflections + later,
            StageView::Reflecting { next } => n - next + later,
            _ => 0,
        }
    }
}

proof fn lemma_answers_in_month(n: nat, k: nat)
    ensures
        answers_in(n, k + 1) == answers_in(n, k) + 3 * n + 1 + (if is_quarter_end(k) {
            n
        } else {
            0
        }),
{
    let each = 3 * n + 1;
    assert((k + 1) * each == k * each + each) by (nonlinear_arith);
    assert((k / 3 + 1) * n == (k / 3) * n + n) by (nonlinear_arith);
}

/// Each answer other than a failure brings a run one answer closer to its end, which it reaches
/// when no answer is left to give.
pub proof fn law_every_answer_counts<R: Number>(s: SimulationView<R>, event: EventView<R>)
    requires
        s.valid(),
        s.accepts(event),
        !(event is Failure),
    ensures
        s.after(event).answers_left() == s.answers_left() - 1,
{
    law_runs_stay_in_order(s, event);
    lemma_answers_in_month(s.world.n(), s.world.t);
}

/// The replies among those answers: one a month for every household, and one a quarter.
pub open spec fn replies_in(n: nat, months: nat) -> nat {
    n * months + n * (months / 3)
}

impl<R: Number> SimulationView<R> {
    /// The replies that a run still takes.
    pub open spec fn replies_left(self) -> int {
        let n = self.world.n();
        let later = replies_in(n, self.world.t_max) - replies_in(n, self.world.t);
        let reflections = if is_quarter_end(self.world.month()) {
            n
        } else {
            0
        };
        match self.stage {
            StageView::Deciding { next, .. } => n - next + reflections + later,
            StageView::Hiring { next, .. } => n - next - 1 + reflections + later,
            StageView::MovingWages { .. } => reflections + later,
            StageView::MovingPrice { .. } => reflections + later,
            StageView::Reflecting { next } => n - next + later,
            _ => 0,
        }
    }
}

proof fn lemma_replies_in_month(n: nat, k: nat)
    ensures
        replies_in(n, k + 1) == replies_in(n, k) + n + (if is_quarter_end(k) {
            n
        } else {
            0
        }),
{
    assert(n * (k + 1) == n * k + n) by (nonlinear_arith);
    assert(n * (k / 3 + 1) == n * (k / 3) + n) by (nonlinear_arith);
}

/// A reply brings a run one reply closer to its end, and a draw none.
pub proof fn law_every_reply_counts<R: Number>(s: SimulationView<R>, event: EventView<R>)
    requires
        s.valid(),
        s.accepts(event),
        !(event is Failure),
    ensures
        s.after(event).replies_left() == s.replies_left() - (if event is Reply {
            1int
        } else {
            0
        }),
{
    law_runs_stay_in_order(s, event);
    lemma_replies_in_month(s.world.n(), s.world.t);
}

/// A run takes a reply from every household each month, and another each quarter.
pub proof fn law_replies_of_a_run<R: Number>(cfg: Config<R>, sampled: Seq<(R, u32)>)
    requires
        sampled.len() == cfg.n_agents,
    ensures
        started(cfg, sampled).replies_left() == replies_in(cfg.n_agents as nat, cfg.months as nat),
{
    let n = cfg.n_agents as nat;
    lemma_replies_in_month(n, 0);
    assert(n * 0 == 0) by (nonlinear_arith);
    assert(replies_in(n, 0) == 0);
    lemma_initial_households(cfg, sampled);
}

proof fn lemma_answers_in_grow(n: nat, a: nat, b: nat)
    requires
        a <= b,
    ensures
        answers_in(n, a) <= answers_in(n, b),
    decreases b,
{
    if a < b {
        lemma_answers_in_grow(n, a, (b - 1) as nat);
        lemma_answers_in_month(n, (b - 1) as nat);
    }
}

/// A run needs answers until it has ended.
pub proof fn law_runs_end_without_answers<R: Number>(s: SimulationView<R>)
    requires
        s.valid(),
    ensures
        s.answers_left() >= 0,
        s.answers_left() == 0 <==> s.action() is Finish || s.action() is Abort,
{
    lemma_answers_in_grow(s.world.n(), s.world.t, s.world.t_max);
}

impl<R: Number> SimulationView<R> {
    /// The run after a sequence of answers.
    pub open spec fn replay(self, events: Seq<EventView<R>>) -> SimulationView<R>
        decreases events.len(),
    {
        if events.len() == 0 {
            self
        } else {
            self.after(events[0]).replay(events.drop_first())
        }
    }

    /// Whether every answer of a sequence is one to what the run needs at that point, and none is a
    /// failure.
    pub open spec fn plays(self, events: Seq<EventView<R>>) -> bool
        decreases events.len(),
    {
        events.len() == 0 || {
            &&& self.accepts(events[0])
            &&& !(events[0] is Failure)
            &&& self.after(events[0]).plays(events.drop_first())
        }
    }
}

/// A run starts in order.
pub proof fn law_runs_start_in_order<R: Number>(cfg: Config<R>, sampled: Seq<(R, u32)>)
    requires
        sampled.len() == cfg.n_agents,
    ensures
        started(cfg, sampled).valid(),
{
    lemma_initial_households(cfg, sampled);
    lemma_next_month(
        SimulationView {
            world: initial_world(cfg, sampled),
            metrics: Seq::empty(),
            memory_length: if cfg.memory_length < 1 {
                1
            } else {
                cfg.memory_length as nat
            },
            stage: StageView::Finished,
        },
    );
}

/// A run stays in order through all its answers, whatever they are, and keeps its households.
pub proof fn law_whole_runs_stay_in_order<R: Number>(s: SimulationView<R>, events: Seq<EventView<R>>)
    requires
        s.valid(),
    ensures
        s.replay(events).valid(),
        s.replay(events).world.households.dom() == s.world.households.dom(),
    decreases events.len(),
{
    if events.len() > 0 {
        law_runs_stay_in_order(s, events[0]);
        law_whole_runs_stay_in_order(s.after(events[0]), events.drop_first());
    }
}

/// A run whose answers are all given is finished, with the indicators of each of its months.
pub proof fn law_runs_complete<R: Number>(s: SimulationView<R>, events: Seq<EventView<R>>)
    requires
        s.valid(),
        !(s.action() is Abort),
        s.plays(events),
        events.len() == s.answers_left(),
    ensures
        s.replay(events).stage is Finished,
        s.replay(events).metrics.len() == s.world.t_max,
        s.replay(events).valid(),
    decreases events.len(),
{
    law_runs_end_without_answers(s);
    if events.len() > 0 {
        let next = s.after(events[0]);
        law_runs_stay_in_order(s, events[0]);
        law_every_answer_counts(s, events[0]);
        law_parameters_never_change(s, events[0]);
        law_runs_complete(next, events.drop_first());
    }
}

/// A run takes as many answers as its months do, if none of them is a failure.
pub proof fn law_answers_of_a_run<R: Number>(cfg: Config<R>, sampled: Seq<(R, u32)>)
    requires
        sampled.len() == cfg.n_agents,
    ensures
        started(cfg, sampled).answers_left() == answers_in(cfg.n_agents as nat, cfg.months as nat),
{
    let n = cfg.n_agents as nat;
    lemma_answers_in_month(n, 0);
    assert(0 * (3 * n + 1) == 0 && 0 * n == 0) by (nonlinear_arith);
    assert(answers_in(n, 0) == 0);
    lemma_initial_households(cfg, sampled);
}

impl<R: Number> Simulation<R> {
    /// Whether a run is in a state that it can reach.
    pub closed spec fn wf(&self) -> bool {
        &&& self.ids@ == self.world@.ids()
        &&& self@.valid()
    }

    /// Starts the run of an economy whose households have the sampled wages and ages.
    pub fn new(cfg: &Config<R>, sampled: &Vec<(R, u32)>) -> (r: Self)
        requires
            sampled.len() == cfg.n_agents,
        ensures
            r.wf(),
            r@ == started(*cfg, sampled@),
            r@.valid(),
    {
        let world = init_world(cfg, sampled);
        let ids = world.agent_ids();
        let mut r = Simulation {
            world,
            ids,
            fiscal: FiscalRewardMechanism::new(),
            memory: MemoryUpdateMechanism::new(cfg.memory_length),
            stage: Stage::Finished,
        };
        r.begin_month();
        r
    }

    fn begin_month(&mut self)
        requires
            old(self).ids@ == old(self).world@.ids(),
            old(self)@.sound(),
            old(self)@.is_closed(),
        ensures
            final(self)@ == old(self)@.next_month(),
            final(self).wf(),
    {
        proof {
            lemma_next_month(self@);
            lemma_ascending_len(self.world@.ids(), self.world@.households.dom());
        }
        if self.world.clock.t >= self.world.clock.t_max {
            self.stage = Stage::Finished;
            return;
        }
        self.world.clock.t = self.world.clock.t + 1;
        MacroPolicyMechanism.apply(&mut self.world);
        if self.ids.len() > 0 {
            let perception = LlmDecisionMechanism.perceive(&self.world);
            self.stage = Stage::Deciding { next: 0, perception };
        } else {
            self.open_market();
        }
    }

    fn open_market(&mut self)
        requires
            old(self).ids@ == old(self).world@.ids(),
            old(self)@.sound(),
            old(self)@.is_open(),
        ensures
            final(self)@ == old(self)@.market_open(),
            final(self).wf(),
    {
        let imbalance = MarketClearingMechanism.produce(&mut self.world);
        proof {
            lemma_ascending_len(self.world@.ids(), self.world@.households.dom());
        }
        self.stage = if self.ids.len() > 0 {
            Stage::MovingWages { next: 0, imbalance }
        } else {
            Stage::MovingPrice { imbalance }
        };
    }

    fn close_month(&mut self)
        requires
            old(self).ids@ == old(self).world@.ids(),
            old(self)@.sound(),
            old(self)@.is_open(),
        ensures
            final(self)@ == old(self)@.month_closed(),
            final(self).wf(),
    {
        proof {
            lemma_month_closed(self@);
            lemma_ascending_len(self.world@.ids(), self.world@.households.dom());
        }
        let month = self.world.month();
        self.fiscal.apply(&mut self.world);
        self.memory.remember(&mut self.world);
        if (month + 1) % 3 == 0 && self.ids.len() > 0 {
            self.stage = Stage::Reflecting { next: 0 };
        } else {
            self.begin_month();
        }
    }

    /// What the run needs next.
    pub fn next_action(&self) -> (r: Action<R>)
        requires
            self.wf(),
        ensures
            r@ == self@.action(),
    {
        match &self.stage {
            Stage::Deciding { next, perception } => {
                proof {
                    lemma_places(self.world@, *next as nat);
                }
                let id = self.ids[*next];
                let prompt = match self.world.household(id) {
                    Some(h) => decision_prompt(
                        h,
                        &self.world.env,
                        perception.unemployment,
                        perception.inflation,
                    ),
                    None => String::new(),
                };
                Action::AskDecision { id, prompt }
            },
            Stage::Hiring { .. } => Action::DrawUnit,
            Stage::MovingWages { imbalance, .. } => Action::DrawUpTo {
                bound: MarketClearingMechanism.wage_bound(&self.world, *imbalance),
            },
            Stage::MovingPrice { imbalance } => Action::DrawUpTo {
                bound: MarketClearingMechanism.price_bound(&self.world, *imbalance),
            },
            Stage::Reflecting { next } => {
                proof {
                    lemma_places(self.world@, *next as nat);
                }
                let id = self.ids[*next];
                let prompt = match self.world.household(id) {
                    Some(h) => reflection_prompt(h),
                    None => String::new(),
                };
                Action::AskReflection { id, prompt }
            },
            Stage::Finished => Action::Finish,
            Stage::DecisionFailed { .. } => Action::Abort,
            Stage::ReflectionFailed { .. } => Action::Abort,
        }
    }

    /// Takes the answer to what the run needs, and says whether it was one.
    pub fn advance(&mut self, event: Event<R>) -> (accepted: bool)
        requires
            old(self).wf(),
        ensures
            final(self).wf(),
            final(self)@ == old(self)@.after(event@),
            accepted == old(self)@.accepts(event@),
            final(self)@.valid(),
    {
        proof {
            law_runs_stay_in_order(self@, event@);
        }
        match event {
            Event::Reply { text } => self.take_reply(text),
            Event::Failure { reason } => self.take_failure(reason),
            Event::Drawn { value } => self.take_draw(value),
        }
    }

    fn take_reply(&mut self, text: String) -> (accepted: bool)
        requires
            old(self).wf(),
        ensures
            final(self).wf(),
            final(self)@ == old(self)@.after(EventView::Reply { text: text@ }),
            accepted == old(self)@.accepts(EventView::Reply { text: text@ }),
    {
        match self.stage {
            Stage::Deciding { next, perception } => {
                let (p_work, p_consume) = parse_decision::<R>(text.as_str());
                self.stage = Stage::Hiring { next, perception, p_work, p_consume };
                true
            },
            Stage::Reflecting { next } => {
                proof {
                    lemma_places(self.world@, next as nat);
                    lemma_ascending_len(self.world@.ids(), self.world@.households.dom());
                }
                let id = self.ids[next];
                let ghost before = self.world@;
                self.memory.reflect(&mut self.world, id, text.as_str());
                proof {
                    lemma_with_household(before, id, self.world@.households[id]);
                }
                if next < self.ids.len() - 1 {
                    self.stage = Stage::Reflecting { next: next + 1 };
                } else {
                    self.begin_month();
                }
                true
            },
            _ => false,
        }
    }

    fn take_failure(&mut self, reason: String) -> (accepted: bool)
        requires
            old(self).wf(),
        ensures
            final(self).wf(),
            final(self)@ == old(self)@.after(EventView::Failure { reason: reason@ }),
            accepted == old(self)@.accepts(EventView::Failure { reason: reason@ }),
    {
        match self.stage {
            Stage::Deciding { .. } => {
                self.stage = Stage::DecisionFailed { reason };
                true
            },
            Stage::Reflecting { .. } => {
                self.stage = Stage::ReflectionFailed { reason };
                true
            },
            _ => false,
        }
    }

    fn take_draw(&mut self, value: R) -> (accepted: bool)
        requires
            old(self).wf(),
        ensures
            final(self).wf(),
            final(self)@ == old(self)@.after(EventView::Drawn { value }),
            accepted == old(self)@.accepts(EventView::Drawn { value }),
    {
        let ghost before = self.world@;
        match self.stage {
            Stage::Hiring { next, perception, p_work, p_consume } => {
                proof {
                    lemma_places(before, next as nat);
                    lemma_ascending_len(before.ids(), before.households.dom());
                }
                let id = self.ids[next];
                LlmDecisionMechanism.decide(&mut self.world, id, p_work, p_consume, value);
                proof {
                    lemma_with_household(before, id, self.world@.households[id]);
                }
                if next < self.ids.len() - 1 {
                    self.stage = Stage::Deciding { next: next + 1, perception };
                } else {
                    self.open_market();
                }
                true
            },
            Stage::MovingWages { next, imbalance } => {
                proof {
                    lemma_places(before, next as nat);
                    lemma_ascending_len(before.ids(), before.households.dom());
                }
                let id = self.ids[next];
                MarketClearingMechanism.adjust_wage(&mut self.world, id, imbalance, value);
                proof {
                    lemma_with_household(before, id, self.world@.households[id]);
                }
                self.stage = if next < self.ids.len() - 1 {
                    Stage::MovingWages { next: next + 1, imbalance }
                } else {
                    Stage::MovingPrice { imbalance }
                };
                true
            },
            Stage::MovingPrice { imbalance } => {
                MarketClearingMechanism.adjust_price(&mut self.world, imbalance, value);
                self.close_month();
                true
            },
            _ => false,
        }
    }

    /// Ends a run that needs nothing more: gives its indicators, or says which call failed.
    pub fn finish(self, llm_model: String, llm_endpoint: String, metadata: LlmUsage<R>) -> (r: Result<
        SimulationResult<R>,
        String,
    >)
        requires
            self.wf(),
            self@.action() is Finish || self@.action() is Abort,
        ensures
            match r {
                Ok(result) => {
                    &&& self@.stage is Finished
                    &&& result.metrics_history@ == self@.metrics
                    &&& result.metrics_history.len() == self@.world.t_max
                    &&& result.final_month == self@.world.t_max
                    &&& result.metadata == metadata
                    &&& result.llm_model == llm_model
                    &&& result.llm_endpoint == llm_endpoint
                },
                Err(message) => match self@.stage {
                    StageView::DecisionFailed { reason } => {
                        message@ == RUN_FAILED@ + "decision LLM call failed: "@ + reason
                    },
                    StageView::ReflectionFailed { reason } => {
                        message@ == RUN_FAILED@ + "reflection LLM call failed: "@ + reason
                    },
                    _ => false,
                },
            },
    {
        let mut message = RUN_FAILED.to_owned();
        match self.stage {
            Stage::DecisionFailed { reason } => {
                message.append("decision LLM call failed: ");
                message.append(reason.as_str());
                Err(message)
            },
            Stage::ReflectionFailed { reason } => {
                message.append("reflection LLM call failed: ");
                message.append(reason.as_str());
                Err(message)
            },
            _ => Ok(
                SimulationResult {
                    metrics_history: self.fiscal.metrics,
                    metadata,
                    llm_model,
                    llm_endpoint,
                    final_month: self.world.clock.t as usize,
                },
            ),
        }
    }

    /// The indicators of the settled months.
    pub fn metrics(&self) -> (r: &Vec<MacroMetrics<R>>)
        ensures
            r@ == self@.metrics,
    {
        &self.fiscal.metrics
    }

    /// The economy as it stands.
    pub fn world(&self) -> (r: &EconWorld<R>)
        ensures
            r@ == self@.world,
    {
        &self.world
    }
}

} // verus!
