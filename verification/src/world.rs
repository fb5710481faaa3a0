//! The state of the economy: households, the macro environment and the clock.

use std::collections::BTreeMap;

use vstd::prelude::*;

use crate::number::{clamp, clamped, Number};

verus! {

/// Working hours of an employed household in one month.
pub const HOURS_PER_MONTH: i64 = 168;

/// One household, a worker and consumer.
#[derive(Debug, Clone)]
pub struct Household<R> {
    /// Hourly wage.
    pub wage: R,
    pub savings: R,
    /// Whether the household worked last month.
    pub employed_prev: bool,
    /// Whether the household works this month.
    pub employed: bool,
    pub age: u32,
    /// Nominal consumption of the last settled month.
    pub last_consumption: R,
    /// Tax paid in the last settled month.
    pub last_tax: R,
    /// Willingness to work, as last decided.
    pub p_work: R,
    /// Share of savings to consume, as last decided.
    pub p_consume: R,
    /// Notes on the most recent months, oldest first.
    pub memory: Vec<String>,
    /// Summary of the last finished quarter.
    pub reflection: String,
}

/// What a [`Household`] is, with its texts as sequences of characters.
#[verifier::ext_equal]
pub struct HouseholdView<R> {
    pub wage: R,
    pub savings: R,
    pub employed_prev: bool,
    pub employed: bool,
    pub age: nat,
    pub last_consumption: R,
    pub last_tax: R,
    pub p_work: R,
    pub p_consume: R,
    pub memory: Seq<Seq<char>>,
    pub reflection: Seq<char>,
}

/// The texts of a list of strings.
pub open spec fn texts(v: Seq<String>) -> Seq<Seq<char>> {
    v.map_values(|s: String| s@)
}

impl<R: Number> Household<R> {
    /// A household at the start of a run: no work, no spending and no memories yet.
    pub open spec fn fresh(wage: R, age: nat, savings: R) -> HouseholdView<R> {
        HouseholdView {
            wage,
            savings,
            employed_prev: false,
            employed: false,
            age,
            last_consumption: R::lit(0, 0),
            last_tax: R::lit(0, 0),
            p_work: R::lit(0, 0),
            p_consume: R::lit(0, 0),
            memory: Seq::empty(),
            reflection: Seq::empty(),
        }
    }

    pub fn new(wage: R, age: u32, savings: R) -> (r: Self)
        ensures
            r@ == Self::fresh(wage, age as nat, savings),
    {
        let r = Household {
            wage,
            savings,
            employed_prev: false,
            employed: false,
            age,
            last_consumption: R::decimal(0, 0),
            last_tax: R::decimal(0, 0),
            p_work: R::decimal(0, 0),
            p_consume: R::decimal(0, 0),
            memory: Vec::new(),
            reflection: String::new(),
        };
        assert(texts(r.memory@) =~= Seq::<Seq<char>>::empty());
        r
    }

    pub fn pretax_income(&self) -> (r: R)
        ensures
            r == self@.income(),
    {
        if self.employed {
            self.wage.times(R::decimal(HOURS_PER_MONTH, 0))
        } else {
            R::decimal(0, 0)
        }
    }
}

impl<R: Number> HouseholdView<R> {
    /// Income before tax: the wage of a month's hours, for the employed.
    pub open spec fn income(self) -> R {
        if self.employed {
            self.wage.mul(R::lit(HOURS_PER_MONTH as int, 0))
        } else {
            R::lit(0, 0)
        }
    }
}

impl<R> View for Household<R> {
    type V = HouseholdView<R>;

    open spec fn view(&self) -> HouseholdView<R> {
        HouseholdView {
            wage: self.wage,
            savings: self.savings,
            employed_prev: self.employed_prev,
            employed: self.employed,
            age: self.age as nat,
            last_consumption: self.last_consumption,
            last_tax: self.last_tax,
            p_work: self.p_work,
            p_consume: self.p_consume,
            memory: texts(self.memory@),
            reflection: self.reflection@,
        }
    }
}

/// The market, the policy parameters and the aggregates of the economy.
#[derive(Debug, Clone)]
pub struct MacroEnv<R> {
    pub price: R,
    /// Interest rate; set once a year.
    pub interest_rate: R,
    /// Stock of goods on offer.
    pub inventory: R,
    pub productivity: R,
    /// Redistribution per household in the last settled month.
    pub redistribution: R,
    /// Borders of the tax brackets: one more than there are rates.
    pub tax_brackets: Vec<R>,
    /// Marginal tax rate of each bracket.
    pub tax_rates: Vec<R>,
    /// Mean price of each finished year, behind the initial price.
    pub price_history: Vec<R>,
    /// Monthly prices of the running year.
    pub year_price_buffer: Vec<R>,
    /// Monthly unemployment rates since interest was last set.
    pub year_unemp_buffer: Vec<R>,
    pub natural_rate: R,
    pub target_inflation: R,
    pub natural_unemployment: R,
    /// Weight of inflation in the interest rule.
    pub alpha_pi: R,
    /// Weight of unemployment in the interest rule.
    pub alpha_u: R,
    /// Largest relative change of a wage in a month.
    pub alpha_w: R,
    /// Largest relative change of the price in a month.
    pub alpha_p: R,
}

/// What a [`MacroEnv`] is, with its lists as sequences.
#[verifier::ext_equal]
pub struct MacroEnvView<R> {
    pub price: R,
    pub interest_rate: R,
    pub inventory: R,
    pub productivity: R,
    pub redistribution: R,
    pub tax_brackets: Seq<R>,
    pub tax_rates: Seq<R>,
    pub price_history: Seq<R>,
    pub year_price_buffer: Seq<R>,
    pub year_unemp_buffer: Seq<R>,
    pub natural_rate: R,
    pub target_inflation: R,
    pub natural_unemployment: R,
    pub alpha_pi: R,
    pub alpha_u: R,
    pub alpha_w: R,
    pub alpha_p: R,
}

impl<R> View for MacroEnv<R> {
    type V = MacroEnvView<R>;

    open spec fn view(&self) -> MacroEnvView<R> {
        MacroEnvView {
            price: self.price,
            interest_rate: self.interest_rate,
            inventory: self.inventory,
            productivity: self.productivity,
            redistribution: self.redistribution,
            tax_brackets: self.tax_brackets@,
            tax_rates: self.tax_rates@,
            price_history: self.price_history@,
            year_price_buffer: self.year_price_buffer@,
            year_unemp_buffer: self.year_unemp_buffer@,
            natural_rate: self.natural_rate,
            target_inflation: self.target_inflation,
            natural_unemployment: self.natural_unemployment,
            alpha_pi: self.alpha_pi,
            alpha_u: self.alpha_u,
            alpha_w: self.alpha_w,
            alpha_p: self.alpha_p,
        }
    }
}

/// Whether `s` enumerates the set `ids`, smallest first and each once.
pub open spec fn is_ascending_of(s: Seq<u64>, ids: Set<u64>) -> bool {
    &&& forall|i: int, j: int| 0 <= i < j < s.len() ==> s[i] < s[j]
    &&& forall|id: u64| ids.contains(id) <==> s.contains(id)
}

/// The increasing enumeration of a set of identifiers.
pub open spec fn ascending(ids: Set<u64>) -> Seq<u64> {
    choose|s: Seq<u64>| is_ascending_of(s, ids)
}

proof fn lemma_ascending_agree(s: Seq<u64>, t: Seq<u64>, ids: Set<u64>, i: int)
    requires
        is_ascending_of(s, ids),
        is_ascending_of(t, ids),
        0 <= i <= s.len(),
    ensures
        i <= t.len(),
        s.take(i) =~= t.take(i),
    decreases i,
{
    if i > 0 {
        lemma_ascending_agree(s, t, ids, i - 1);
        let j = i - 1;
        assert(s.contains(s[j]));
        assert(t.contains(s[j]));
        let k = t.index_of(s[j]);
        if k < j {
            assert(s.take(j)[k] == t.take(j)[k]);
            assert(false);
        }
        assert(t.contains(t[j]));
        assert(s.contains(t[j]));
        let m = s.index_of(t[j]);
        if m < j {
            assert(s.take(j)[m] == t.take(j)[m]);
            assert(false);
        }
        assert(s[j] == t[j]);
        assert forall|x: int| 0 <= x < i implies s.take(i)[x] == t.take(i)[x] by {
            if x < j {
                assert(s.take(j)[x] == t.take(j)[x]);
            }
        }
    }
}

/// There is one increasing enumeration of a set.
pub proof fn lemma_ascending_unique(s: Seq<u64>, ids: Set<u64>)
    requires
        is_ascending_of(s, ids),
    ensures
        s == ascending(ids),
{
    let t = ascending(ids);
    assert(is_ascending_of(t, ids));
    lemma_ascending_agree(s, t, ids, s.len() as int);
    lemma_ascending_agree(t, s, ids, t.len() as int);
    assert(s =~= s.take(s.len() as int));
    assert(t =~= t.take(t.len() as int));
}

/// An increasing enumeration is as long as the set is large.
pub proof fn lemma_ascending_len(s: Seq<u64>, ids: Set<u64>)
    requires
        is_ascending_of(s, ids),
    ensures
        s.len() == ids.len(),
        ids.finite(),
{
    assert(s.no_duplicates());
    assert(s.to_set() =~= ids);
    s.unique_seq_to_set();
}

/// The months of a run.
#[derive(Debug, Clone, Copy)]
pub struct Clock {
    /// Months begun so far.
    pub t: u64,
    /// Months to run.
    pub t_max: u64,
}

/// The economy.
#[derive(Debug, Clone)]
pub struct EconWorld<R> {
    pub clock: Clock,
    /// The households by their identifiers.
    pub households: BTreeMap<u64, Household<R>>,
    pub env: MacroEnv<R>,
}

/// What an [`EconWorld`] is.
#[verifier::ext_equal]
pub struct WorldView<R> {
    pub t: nat,
    pub t_max: nat,
    pub households: Map<u64, HouseholdView<R>>,
    pub env: MacroEnvView<R>,
}

impl<R> View for EconWorld<R> {
    type V = WorldView<R>;

    open spec fn view(&self) -> WorldView<R> {
        WorldView {
            t: self.clock.t as nat,
            t_max: self.clock.t_max as nat,
            households: self.households@.map_values(|h: Household<R>| h@),
            env: self.env@,
        }
    }
}

impl<R> WorldView<R> {
    /// The identifiers of the households, in increasing order.
    pub open spec fn ids(self) -> Seq<u64> {
        ascending(self.households.dom())
    }

    /// The households in the order of their identifiers.
    pub open spec fn roster(self) -> Seq<HouseholdView<R>> {
        self.ids().map_values(|id: u64| self.households[id])
    }

    /// The number of households.
    pub open spec fn n(self) -> nat {
        self.households.dom().len()
    }

    /// The running month, counted from zero.
    pub open spec fn month(self) -> nat {
        if self.t == 0 {
            0
        } else {
            (self.t - 1) as nat
        }
    }

    /// The world with one household replaced.
    pub open spec fn with_household(self, id: u64, h: HouseholdView<R>) -> WorldView<R> {
        WorldView { households: self.households.insert(id, h), ..self }
    }

    /// The world with another environment.
    pub open spec fn with_env(self, env: MacroEnvView<R>) -> WorldView<R> {
        WorldView { env, ..self }
    }
}

fn ordered_keys<R>(m: &BTreeMap<u64, Household<R>>) -> (r: Vec<u64>)
    ensures
        is_ascending_of(r@, m@.dom()),
{
    broadcast use vstd::std_specs::btree::group_btree_axioms;
    broadcast use vstd::laws_cmp::group_laws_cmp;
    assert(vstd::std_specs::btree::key_obeys_cmp_spec::<u64>());
    let mut out: Vec<u64> = Vec::new();
    let it = m.iter();
    let ghost all = vstd::std_specs::iter::IteratorSpec::remaining(&it);
    let ghost keys = all.map_values(|kv: (&u64, &Household<R>)| *kv.0);
    assert(vstd::std_specs::btree::increasing_seq(keys));
    for kv in iter: it
        invariant
            iter.seq() == all,
            keys == all.map_values(|kv: (&u64, &Household<R>)| *kv.0),
            out@ == keys.take(iter.index()),
    {
        out.push(*kv.0);
        assert(out@ =~= keys.take(iter.index() + 1));
    }
    assert(out@ =~= keys);
    proof {
        assert forall|i: int, j: int| 0 <= i < j < keys.len() implies keys[i] < keys[j] by {
            assert(vstd::std_specs::cmp::OrdSpec::cmp_spec(&keys[i], &keys[j]) is Less);
        }
        assert forall|id: u64| m@.dom().contains(id) <==> keys.contains(id) by {
            if m@.contains_key(id) {
                let k = all.index_of((&id, &m@[id]));
                assert(all.contains((&id, &m@[id])));
                assert(keys[k] == id);
            }
            if keys.contains(id) {
                let k = keys.index_of(id);
                assert(m@.contains_key(*all[k].0));
            }
        }
    }
    out
}

impl<R: Number> EconWorld<R> {
    /// The number of households.
    pub fn n(&self) -> (r: usize)
        ensures
            r == self@.n(),
    {
        broadcast use vstd::std_specs::btree::group_btree_axioms;
        broadcast use vstd::laws_cmp::group_laws_cmp;

        assert(vstd::std_specs::btree::key_obeys_cmp_spec::<u64>());
        assert(self@.households.dom() =~= self.households@.dom());
        self.households.len()
    }

    /// The identifiers of the households, in increasing order.
    pub fn agent_ids(&self) -> (r: Vec<u64>)
        ensures
            r@ == self@.ids(),
            is_ascending_of(r@, self@.households.dom()),
            r.len() == self@.n(),
    {
        let r = ordered_keys(&self.households);
        proof {
            assert(self@.households.dom() =~= self.households@.dom());
            lemma_ascending_unique(r@, self@.households.dom());
            lemma_ascending_len(r@, self@.households.dom());
        }
        r
    }

    /// The household with an identifier, if there is one.
    pub fn household(&self, id: u64) -> (r: Option<&Household<R>>)
        ensures
            match r {
                Some(h) => self@.households.contains_key(id) && h@ == self@.households[id],
                None => !self@.households.contains_key(id),
            },
    {
        broadcast use vstd::std_specs::btree::group_btree_axioms;
        broadcast use vstd::laws_cmp::group_laws_cmp;

        assert(vstd::std_specs::btree::key_obeys_cmp_spec::<u64>());
        self.households.get(&id)
    }

    /// Takes a household out of the world, to be put back changed.
    pub(crate) fn take_household(&mut self, id: u64) -> (r: Household<R>)
        requires
            old(self)@.households.contains_key(id),
        ensures
            r@ == old(self)@.households[id],
            final(self)@ == (WorldView {
                households: old(self)@.households.remove(id),
                ..old(self)@
            }),
    {
        broadcast use vstd::std_specs::btree::group_btree_axioms;
        broadcast use vstd::laws_cmp::group_laws_cmp;

        assert(vstd::std_specs::btree::key_obeys_cmp_spec::<u64>());
        let h = self.households.remove(&id);
        assert(self@.households =~= old(self)@.households.remove(id));
        h.unwrap()
    }

    /// Puts a household into the world.
    pub(crate) fn put_household(&mut self, id: u64, h: Household<R>)
        ensures
            final(self)@ == old(self)@.with_household(id, h@),
    {
        broadcast use vstd::std_specs::btree::group_btree_axioms;
        broadcast use vstd::laws_cmp::group_laws_cmp;

        assert(vstd::std_specs::btree::key_obeys_cmp_spec::<u64>());
        self.households.insert(id, h);
        assert(self@.households =~= old(self)@.households.insert(id, h@));
    }

    pub fn month(&self) -> (r: u64)
        ensures
            r == self@.month(),
    {
        self.clock.t.saturating_sub(1)
    }

    /// The month within its year.
    pub fn month_in_year(&self) -> (r: u64)
        ensures
            r == self@.month() % 12,
    {
        self.month() % 12
    }
}

/// The steps between zero and one on which a probability may lie.
pub open spec fn snapped<R: Number>(p: R) -> R {
    clamped(p, R::lit(0, 0), R::lit(1, 0)).div(R::lit(2, 2)).nearest().mul(R::lit(2, 2))
}

/// Brings a probability into the range from zero to one and onto the nearest fiftieth.
pub fn snap_probability<R: Number>(p: R) -> (r: R)
    ensures
        r == snapped(p),
{
    let within = clamp(p, R::decimal(0, 0), R::decimal(1, 0));
    within.over(R::decimal(2, 2)).round().times(R::decimal(2, 2))
}

} // verus!
