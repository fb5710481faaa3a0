//! Sweeping over numbers of households, tax scales and models.

use vstd::prelude::*;

use crate::config::PolicyRegime;
use crate::metrics::{
    inflation_rates, inflation_series, mean, mean_of, settled, settled_rows, unemployment_rates,
    unemployment_series, MacroMetrics,
};
use crate::number::{clamp, clamped, Number};
use crate::simulation::SimulationResult;
use crate::text::{
    chars_of, digit, digits_value, is_digit, is_white, lemma_digits_value_grows, trim, trimmed,
};

verus! {

pub const FNV_OFFSET: u64 = 0xcbf29ce484222325;

pub const FNV_PRIME: u64 = 0x100000001b3;

/// The FNV-1a hash of a sequence of bytes.
pub open spec fn fnv(bytes: Seq<u8>) -> u64
    decreases bytes.len(),
{
    if bytes.len() == 0 {
        FNV_OFFSET
    } else {
        (((fnv(bytes.drop_last()) ^ (bytes.last() as u64)) * FNV_PRIME) % 0x1_0000_0000_0000_0000) as u64
    }
}

/// The number that stands for a label in the derivation of a seed.
pub fn label_hash(label: &str) -> (r: u64)
    ensures
        r == fnv(vstd::utf8::encode_utf8(label@)),
{
    let bytes = label.as_bytes();
    let mut h: u64 = FNV_OFFSET;
    for i in 0..bytes.len()
        invariant
            h == fnv(bytes@.take(i as int)),
    {
        assert(bytes@.take(i + 1).drop_last() =~= bytes@.take(i as int));
        h = h ^ (bytes[i] as u64);
        h = h.wrapping_mul(FNV_PRIME);
    }
    assert(bytes@.take(bytes@.len() as int) =~= bytes@);
    h
}

/// The position of the first comma from `i` on, or the end of the text.
pub open spec fn field_end(s: Seq<char>, i: int) -> int
    decreases s.len() - i,
{
    if i >= s.len() || s[i] == ',' {
        i
    } else {
        field_end(s, i + 1)
    }
}

/// A field ends within the text.
pub proof fn lemma_field_end(s: Seq<char>, i: int)
    ensures
        i <= field_end(s, i),
        i <= s.len() ==> field_end(s, i) <= s.len(),
        field_end(s, i) < s.len() ==> s[field_end(s, i)] == ',',
        forall|k: int| i <= k < field_end(s, i) ==> s[k] != ',',
    decreases s.len() - i,
{
    if i < s.len() && s[i] != ',' {
        lemma_field_end(s, i + 1);
    }
}

/// A field as an item: without the white space around it, and none if nothing is left.
pub open spec fn item_in(field: Seq<char>) -> Seq<Seq<char>> {
    if trimmed(field).len() == 0 {
        Seq::empty()
    } else {
        seq![trimmed(field)]
    }
}

/// The items between the commas of a text, from position `i` on.
pub open spec fn items_from(s: Seq<char>, i: int) -> Seq<Seq<char>>
    decreases s.len() - i + 1,
{
    if i > s.len() {
        Seq::empty()
    } else {
        proof {
            lemma_field_end(s, i);
        }
        let end = field_end(s, i);
        item_in(s.subrange(i, end)) + items_from(s, end + 1)
    }
}

/// The texts of a list of items.
pub open spec fn item_texts(items: Seq<String>) -> Seq<Seq<char>> {
    items.map_values(|item: String| item@)
}

pub fn split_csv(s: &str) -> (r: Vec<String>)
    ensures
        item_texts(r@) == items_from(s@, 0),
{
    let v = chars_of(s);
    let n: usize = v.len();
    let mut out: Vec<String> = Vec::new();
    let mut start: usize = 0;
    assert(item_texts(out@) + items_from(s@, 0) =~= items_from(s@, 0));
    loop
        invariant_except_break
            item_texts(out@) + items_from(s@, start as int) == items_from(s@, 0),
        invariant
            v@ == s@,
            n == v.len(),
            start <= n,
        ensures
            item_texts(out@) == items_from(s@, 0),
        decreases n - start,
    {
        let mut end: usize = start;
        while end < n && v[end] != ','
            invariant
                v@ == s@,
                n == v.len(),
                start <= end <= n,
                field_end(s@, start as int) == field_end(s@, end as int),
            decreases n - end,
        {
            end = end + 1;
        }
        let item = trim(s.substring_char(start, end));
        let ghost before = item_texts(out@);
        let ghost rest = items_from(s@, end + 1);
        if !item.is_empty() {
            out.push(item.to_owned());
            assert(item_texts(out@) =~= before.push(item@));
        }
        assert(item_texts(out@) + rest =~= before + (item_in(s@.subrange(start as int, end as int))
            + rest));
        if end == n {
            assert(rest =~= Seq::empty());
            assert(item_texts(out@) + rest =~= item_texts(out@));
            break;
        }
        start = end + 1;
    }
    out
}

/// The items of a list hold no comma, and neither begin nor end with white space, and none is
/// empty.
pub proof fn law_items_are_trimmed(s: Seq<char>, i: int, k: int)
    requires
        0 <= i,
        0 <= k < items_from(s, i).len(),
    ensures
        items_from(s, i)[k].len() > 0,
        trimmed(items_from(s, i)[k]) == items_from(s, i)[k],
        !items_from(s, i)[k].contains(','),
    decreases s.len() - i + 1,
{
    lemma_field_end(s, i);
    let end = field_end(s, i);
    let field = s.subrange(i, end);
    let first = item_in(field);
    if k < first.len() {
        lemma_trimmed_part(field);
        assert(!field.contains(',')) by {
            if field.contains(',') {
                let j = field.index_of(',');
                assert(s[i + j] == ',');
            }
        }
    } else {
        law_items_are_trimmed(s, end + 1, k - first.len());
    }
}

/// Trimming leaves nothing to trim, and adds nothing.
pub proof fn lemma_trimmed_part(s: Seq<char>)
    ensures
        trimmed(trimmed(s)) == trimmed(s),
        forall|c: char| trimmed(s).contains(c) ==> s.contains(c),
    decreases s.len(),
{
    if s.len() > 0 {
        if is_white(s[0]) {
            lemma_trimmed_part(s.drop_first());
            assert forall|c: char| s.drop_first().contains(c) implies s.contains(c) by {
                let j = s.drop_first().index_of(c);
                assert(s[j + 1] == c);
            }
        } else if is_white(s.last()) {
            lemma_trimmed_part(s.drop_last());
            assert forall|c: char| s.drop_last().contains(c) implies s.contains(c) by {
                let j = s.drop_last().index_of(c);
                assert(s[j] == c);
            }
        }
    }
}

/// A numeral without the plus sign that may stand before it.
pub open spec fn unsigned_part(s: Seq<char>) -> Seq<char> {
    if s.len() > 0 && s[0] == '+' {
        s.skip(1)
    } else {
        s
    }
}

/// The number of things that a text states, if it states one and it is not too large.
pub open spec fn counted(s: Seq<char>) -> Option<nat> {
    let digits = unsigned_part(s);
    if digits.len() > 0 && (forall|k: int| 0 <= k < digits.len() ==> is_digit(#[trigger] digits[k]))
        && digits_value(digits) <= usize::MAX {
        Some(digits_value(digits))
    } else {
        None
    }
}

pub fn parse_count(s: &str) -> (r: Option<usize>)
    ensures
        match r {
            Some(n) => counted(s@) == Some(n as nat),
            None => counted(s@) is None,
        },
{
    let v = chars_of(s);
    let n: usize = v.len();
    let start: usize = if n > 0 && v[0] == '+' {
        1
    } else {
        0
    };
    let ghost digits = unsigned_part(s@);
    assert(digits =~= v@.skip(start as int));
    if start == n {
        return None;
    }
    let mut value: usize = 0;
    for i in start..n
        invariant
            n == v.len(),
            start < n,
            digits == unsigned_part(s@),
            digits == v@.skip(start as int),
            value == digits_value(digits.take(i - start)),
            forall|k: int| 0 <= k < i - start ==> is_digit(#[trigger] digits[k]),
    {
        let c = v[i];
        assert(c == digits[i - start]);
        if !digit(c) {
            return None;
        }
        let d: usize = c as usize - '0' as usize;
        proof {
            assert(digits.take(i - start + 1).drop_last() =~= digits.take(i - start));
            lemma_digits_value_grows(digits, i - start + 1);
        }
        value = match value.checked_mul(10) {
            Some(tens) => match tens.checked_add(d) {
                Some(x) => x,
                None => {
                    return None;
                },
            },
            None => {
                return None;
            },
        };
    }
    assert(digits.take(n - start) =~= digits);
    Some(value)
}

/// What is said of an item that states no number of households.
pub open spec fn bad_count(item: Seq<char>) -> Seq<char> {
    "不正な n_agents: "@ + item
}

/// Reads a list of numbers of households.
pub fn parse_counts(s: &str) -> (r: Result<Vec<usize>, String>)
    ensures
        match r {
            Ok(counts) => {
                &&& counts.len() == items_from(s@, 0).len()
                &&& forall|k: int|
                    0 <= k < counts.len() ==> counted(items_from(s@, 0)[k]) == Some(
                        (#[trigger] counts[k]) as nat,
                    )
            },
            Err(message) => exists|k: int|
                {
                    &&& 0 <= k < items_from(s@, 0).len()
                    &&& counted(#[trigger] items_from(s@, 0)[k]) is None
                    &&& forall|j: int| 0 <= j < k ==> counted(#[trigger] items_from(s@, 0)[j]) is Some
                    &&& message@ == bad_count(items_from(s@, 0)[k])
                },
        },
{
    let items = split_csv(s);
    let ghost all = items_from(s@, 0);
    let mut out: Vec<usize> = Vec::new();
    for i in 0..items.len()
        invariant
            all == items_from(s@, 0),
            item_texts(items@) == all,
            out.len() == i,
            forall|k: int| 0 <= k < i ==> counted(all[k]) == Some((#[trigger] out[k]) as nat),
    {
        assert(items@[i as int]@ == all[i as int]);
        match parse_count(items[i].as_str()) {
            Some(n) => out.push(n),
            None => {
                let mut message = "不正な n_agents: ".to_owned();
                message.append(items[i].as_str());
                assert forall|j: int| 0 <= j < i implies counted(#[trigger] all[j]) is Some by {
                    assert(counted(all[j]) == Some(out[j] as nat));
                }
                return Err(message);
            },
        }
    }
    Ok(out)
}

/// The number of whole steps between two tax scales. A quotient that falls short of a whole number
/// by less than a billionth counts as that number.
pub open spec fn scale_steps<R: Number>(lo: R, hi: R, step: R) -> i64 {
    hi.sub(lo).div(step).add(R::lit(1, 9)).whole()
}

/// The scale at a step, to six digits and within the two ends.
pub open spec fn scale_at<R: Number>(lo: R, hi: R, step: R, k: nat) -> R {
    clamped(
        lo.add(step.mul(R::count_of(k))).mul(R::lit(1_000_000, 0)).nearest().div(
            R::lit(1_000_000, 0),
        ),
        lo,
        hi,
    )
}

/// The tax scales between two, by steps; only the lower one where there is no step to take.
pub open spec fn scales_between<R: Number>(lo: R, hi: R, step: R) -> Seq<R> {
    if step.at_most(R::lit(0, 0)) || hi.below(lo) {
        seq![lo]
    } else {
        let n = scale_steps(lo, hi, step);
        Seq::new(
            if n < 0 {
                0
            } else {
                (n + 1) as nat
            },
            |k: int| scale_at(lo, hi, step, k as nat),
        )
    }
}

pub fn tax_scale_range<R: Number>(min: R, max: R, step: R) -> (r: Vec<R>)
    ensures
        r@ == scales_between(min, max, step),
{
    let mut out: Vec<R> = Vec::new();
    if step.le(R::decimal(0, 0)) || max.lt(min) {
        out.push(min);
        return out;
    }
    let n: i64 = max.minus(min).over(step).plus(R::decimal(1, 9)).to_i64();
    let million = R::decimal(1_000_000, 0);
    let ghost goal = scales_between(min, max, step);
    if n < 0 {
        assert(out@ =~= goal);
        return out;
    }
    let mut k: i64 = 0;
    loop
        invariant_except_break
            out@ =~= goal.take(k as int),
        invariant
            0 <= k <= n,
            million == R::lit(1_000_000, 0),
            goal == Seq::new((n + 1) as nat, |k: int| scale_at(min, max, step, k as nat)),
        ensures
            out@ =~= goal,
        decreases n - k,
    {
        let scale = min.plus(step.times(R::from_count(k as u64))).times(million).round().over(million);
        out.push(clamp(scale, min, max));
        if k == n {
            break;
        }
        k = k + 1;
    }
    out
}

/// One run of a sweep.
pub struct SweepCell<R> {
    pub n_agents: usize,
    pub tax_scale: R,
    pub llm_model: String,
    pub run: usize,
    /// What the seed of the run is derived from, besides the seed of the sweep.
    pub seed_labels: Vec<u64>,
}

/// What a [`SweepCell`] is.
#[verifier::ext_equal]
pub struct SweepCellView<R> {
    pub n_agents: usize,
    pub tax_scale: R,
    pub llm_model: Seq<char>,
    pub run: usize,
    pub seed_labels: Seq<u64>,
}

impl<R> View for SweepCell<R> {
    type V = SweepCellView<R>;

    open spec fn view(&self) -> SweepCellView<R> {
        SweepCellView {
            n_agents: self.n_agents,
            tax_scale: self.tax_scale,
            llm_model: self.llm_model@,
            run: self.run,
            seed_labels: self.seed_labels@,
        }
    }
}

/// The number that stands for a text in the derivation of a seed.
pub open spec fn hash_of(text: Seq<char>) -> u64 {
    fnv(vstd::utf8::encode_utf8(text))
}

/// A run of a sweep, with labels that tell it from every other: its number of households, its tax
/// scale, its model and its number among the repetitions.
pub open spec fn cell_of<R: Number>(n: usize, scale: R, model: Seq<char>, run: usize) -> SweepCellView<R> {
    SweepCellView {
        n_agents: n,
        tax_scale: scale,
        llm_model: model,
        run,
        seed_labels: seq![n as u64, hash_of(scale.shown()), hash_of(model), run as u64],
    }
}

/// The repetitions under one condition.
pub open spec fn repetitions<R: Number>(n: usize, scale: R, model: Seq<char>, runs: nat) -> Seq<
    SweepCellView<R>,
> {
    Seq::new(runs, |i: int| cell_of(n, scale, model, i as usize))
}

/// The runs with one number of households and one tax scale, model by model.
pub open spec fn over_models<R: Number>(n: usize, scale: R, models: Seq<Seq<char>>, runs: nat) -> Seq<
    SweepCellView<R>,
>
    decreases models.len(),
{
    if models.len() == 0 {
        Seq::empty()
    } else {
        over_models(n, scale, models.drop_last(), runs) + repetitions(n, scale, models.last(), runs)
    }
}

/// The runs with one number of households, tax scale by tax scale.
pub open spec fn over_scales<R: Number>(
    n: usize,
    scales: Seq<R>,
    models: Seq<Seq<char>>,
    runs: nat,
) -> Seq<SweepCellView<R>>
    decreases scales.len(),
{
    if scales.len() == 0 {
        Seq::empty()
    } else {
        over_scales(n, scales.drop_last(), models, runs) + over_models(
            n,
            scales.last(),
            models,
            runs,
        )
    }
}

/// All runs of a sweep: each number of households with each tax scale with each model, repeated.
pub open spec fn plan_of<R: Number>(
    ns: Seq<usize>,
    scales: Seq<R>,
    models: Seq<Seq<char>>,
    runs: nat,
) -> Seq<SweepCellView<R>>
    decreases ns.len(),
{
    if ns.len() == 0 {
        Seq::empty()
    } else {
        plan_of(ns.drop_last(), scales, models, runs) + over_scales(ns.last(), scales, models, runs)
    }
}

/// What the cells of a list are.
pub open spec fn cells_view<R>(cells: Seq<SweepCell<R>>) -> Seq<SweepCellView<R>> {
    cells.map_values(|c: SweepCell<R>| c@)
}

fn plan_cell<R: Number>(n: usize, scale: R, model: &str, run: usize) -> (r: SweepCell<R>)
    ensures
        r@ == cell_of(n, scale, model@, run),
{
    let labels: Vec<u64> = vec![
        n as u64,
        label_hash(scale.to_text().as_str()),
        label_hash(model),
        run as u64,
    ];
    let r = SweepCell {
        n_agents: n,
        tax_scale: scale,
        llm_model: model.to_owned(),
        run,
        seed_labels: labels,
    };
    assert(r@.seed_labels =~= cell_of(n, scale, model@, run).seed_labels);
    r
}

fn plan_models<R: Number>(n: usize, scale: R, models: &[String], runs: usize) -> (r: Vec<SweepCell<R>>)
    ensures
        cells_view(r@) == over_models(n, scale, item_texts(models@), runs as nat),
{
    let mut out: Vec<SweepCell<R>> = Vec::new();
    let ghost names = item_texts(models@);
    for i in 0..models.len()
        invariant
            names == item_texts(models@),
            cells_view(out@) =~= over_models(n, scale, names.take(i as int), runs as nat),
    {
        let ghost before = cells_view(out@);
        let ghost here = repetitions(n, scale, names[i as int], runs as nat);
        for k in 0..runs
            invariant
                i < models.len(),
                names == item_texts(models@),
                here == repetitions(n, scale, names[i as int], runs as nat),
                cells_view(out@) =~= before + here.take(k as int),
        {
            let ghost planned = cells_view(out@);
            let cell = plan_cell(n, scale, models[i].as_str(), k);
            assert(cell@ == here[k as int]);
            out.push(cell);
            assert(cells_view(out@) =~= planned.push(here[k as int]));
        }
        assert(names.take(i + 1).drop_last() =~= names.take(i as int));
    }
    assert(names.take(models.len() as int) =~= names);
    out
}

fn plan_scales<R: Number>(n: usize, scales: &[R], models: &[String], runs: usize) -> (r: Vec<
    SweepCell<R>,
>)
    ensures
        cells_view(r@) == over_scales(n, scales@, item_texts(models@), runs as nat),
{
    let mut out: Vec<SweepCell<R>> = Vec::new();
    let ghost names = item_texts(models@);
    for i in 0..scales.len()
        invariant
            names == item_texts(models@),
            cells_view(out@) =~= over_scales(n, scales@.take(i as int), names, runs as nat),
    {
        let mut part = plan_models(n, scales[i], models, runs);
        out.append(&mut part);
        assert(scales@.take(i + 1).drop_last() =~= scales@.take(i as int));
    }
    assert(scales@.take(scales.len() as int) =~= scales@);
    out
}

/// Lays out a sweep.
pub fn sweep_plan<R: Number>(ns: &[usize], scales: &[R], models: &[String], runs: usize) -> (r: Vec<
    SweepCell<R>,
>)
    ensures
        cells_view(r@) == plan_of(ns@, scales@, item_texts(models@), runs as nat),
{
    let mut out: Vec<SweepCell<R>> = Vec::new();
    let ghost names = item_texts(models@);
    for i in 0..ns.len()
        invariant
            names == item_texts(models@),
            cells_view(out@) =~= plan_of(ns@.take(i as int), scales@, names, runs as nat),
    {
        let mut part = plan_scales(ns[i], scales, models, runs);
        out.append(&mut part);
        assert(ns@.take(i + 1).drop_last() =~= ns@.take(i as int));
    }
    assert(ns@.take(ns.len() as int) =~= ns@);
    out
}

/// The runs over all models.
pub proof fn lemma_over_models_len<R: Number>(n: usize, scale: R, models: Seq<Seq<char>>, runs: nat)
    ensures
        over_models(n, scale, models, runs).len() == models.len() * runs,
    decreases models.len(),
{
    if models.len() > 0 {
        lemma_over_models_len(n, scale, models.drop_last(), runs);
        assert((models.len() - 1) * runs + runs == models.len() * runs) by (nonlinear_arith);
    } else {
        assert(0 * runs == 0) by (nonlinear_arith);
    }
}

/// The runs over all tax scales.
pub proof fn lemma_over_scales_len<R: Number>(n: usize, scales: Seq<R>, models: Seq<Seq<char>>, runs: nat)
    ensures
        over_scales(n, scales, models, runs).len() == scales.len() * (models.len() * runs),
    decreases scales.len(),
{
    let each = models.len() * runs;
    if scales.len() > 0 {
        lemma_over_scales_len(n, scales.drop_last(), models, runs);
        lemma_over_models_len(n, scales.last(), models, runs);
        assert((scales.len() - 1) * each + each == scales.len() * each) by (nonlinear_arith);
    } else {
        assert(0 * each == 0) by (nonlinear_arith);
    }
}

/// A sweep has as many runs as there are combinations, times the repetitions.
pub proof fn law_plan_size<R: Number>(
    ns: Seq<usize>,
    scales: Seq<R>,
    models: Seq<Seq<char>>,
    runs: nat,
)
    ensures
        plan_of(ns, scales, models, runs).len() == ns.len() * (scales.len() * (models.len() * runs)),
    decreases ns.len(),
{
    let each = scales.len() * (models.len() * runs);
    if ns.len() > 0 {
        law_plan_size(ns.drop_last(), scales, models, runs);
        lemma_over_scales_len(ns.last(), scales, models, runs);
        assert((ns.len() - 1) * each + each == ns.len() * each) by (nonlinear_arith);
    } else {
        assert(0 * each == 0) by (nonlinear_arith);
    }
}

proof fn lemma_over_models_complete<R: Number>(
    n: usize,
    scale: R,
    models: Seq<Seq<char>>,
    runs: nat,
    m: int,
    run: usize,
)
    requires
        0 <= m < models.len(),
        run < runs,
    ensures
        over_models(n, scale, models, runs).contains(cell_of(n, scale, models[m], run)),
    decreases models.len(),
{
    let before = over_models(n, scale, models.drop_last(), runs);
    let here = repetitions(n, scale, models.last(), runs);
    let cell = cell_of(n, scale, models[m], run);
    if m == models.len() - 1 {
        assert((before + here)[before.len() + run] == cell);
    } else {
        lemma_over_models_complete(n, scale, models.drop_last(), runs, m, run);
        assert((before + here)[before.index_of(cell)] == cell);
    }
}

proof fn lemma_over_scales_complete<R: Number>(
    n: usize,
    scales: Seq<R>,
    models: Seq<Seq<char>>,
    runs: nat,
    c: int,
    m: int,
    run: usize,
)
    requires
        0 <= c < scales.len(),
        0 <= m < models.len(),
        run < runs,
    ensures
        over_scales(n, scales, models, runs).contains(cell_of(n, scales[c], models[m], run)),
    decreases scales.len(),
{
    let before = over_scales(n, scales.drop_last(), models, runs);
    let here = over_models(n, scales.last(), models, runs);
    let cell = cell_of(n, scales[c], models[m], run);
    if c == scales.len() - 1 {
        lemma_over_models_complete(n, scales[c], models, runs, m, run);
        assert((before + here)[before.len() + here.index_of(cell)] == cell);
    } else {
        lemma_over_scales_complete(n, scales.drop_last(), models, runs, c, m, run);
        assert((before + here)[before.index_of(cell)] == cell);
    }
}

/// A sweep misses no combination and no repetition.
pub proof fn law_plan_is_complete<R: Number>(
    ns: Seq<usize>,
    scales: Seq<R>,
    models: Seq<Seq<char>>,
    runs: nat,
    a: int,
    c: int,
    m: int,
    run: usize,
)
    requires
        0 <= a < ns.len(),
        0 <= c < scales.len(),
        0 <= m < models.len(),
        run < runs,
    ensures
        plan_of(ns, scales, models, runs).contains(cell_of(ns[a], scales[c], models[m], run)),
    decreases ns.len(),
{
    let before = plan_of(ns.drop_last(), scales, models, runs);
    let here = over_scales(ns.last(), scales, models, runs);
    let cell = cell_of(ns[a], scales[c], models[m], run);
    if a == ns.len() - 1 {
        lemma_over_scales_complete(ns[a], scales, models, runs, c, m, run);
        assert((before + here)[before.len() + here.index_of(cell)] == cell);
    } else {
        law_plan_is_complete(ns.drop_last(), scales, models, runs, a, c, m, run);
        assert((before + here)[before.index_of(cell)] == cell);
    }
}

/// The row of a sweep's summary: what one run came to.
pub struct SweepRow<R> {
    pub n_agents: usize,
    pub tax_scale: R,
    pub llm_model: String,
    pub regime: String,
    pub run: usize,
    pub seed: u64,
    pub final_month: usize,
    /// Mean inflation of the settled months.
    pub mean_inflation_3y: R,
    /// Mean unemployment of the settled months.
    pub mean_unemployment_3y: R,
    pub final_gdp: R,
    pub final_gini: R,
    pub mean_work_propensity: R,
    pub mean_consume_propensity: R,
    pub cache_hit_rate: R,
}

/// Mean inflation of the settled months.
pub open spec fn settled_inflation<R: Number>(metrics: Seq<MacroMetrics<R>>) -> R {
    mean_of(inflation_series(settled_rows(metrics)))
}

/// Mean unemployment of the settled months.
pub open spec fn settled_unemployment<R: Number>(metrics: Seq<MacroMetrics<R>>) -> R {
    mean_of(unemployment_series(settled_rows(metrics)))
}

/// Output of the last month; zero where there is none.
pub open spec fn last_gdp<R: Number>(metrics: Seq<MacroMetrics<R>>) -> R {
    if metrics.len() == 0 {
        R::lit(0, 0)
    } else {
        metrics.last().nominal_gdp
    }
}

/// Inequality of savings in the last month; zero where there is none.
pub open spec fn last_gini<R: Number>(metrics: Seq<MacroMetrics<R>>) -> R {
    if metrics.len() == 0 {
        R::lit(0, 0)
    } else {
        metrics.last().gini_savings
    }
}

/// What a run came to.
pub struct Digest<R> {
    pub inflation: R,
    pub unemployment: R,
    pub gdp: R,
    pub gini: R,
}

/// Sums up a run.
pub fn digest<R: Number>(metrics: &[MacroMetrics<R>]) -> (r: Digest<R>)
    ensures
        r.inflation == settled_inflation(metrics@),
        r.unemployment == settled_unemployment(metrics@),
        r.gdp == last_gdp(metrics@),
        r.gini == last_gini(metrics@),
{
    let rows = settled(metrics);
    let n: usize = metrics.len();
    Digest {
        inflation: mean(&inflation_rates(&rows)),
        unemployment: mean(&unemployment_rates(&rows)),
        gdp: if n == 0 {
            R::decimal(0, 0)
        } else {
            metrics[n - 1].nominal_gdp
        },
        gini: if n == 0 {
            R::decimal(0, 0)
        } else {
            metrics[n - 1].gini_savings
        },
    }
}

/// Sums up a run of a sweep.
pub fn summarize<R: Number>(
    result: &SimulationResult<R>,
    n_agents: usize,
    tax_scale: R,
    model: &str,
    regime: PolicyRegime,
    run_idx: usize,
    seed: u64,
) -> (r: SweepRow<R>)
    ensures
        r.n_agents == n_agents,
        r.tax_scale == tax_scale,
        r.llm_model@ == model@,
        r.regime@ == regime.name(),
        r.run == run_idx,
        r.seed == seed,
        r.final_month == result.final_month,
        r.mean_inflation_3y == settled_inflation(result.metrics_history@),
        r.mean_unemployment_3y == settled_unemployment(result.metrics_history@),
        r.final_gdp == last_gdp(result.metrics_history@),
        r.final_gini == last_gini(result.metrics_history@),
        r.mean_work_propensity == mean_of(
            result.metrics_history@.map_values(|m: MacroMetrics<R>| m.avg_work_propensity),
        ),
        r.mean_consume_propensity == mean_of(
            result.metrics_history@.map_values(|m: MacroMetrics<R>| m.avg_consume_propensity),
        ),
        r.cache_hit_rate == result.metadata.cache_hit_rate,
{
    let m = &result.metrics_history;
    let d = digest(m);
    let mut works: Vec<R> = Vec::new();
    let mut consumes: Vec<R> = Vec::new();
    for i in 0..m.len()
        invariant
            works@ =~= m@.take(i as int).map_values(|m: MacroMetrics<R>| m.avg_work_propensity),
            consumes@ =~= m@.take(i as int).map_values(
                |m: MacroMetrics<R>| m.avg_consume_propensity,
            ),
    {
        works.push(m[i].avg_work_propensity);
        consumes.push(m[i].avg_consume_propensity);
    }
    assert(m@.take(m.len() as int) =~= m@);
    SweepRow {
        n_agents,
        tax_scale,
        llm_model: model.to_owned(),
        regime: regime.label().to_owned(),
        run: run_idx,
        seed,
        final_month: result.final_month,
        mean_inflation_3y: d.inflation,
        mean_unemployment_3y: d.unemployment,
        final_gdp: d.gdp,
        final_gini: d.gini,
        mean_work_propensity: mean(&works),
        mean_consume_propensity: mean(&consumes),
        cache_hit_rate: result.metadata.cache_hit_rate,
    }
}

/// The rows of a summary at a tax scale.
pub open spec fn rows_at<R: Number>(rows: Seq<SweepRow<R>>, tax_scale: R) -> Seq<SweepRow<R>> {
    rows.filter(
        |row: SweepRow<R>| row.tax_scale.sub(tax_scale).magnitude().below(R::lit(1, 9)),
    )
}

/// What the runs at a tax scale came to.
#[derive(Clone, Copy)]
pub struct ScaleDigest<R> {
    pub gini: R,
    pub unemployment: R,
}

/// Sums up the runs at a tax scale, if there are any.
pub fn summarize_scale<R: Number>(rows: &[SweepRow<R>], tax_scale: R) -> (r: Option<ScaleDigest<R>>)
    ensures
        match r {
            Some(d) => {
                &&& rows_at(rows@, tax_scale).len() > 0
                &&& d.gini == mean_of(
                    rows_at(rows@, tax_scale).map_values(|row: SweepRow<R>| row.final_gini),
                )
                &&& d.unemployment == mean_of(
                    rows_at(rows@, tax_scale).map_values(|row: SweepRow<R>| row.mean_unemployment_3y),
                )
            },
            None => rows_at(rows@, tax_scale).len() == 0,
        },
{
    let mut ginis: Vec<R> = Vec::new();
    let mut rates: Vec<R> = Vec::new();
    let ghost near = |row: SweepRow<R>|
        row.tax_scale.sub(tax_scale).magnitude().below(R::lit(1, 9));
    for i in 0..rows.len()
        invariant
            near == (|row: SweepRow<R>|
                row.tax_scale.sub(tax_scale).magnitude().below(R::lit(1, 9))),
            ginis@ =~= rows@.take(i as int).filter(near).map_values(|row: SweepRow<R>| row.final_gini),
            rates@ =~= rows@.take(i as int).filter(near).map_values(
                |row: SweepRow<R>| row.mean_unemployment_3y,
            ),
    {
        proof {
            reveal(Seq::filter);
            assert(rows@.take(i + 1).drop_last() =~= rows@.take(i as int));
        }
        let row = &rows[i];
        if row.tax_scale.minus(tax_scale).abs().lt(R::decimal(1, 9)) {
            ginis.push(row.final_gini);
            rates.push(row.mean_unemployment_3y);
        }
    }
    assert(rows@.take(rows.len() as int) =~= rows@);
    if ginis.len() == 0 {
        None
    } else {
        Some(ScaleDigest { gini: mean(&ginis), unemployment: mean(&rates) })
    }
}

} // verus!
