//! What a household is asked, and how its answer is read.
//!
//! A decision prompt shows a household its own situation, the state of the economy and its recent
//! memories, and asks for two probabilities as JSON. An answer that is not the JSON object that
//! was asked for is searched for numbers instead.

use vstd::prelude::*;

use crate::json::{json_members, member_from, members_view, read_object, JsonField, JsonFieldView};
use crate::number::{number_in, read_number, Number};
use crate::text::{
    chars_of, end_of_run, in_number, lemma_run_end, number_char, numeral, numeral_text, run_end,
    same_text, trim, trimmed,
};
use crate::world::{snap_probability, snapped, texts, Household, HouseholdView, MacroEnv, MacroEnvView};

verus! {

pub const DECISION_OPENING: &'static str =
    "You are an economic agent (a worker-consumer) in a simulated macroeconomy. \
     Each month you decide (1) your willingness to work and (2) what fraction of your \
     wealth to consume. Reason like a rational but human household.\n\n";

pub const DECISION_CLOSING: &'static str =
    "\n## Decision\n\
     Decide your willingness to work this month and the fraction of wealth to consume. \
     Both are probabilities between 0 and 1 (higher work = more likely to take a job; \
     higher consume = spend a larger share of savings).\n\
     Answer with JSON only, e.g. {\"work\": 0.80, \"consume\": 0.40}\n";

pub const REFLECTION_OPENING: &'static str =
    "You are an economic agent reflecting on the past quarter. Summarize, in one or two \
     sentences, what you have learned about the economy and how it should guide your future \
     work and consumption decisions.\n\n";

/// The status line of a household.
pub open spec fn status_of(employed: bool) -> Seq<char> {
    if employed {
        "employed last month"@
    } else {
        "unemployed last month"@
    }
}

/// Notes as a bulleted list.
pub open spec fn bullets(notes: Seq<Seq<char>>) -> Seq<char>
    decreases notes.len(),
{
    if notes.len() == 0 {
        Seq::empty()
    } else {
        bullets(notes.drop_last()) + "- "@ + notes.last() + "\n"@
    }
}

/// The profile of a household.
pub open spec fn profile_of<R: Number>(h: HouseholdView<R>) -> Seq<char> {
    "## Your profile\n"@ + "- Age: "@ + numeral(h.age) + " years\n"@ + "- Hourly wage: "@ + h.wage.text(2)
        + "\n"@ + "- Savings: "@ + h.savings.text(2) + "\n"@ + "- Status: "@ + status_of(
        h.employed_prev,
    ) + "\n"@ + "- Last month consumption: "@ + h.last_consumption.text(2) + ", tax paid: "@
        + h.last_tax.text(2) + "\n"@
}

/// The state of the economy.
pub open spec fn economy_of<R: Number>(env: MacroEnvView<R>, unemployment: R, inflation: R) -> Seq<char> {
    "\n## Current economy\n"@ + "- Price level: "@ + env.price.text(3) + "\n"@ + "- Interest rate: "@
        + env.interest_rate.text(3) + "\n"@ + "- Unemployment rate: "@ + unemployment.text(3) + "\n"@
        + "- Annual inflation: "@ + inflation.text(3) + "\n"@
        + "- Per-capita redistribution last month: "@ + env.redistribution.text(2) + "\n"@
}

/// The last reflection, where there is one.
pub open spec fn reflection_section(reflection: Seq<char>) -> Seq<char> {
    if reflection.len() == 0 {
        Seq::empty()
    } else {
        "\n## Your recent reflection\n"@ + reflection + "\n"@
    }
}

/// The recent months under a heading, where there are any.
pub open spec fn memory_section(heading: Seq<char>, memory: Seq<Seq<char>>) -> Seq<char> {
    if memory.len() == 0 {
        Seq::empty()
    } else {
        heading + bullets(memory)
    }
}

/// The prompt that asks a household for its decision.
pub open spec fn decision_text<R: Number>(
    h: HouseholdView<R>,
    env: MacroEnvView<R>,
    unemployment: R,
    inflation: R,
) -> Seq<char> {
    DECISION_OPENING@ + profile_of(h) + economy_of(env, unemployment, inflation)
        + reflection_section(h.reflection) + memory_section("\n## Recent months\n"@, h.memory)
        + DECISION_CLOSING@
}

fn write_profile<R: Number>(h: &Household<R>) -> (r: String)
    ensures
        r@ == profile_of(h@),
{
    let mut s = "## Your profile\n".to_owned();
    s.append("- Age: ");
    s.append(numeral_text(h.age as u128).as_str());
    s.append(" years\n");
    s.append("- Hourly wage: ");
    s.append(h.wage.to_fixed(2).as_str());
    s.append("\n");
    s.append("- Savings: ");
    s.append(h.savings.to_fixed(2).as_str());
    s.append("\n");
    s.append("- Status: ");
    s.append(if h.employed_prev { "employed last month" } else { "unemployed last month" });
    s.append("\n");
    s.append("- Last month consumption: ");
    s.append(h.last_consumption.to_fixed(2).as_str());
    s.append(", tax paid: ");
    s.append(h.last_tax.to_fixed(2).as_str());
    s.append("\n");
    s
}

fn write_economy<R: Number>(env: &MacroEnv<R>, unemployment: R, inflation: R) -> (r: String)
    ensures
        r@ == economy_of(env@, unemployment, inflation),
{
    let mut s = "\n## Current economy\n".to_owned();
    s.append("- Price level: ");
    s.append(env.price.to_fixed(3).as_str());
    s.append("\n");
    s.append("- Interest rate: ");
    s.append(env.interest_rate.to_fixed(3).as_str());
    s.append("\n");
    s.append("- Unemployment rate: ");
    s.append(unemployment.to_fixed(3).as_str());
    s.append("\n");
    s.append("- Annual inflation: ");
    s.append(inflation.to_fixed(3).as_str());
    s.append("\n");
    s.append("- Per-capita redistribution last month: ");
    s.append(env.redistribution.to_fixed(2).as_str());
    s.append("\n");
    s
}

fn write_memory(heading: &str, memory: &Vec<String>) -> (r: String)
    ensures
        r@ == memory_section(heading@, texts(memory@)),
{
    if memory.len() == 0 {
        return String::new();
    }
    let mut s = heading.to_owned();
    assert(s@ =~= heading@ + bullets(texts(memory@).take(0)));
    for i in 0..memory.len()
        invariant
            s@ == heading@ + bullets(texts(memory@).take(i as int)),
    {
        s.append("- ");
        s.append(memory[i].as_str());
        s.append("\n");
        proof {
            assert(texts(memory@).take(i + 1).drop_last() =~= texts(memory@).take(i as int));
            assert(s@ =~= heading@ + bullets(texts(memory@).take(i + 1)));
        }
    }
    assert(texts(memory@).take(memory.len() as int) =~= texts(memory@));
    s
}

pub fn decision_prompt<R: Number>(
    household: &Household<R>,
    env: &MacroEnv<R>,
    unemployment: R,
    inflation: R,
) -> (r: String)
    ensures
        r@ == decision_text(household@, env@, unemployment, inflation),
{
    let mut s = DECISION_OPENING.to_owned();
    s.append(write_profile(household).as_str());
    s.append(write_economy(env, unemployment, inflation).as_str());
    let ghost shown = s@;
    if !household.reflection.as_str().is_empty() {
        s.append("\n## Your recent reflection\n");
        s.append(household.reflection.as_str());
        s.append("\n");
    }
    assert(s@ =~= shown + reflection_section(household@.reflection));
    s.append(write_memory("\n## Recent months\n", &household.memory).as_str());
    s.append(DECISION_CLOSING);
    s
}

/// The prompt that asks a household to reflect on a quarter.
pub open spec fn reflection_text<R: Number>(h: HouseholdView<R>) -> Seq<char> {
    REFLECTION_OPENING@ + "Your profile: age "@ + numeral(h.age) + ", hourly wage "@ + h.wage.text(2)
        + ", savings "@ + h.savings.text(2) + ".\n"@ + memory_section("Recent months:\n"@, h.memory)
        + "\nReflection:"@
}

pub fn reflection_prompt<R: Number>(household: &Household<R>) -> (r: String)
    ensures
        r@ == reflection_text(household@),
{
    let mut s = REFLECTION_OPENING.to_owned();
    s.append("Your profile: age ");
    s.append(numeral_text(household.age as u128).as_str());
    s.append(", hourly wage ");
    s.append(household.wage.to_fixed(2).as_str());
    s.append(", savings ");
    s.append(household.savings.to_fixed(2).as_str());
    s.append(".\n");
    s.append(write_memory("Recent months:\n", &household.memory).as_str());
    s.append("\nReflection:");
    s
}

/// The end of what lies between two positions of a text, without the points at its end.
pub open spec fn without_points(s: Seq<char>, start: int, end: int) -> int
    decreases end - start,
{
    if start < end && s[end - 1] == '.' {
        without_points(s, start, end - 1)
    } else {
        end
    }
}

/// The numbers that stand in a text from position `i` on: each run of digits and points, with a
/// minus sign before it if there is one, that stands for a number once the points at its end are
/// left out. The character that ends a run belongs to no number.
pub open spec fn numbers_from<R: Number>(s: Seq<char>, i: int) -> Seq<R>
    decreases s.len() - i + 1,
{
    if i >= s.len() {
        Seq::empty()
    } else if in_number(s[i]) || s[i] == '-' {
        proof {
            lemma_run_end(s, i + 1);
        }
        let end = run_end(s, i + 1);
        let rest = numbers_from(s, end + 1);
        match number_in::<R>(s.subrange(i, without_points(s, i, end))) {
            Some(x) => seq![x] + rest,
            None => rest,
        }
    } else {
        numbers_from(s, i + 1)
    }
}

fn drop_points(v: &Vec<char>, start: usize, end: usize) -> (r: usize)
    requires
        start <= end <= v.len(),
    ensures
        r == without_points(v@, start as int, end as int),
        start <= r <= end,
{
    let mut r: usize = end;
    while start < r && v[r - 1] == '.'
        invariant
            start <= r <= end <= v.len(),
            without_points(v@, start as int, end as int) == without_points(
                v@,
                start as int,
                r as int,
            ),
        decreases r,
    {
        r = r - 1;
    }
    r
}

pub fn extract_floats<R: Number>(text: &str) -> (r: Vec<R>)
    ensures
        r@ == numbers_from::<R>(text@, 0),
{
    let v = chars_of(text);
    let n: usize = v.len();
    let mut out: Vec<R> = Vec::new();
    let mut i: usize = 0;
    assert(out@ + numbers_from::<R>(text@, 0) =~= numbers_from::<R>(text@, 0));
    while i < n
        invariant
            v@ == text@,
            n == v.len(),
            out@ + numbers_from::<R>(text@, i as int) == numbers_from::<R>(text@, 0),
        decreases n - i,
    {
        if number_char(v[i]) || v[i] == '-' {
            let end = end_of_run(&v, i + 1);
            let last = drop_points(&v, i, end);
            let ghost before = out@;
            let ghost rest = numbers_from::<R>(text@, end + 1);
            if let Some(x) = read_number::<R>(text.substring_char(i, last)) {
                out.push(x);
                assert(out@ + rest =~= before + (seq![x] + rest));
            }
            if end == n {
                assert(numbers_from::<R>(text@, end + 1) =~= numbers_from::<R>(text@, end as int));
                i = end;
            } else {
                i = end + 1;
            }
        } else {
            i = i + 1;
        }
    }
    assert(out@ + numbers_from::<R>(text@, i as int) =~= out@);
    out
}

/// The number that a member holds, as a number or as a text.
pub open spec fn field_number<R: Number>(field: JsonFieldView) -> Option<R> {
    match field {
        JsonFieldView::Number(t) => number_in(t),
        JsonFieldView::Text(t) => number_in(trimmed(t)),
        JsonFieldView::Other => None,
    }
}

/// The number under a key.
pub open spec fn key_number<R: Number>(
    members: Seq<(Seq<char>, JsonFieldView)>,
    key: Seq<char>,
) -> Option<R> {
    match member_from(members, key, 0) {
        Some(field) => field_number(field),
        None => None,
    }
}

/// The number under the first of some keys that holds one.
pub open spec fn first_number<R: Number>(
    members: Seq<(Seq<char>, JsonFieldView)>,
    keys: Seq<Seq<char>>,
) -> Option<R>
    decreases keys.len(),
{
    if keys.len() == 0 {
        None
    } else {
        match key_number::<R>(members, keys[0]) {
            Some(x) => Some(x),
            None => first_number(members, keys.drop_first()),
        }
    }
}

/// The names under which a reply may give the willingness to work.
pub open spec fn work_keys() -> Seq<Seq<char>> {
    seq!["work"@, "p_work"@, "willingness_to_work"@, "labor"@]
}

/// The names under which a reply may give the share to consume.
pub open spec fn consume_keys() -> Seq<Seq<char>> {
    seq!["consume"@, "p_consume"@, "consumption"@, "consume_fraction"@]
}

fn number_under<R: Number>(members: &Vec<(String, JsonField)>, key: &str) -> (r: Option<R>)
    ensures
        r == key_number::<R>(members_view(members@), key@),
{
    let ghost view = members_view(members@);
    for i in 0..members.len()
        invariant
            view == members_view(members@),
            member_from(view, key@, 0) == member_from(view, key@, i as int),
    {
        assert(view[i as int] == (members@[i as int].0@, members@[i as int].1@));
        if same_text(members[i].0.as_str(), key) {
            return match &members[i].1 {
                JsonField::Number(t) => read_number(t.as_str()),
                JsonField::Text(t) => read_number(trim(t.as_str())),
                JsonField::Other => None,
            };
        }
    }
    None
}

/// The texts of a list of keys.
pub open spec fn key_texts(keys: Seq<&str>) -> Seq<Seq<char>> {
    keys.map_values(|k: &str| k@)
}

pub fn lookup_number<R: Number>(members: &Vec<(String, JsonField)>, keys: &[&str]) -> (r: Option<R>)
    ensures
        r == first_number::<R>(members_view(members@), key_texts(keys@)),
{
    let ghost view = members_view(members@);
    let ghost all = key_texts(keys@);
    assert(all.skip(0) =~= all);
    for i in 0..keys.len()
        invariant
            view == members_view(members@),
            all == key_texts(keys@),
            first_number::<R>(view, all) == first_number::<R>(view, all.skip(i as int)),
    {
        assert(all.skip(i as int).drop_first() =~= all.skip(i + 1));
        if let Some(x) = number_under::<R>(members, keys[i]) {
            return Some(x);
        }
    }
    None
}

/// The decision that the members of a JSON object state.
pub open spec fn stated_decision<R: Number>(members: Seq<(Seq<char>, JsonFieldView)>) -> Option<(R, R)> {
    match (first_number::<R>(members, work_keys()), first_number::<R>(members, consume_keys())) {
        (Some(work), Some(consume)) => Some((work, consume)),
        _ => None,
    }
}

/// Reads a decision off the members of a JSON object.
pub fn decision_of_members<R: Number>(members: &Vec<(String, JsonField)>) -> (r: Option<(R, R)>)
    ensures
        r == stated_decision::<R>(members_view(members@)),
{
    let work = ["work", "p_work", "willingness_to_work", "labor"];
    let consume = ["consume", "p_consume", "consumption", "consume_fraction"];
    assert(key_texts(work@) =~= work_keys());
    assert(key_texts(consume@) =~= consume_keys());
    match (lookup_number::<R>(members, &work), lookup_number::<R>(members, &consume)) {
        (Some(w), Some(c)) => Some((w, c)),
        _ => None,
    }
}

/// The part of a text from its first opening brace to its last closing brace.
pub open spec fn braced(s: Seq<char>) -> Option<Seq<char>> {
    match (s.index_of_first('{'), s.index_of_last('}')) {
        (Some(start), Some(end)) => if end < start {
            None
        } else {
            Some(s.subrange(start, end + 1))
        },
        _ => None,
    }
}

fn braced_part(text: &str) -> (r: Option<&str>)
    ensures
        match r {
            Some(part) => braced(text@) == Some(part@),
            None => braced(text@) is None,
        },
{
    let v = chars_of(text);
    let n: usize = v.len();
    proof {
        text@.index_of_first_ensures('{');
        text@.index_of_last_ensures('}');
    }
    let mut start: usize = 0;
    while start < n && v[start] != '{'
        invariant
            v@ == text@,
            n == v.len(),
            start <= n,
            forall|k: int| 0 <= k < start ==> text@[k] != '{',
        decreases n - start,
    {
        start = start + 1;
    }
    if start == n {
        return None;
    }
    assert(text@.index_of_first('{') == Some(start as int)) by {
        assert(text@.contains(text@[start as int]));
    }
    let mut end: usize = n;
    while end > 0 && v[end - 1] != '}'
        invariant
            v@ == text@,
            n == v.len(),
            end <= n,
            forall|k: int| end <= k < n ==> text@[k] != '}',
        decreases end,
    {
        end = end - 1;
    }
    if end == 0 {
        return None;
    }
    assert(text@.index_of_last('}') == Some(end - 1)) by {
        assert(text@.contains(text@[end - 1]));
    }
    if end - 1 < start {
        return None;
    }
    Some(text.substring_char(start, end))
}

/// The decision that a text states as JSON, with prose around it or not.
pub open spec fn json_decision<R: Number>(text: Seq<char>) -> Option<(R, R)> {
    match braced(text) {
        Some(part) => match json_members(part) {
            Some(members) => stated_decision(members),
            None => None,
        },
        None => None,
    }
}

pub fn parse_json_decision<R: Number>(text: &str) -> (r: Option<(R, R)>)
    ensures
        r == json_decision::<R>(text@),
{
    match braced_part(text) {
        Some(part) => match read_object(part) {
            Some(members) => decision_of_members(&members),
            None => None,
        },
        None => None,
    }
}

/// The decision to act on, from what was stated as JSON and from the numbers in the text: the
/// stated one, else the first two numbers, else an even chance for both.
pub open spec fn settled_decision<R: Number>(stated: Option<(R, R)>, numbers: Seq<R>) -> (R, R) {
    match stated {
        Some((work, consume)) => (snapped(work), snapped(consume)),
        None => if numbers.len() >= 2 {
            (snapped(numbers[0]), snapped(numbers[1]))
        } else {
            (R::lit(5, 1), R::lit(5, 1))
        },
    }
}

/// Settles on a decision.
pub fn settle_decision<R: Number>(stated: Option<(R, R)>, numbers: &[R]) -> (r: (R, R))
    ensures
        r == settled_decision(stated, numbers@),
{
    if let Some((work, consume)) = stated {
        return (snap_probability(work), snap_probability(consume));
    }
    if numbers.len() >= 2 {
        return (snap_probability(numbers[0]), snap_probability(numbers[1]));
    }
    (R::decimal(5, 1), R::decimal(5, 1))
}

/// The decision that a reply stands for: willingness to work, and share to consume.
pub open spec fn decision_of<R: Number>(text: Seq<char>) -> (R, R) {
    settled_decision(json_decision::<R>(text), numbers_from::<R>(text, 0))
}

pub fn parse_decision<R: Number>(text: &str) -> (r: (R, R))
    ensures
        r == decision_of::<R>(text@),
{
    settle_decision(parse_json_decision::<R>(text), &extract_floats::<R>(text))
}

} // verus!
