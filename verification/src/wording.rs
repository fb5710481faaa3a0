//! What prompts and notes say.

use vstd::prelude::*;

use crate::mechanisms::note_on;
use crate::number::Number;
use crate::prompts::{
    bullets, decision_text, economy_of, memory_section, profile_of, reflection_section,
    reflection_text, DECISION_CLOSING, DECISION_OPENING, REFLECTION_OPENING,
};
use crate::text::{numeral, stands_at};
use crate::world::{HouseholdView, MacroEnvView};

verus! {

/// Whether a text stands in another.
pub open spec fn holds(text: Seq<char>, part: Seq<char>) -> bool {
    exists|i: int| stands_at(text, part, i)
}

proof fn lemma_part(before: Seq<char>, part: Seq<char>, behind: Seq<char>)
    ensures
        holds(before + part + behind, part),
{
    let all = before + part + behind;
    let i = before.len() as int;
    assert(all.subrange(i, i + part.len() as int) =~= part);
    assert(stands_at(all, part, i));
}

proof fn lemma_within(before: Seq<char>, text: Seq<char>, behind: Seq<char>, part: Seq<char>)
    requires
        holds(text, part),
    ensures
        holds(before + text + behind, part),
{
    let i = choose|i: int| stands_at(text, part, i);
    let all = before + text + behind;
    let j = before.len() + i;
    assert(all.subrange(j, j + part.len() as int) =~= text.subrange(i, i + part.len() as int));
    assert(stands_at(all, part, j));
}

proof fn lemma_profile<R: Number>(h: HouseholdView<R>)
    ensures
        holds(profile_of(h), "- Age: "@ + numeral(h.age) + " years\n"@),
        holds(profile_of(h), "- Hourly wage: "@ + h.wage.text(2) + "\n"@),
        holds(profile_of(h), "- Savings: "@ + h.savings.text(2) + "\n"@),
        holds(
            profile_of(h),
            "- Status: "@ + (if h.employed_prev {
                "employed last month"@
            } else {
                "unemployed last month"@
            }) + "\n"@,
        ),
        holds(
            profile_of(h),
            "- Last month consumption: "@ + h.last_consumption.text(2) + ", tax paid: "@
                + h.last_tax.text(2) + "\n"@,
        ),
{
    let age = "- Age: "@ + numeral(h.age) + " years\n"@;
    let wage = "- Hourly wage: "@ + h.wage.text(2) + "\n"@;
    let savings = "- Savings: "@ + h.savings.text(2) + "\n"@;
    let status = "- Status: "@ + (if h.employed_prev {
        "employed last month"@
    } else {
        "unemployed last month"@
    }) + "\n"@;
    let paid = "- Last month consumption: "@ + h.last_consumption.text(2) + ", tax paid: "@
        + h.last_tax.text(2) + "\n"@;
    let head = "## Your profile\n"@;
    let told = if h.employed_prev {
        "employed last month"@
    } else {
        "unemployed last month"@
    };
    lemma_line(head, "- Age: "@, numeral(h.age), " years\n"@);
    lemma_line(head + age, "- Hourly wage: "@, h.wage.text(2), "\n"@);
    lemma_line(head + age + wage, "- Savings: "@, h.savings.text(2), "\n"@);
    lemma_line(head + age + wage + savings, "- Status: "@, told, "\n"@);
    let first = "- Last month consumption: "@ + h.last_consumption.text(2) + ", tax paid: "@;
    let above = head + age + wage + savings + status;
    lemma_line(
        above,
        "- Last month consumption: "@,
        h.last_consumption.text(2),
        ", tax paid: "@,
    );
    lemma_line(above, first, h.last_tax.text(2), "\n"@);
    assert(profile_of(h) == head + age + wage + savings + status + paid);
    lemma_lines(head, age, wage, savings, status, paid);
}

proof fn lemma_line(above: Seq<char>, name: Seq<char>, value: Seq<char>, end: Seq<char>)
    ensures
        above + name + value + end == above + (name + value + end),
{
    assert(above + name + value + end =~= above + (name + value + end));
}

proof fn lemma_lines(
    head: Seq<char>,
    a: Seq<char>,
    b: Seq<char>,
    c: Seq<char>,
    d: Seq<char>,
    e: Seq<char>,
)
    ensures
        holds(head + a + b + c + d + e, a),
        holds(head + a + b + c + d + e, b),
        holds(head + a + b + c + d + e, c),
        holds(head + a + b + c + d + e, d),
        holds(head + a + b + c + d + e, e),
{
    let all = head + a + b + c + d + e;
    assert(all =~= head + a + (b + c + d + e));
    lemma_part(head, a, b + c + d + e);
    assert(all =~= (head + a) + b + (c + d + e));
    lemma_part(head + a, b, c + d + e);
    assert(all =~= (head + a + b) + c + (d + e));
    lemma_part(head + a + b, c, d + e);
    lemma_part(head + a + b + c, d, e);
    assert(all =~= (head + a + b + c + d) + e + Seq::empty());
    lemma_part(head + a + b + c + d, e, Seq::empty());
}

proof fn lemma_economy<R: Number>(env: MacroEnvView<R>, unemployment: R, inflation: R)
    ensures
        holds(
            economy_of(env, unemployment, inflation),
            "- Price level: "@ + env.price.text(3) + "\n"@,
        ),
        holds(
            economy_of(env, unemployment, inflation),
            "- Interest rate: "@ + env.interest_rate.text(3) + "\n"@,
        ),
        holds(
            economy_of(env, unemployment, inflation),
            "- Unemployment rate: "@ + unemployment.text(3) + "\n"@,
        ),
        holds(
            economy_of(env, unemployment, inflation),
            "- Annual inflation: "@ + inflation.text(3) + "\n"@,
        ),
        holds(
            economy_of(env, unemployment, inflation),
            "- Per-capita redistribution last month: "@ + env.redistribution.text(2) + "\n"@,
        ),
{
    let price = "- Price level: "@ + env.price.text(3) + "\n"@;
    let interest = "- Interest rate: "@ + env.interest_rate.text(3) + "\n"@;
    let idle = "- Unemployment rate: "@ + unemployment.text(3) + "\n"@;
    let rise = "- Annual inflation: "@ + inflation.text(3) + "\n"@;
    let share = "- Per-capita redistribution last month: "@ + env.redistribution.text(2) + "\n"@;
    let head = "\n## Current economy\n"@;
    lemma_line(head, "- Price level: "@, env.price.text(3), "\n"@);
    lemma_line(head + price, "- Interest rate: "@, env.interest_rate.text(3), "\n"@);
    lemma_line(head + price + interest, "- Unemployment rate: "@, unemployment.text(3), "\n"@);
    lemma_line(head + price + interest + idle, "- Annual inflation: "@, inflation.text(3), "\n"@);
    lemma_line(
        head + price + interest + idle + rise,
        "- Per-capita redistribution last month: "@,
        env.redistribution.text(2),
        "\n"@,
    );
    assert(economy_of(env, unemployment, inflation) == head + price + interest + idle + rise
        + share);
    lemma_lines(head, price, interest, idle, rise, share);
}

/// A household that is asked for its decision is told its age, its wage, its savings, whether it
/// worked, what it consumed and what tax it paid.
pub proof fn law_prompts_state_the_profile<R: Number>(
    h: HouseholdView<R>,
    env: MacroEnvView<R>,
    unemployment: R,
    inflation: R,
)
    ensures
        ({
            let text = decision_text(h, env, unemployment, inflation);
            &&& holds(text, "- Age: "@ + numeral(h.age) + " years\n"@)
            &&& holds(text, "- Hourly wage: "@ + h.wage.text(2) + "\n"@)
            &&& holds(text, "- Savings: "@ + h.savings.text(2) + "\n"@)
            &&& h.employed_prev ==> holds(text, "- Status: "@ + "employed last month"@ + "\n"@)
            &&& !h.employed_prev ==> holds(text, "- Status: "@ + "unemployed last month"@ + "\n"@)
            &&& holds(
                text,
                "- Last month consumption: "@ + h.last_consumption.text(2) + ", tax paid: "@
                    + h.last_tax.text(2) + "\n"@,
            )
        }),
{
    lemma_profile(h);
    let all = decision_text(h, env, unemployment, inflation);
    let behind = economy_of(env, unemployment, inflation) + reflection_section(h.reflection)
        + memory_section("\n## Recent months\n"@, h.memory) + DECISION_CLOSING@;
    let (before, here) = (DECISION_OPENING@, profile_of(h));
    assert(all =~= before + here + behind);
    lemma_within(before, here, behind, "- Age: "@ + numeral(h.age) + " years\n"@);
    lemma_within(before, here, behind, "- Hourly wage: "@ + h.wage.text(2) + "\n"@);
    lemma_within(before, here, behind, "- Savings: "@ + h.savings.text(2) + "\n"@);
    let status = "- Status: "@ + (if h.employed_prev {
        "employed last month"@
    } else {
        "unemployed last month"@
    }) + "\n"@;
    lemma_within(before, here, behind, status);
    let paid = "- Last month consumption: "@ + h.last_consumption.text(2) + ", tax paid: "@
        + h.last_tax.text(2) + "\n"@;
    lemma_within(before, here, behind, paid);
}

/// It is told the price, the interest, the redistribution, and unemployment and inflation as all
/// perceive them.
pub proof fn law_prompts_state_the_economy<R: Number>(
    h: HouseholdView<R>,
    env: MacroEnvView<R>,
    unemployment: R,
    inflation: R,
)
    ensures
        ({
            let text = decision_text(h, env, unemployment, inflation);
            &&& holds(text, "- Price level: "@ + env.price.text(3) + "\n"@)
            &&& holds(text, "- Interest rate: "@ + env.interest_rate.text(3) + "\n"@)
            &&& holds(text, "- Unemployment rate: "@ + unemployment.text(3) + "\n"@)
            &&& holds(text, "- Annual inflation: "@ + inflation.text(3) + "\n"@)
            &&& holds(
                text,
                "- Per-capita redistribution last month: "@ + env.redistribution.text(2) + "\n"@,
            )
        }),
{
    lemma_economy(env, unemployment, inflation);
    let all = decision_text(h, env, unemployment, inflation);
    let before = DECISION_OPENING@ + profile_of(h);
    let here = economy_of(env, unemployment, inflation);
    let behind = reflection_section(h.reflection) + memory_section(
        "\n## Recent months\n"@,
        h.memory,
    ) + DECISION_CLOSING@;
    assert(all =~= before + here + behind);
    lemma_within(before, here, behind, "- Price level: "@ + env.price.text(3) + "\n"@);
    lemma_within(before, here, behind, "- Interest rate: "@ + env.interest_rate.text(3) + "\n"@);
    lemma_within(before, here, behind, "- Unemployment rate: "@ + unemployment.text(3) + "\n"@);
    lemma_within(before, here, behind, "- Annual inflation: "@ + inflation.text(3) + "\n"@);
    lemma_within(
        before,
        here,
        behind,
        "- Per-capita redistribution last month: "@ + env.redistribution.text(2) + "\n"@,
    );
}

proof fn lemma_bullet(notes: Seq<Seq<char>>, i: int)
    requires
        0 <= i < notes.len(),
    ensures
        holds(bullets(notes), "- "@ + notes[i] + "\n"@),
    decreases notes.len(),
{
    let line = "- "@ + notes[i] + "\n"@;
    let rest = bullets(notes.drop_last());
    let last = "- "@ + notes.last() + "\n"@;
    assert(bullets(notes) =~= rest + last + Seq::empty());
    if i == notes.len() - 1 {
        lemma_part(rest, line, Seq::empty());
    } else {
        lemma_bullet(notes.drop_last(), i);
        lemma_within(Seq::empty(), rest, last, line);
        assert(bullets(notes) =~= Seq::empty() + rest + last);
    }
}

/// It is reminded of its reflection and of every month that it remembers, and asked for JSON. What
/// it does not have is not mentioned.
pub proof fn law_prompts_recall<R: Number>(
    h: HouseholdView<R>,
    env: MacroEnvView<R>,
    unemployment: R,
    inflation: R,
    i: int,
)
    ensures
        ({
            let text = decision_text(h, env, unemployment, inflation);
            &&& holds(text, DECISION_CLOSING@)
            &&& h.reflection.len() > 0 ==> holds(
                text,
                "\n## Your recent reflection\n"@ + h.reflection + "\n"@,
            )
            &&& h.memory.len() > 0 ==> holds(text, "\n## Recent months\n"@)
            &&& 0 <= i < h.memory.len() ==> holds(text, "- "@ + h.memory[i] + "\n"@)
            &&& h.reflection.len() == 0 && h.memory.len() == 0 ==> text == DECISION_OPENING@
                + profile_of(h) + economy_of(env, unemployment, inflation) + DECISION_CLOSING@
        }),
{
    let all = decision_text(h, env, unemployment, inflation);
    let before = DECISION_OPENING@ + profile_of(h) + economy_of(env, unemployment, inflation);
    let recalled = reflection_section(h.reflection);
    let head = "\n## Recent months\n"@;
    let memory = memory_section(head, h.memory);
    assert(all =~= (before + recalled + memory) + DECISION_CLOSING@ + Seq::empty());
    lemma_part(before + recalled + memory, DECISION_CLOSING@, Seq::empty());
    if h.reflection.len() > 0 {
        assert(all =~= before + recalled + (memory + DECISION_CLOSING@));
        lemma_part(before, recalled, memory + DECISION_CLOSING@);
    }
    if h.memory.len() > 0 {
        let lines = bullets(h.memory);
        assert(all =~= (before + recalled) + head + (lines + DECISION_CLOSING@));
        lemma_part(before + recalled, head, lines + DECISION_CLOSING@);
        if 0 <= i < h.memory.len() {
            lemma_bullet(h.memory, i);
            assert(all =~= (before + recalled + head) + lines + DECISION_CLOSING@);
            lemma_within(
                before + recalled + head,
                lines,
                DECISION_CLOSING@,
                "- "@ + h.memory[i] + "\n"@,
            );
        }
    }
    if h.reflection.len() == 0 && h.memory.len() == 0 {
        assert(all =~= before + DECISION_CLOSING@);
    }
}

/// A household that is asked to reflect is reminded of who it is and of every month that it
/// remembers.
pub proof fn law_reflections_recall<R: Number>(h: HouseholdView<R>, i: int)
    ensures
        ({
            let text = reflection_text(h);
            &&& holds(
                text,
                "Your profile: age "@ + numeral(h.age) + ", hourly wage "@ + h.wage.text(2)
                    + ", savings "@ + h.savings.text(2) + ".\n"@,
            )
            &&& h.memory.len() > 0 ==> holds(text, "Recent months:\n"@)
            &&& 0 <= i < h.memory.len() ==> holds(text, "- "@ + h.memory[i] + "\n"@)
            &&& holds(text, "\nReflection:"@)
        }),
{
    let all = reflection_text(h);
    let opening = REFLECTION_OPENING@;
    let profile = "Your profile: age "@ + numeral(h.age) + ", hourly wage "@ + h.wage.text(2)
        + ", savings "@ + h.savings.text(2) + ".\n"@;
    let head = "Recent months:\n"@;
    let memory = memory_section(head, h.memory);
    let closing = "\nReflection:"@;
    assert(all =~= opening + profile + (memory + closing));
    lemma_part(opening, profile, memory + closing);
    assert(all =~= (opening + profile + memory) + closing + Seq::empty());
    lemma_part(opening + profile + memory, closing, Seq::empty());
    if h.memory.len() > 0 {
        let lines = bullets(h.memory);
        assert(all =~= (opening + profile) + head + (lines + closing));
        lemma_part(opening + profile, head, lines + closing);
        if 0 <= i < h.memory.len() {
            lemma_bullet(h.memory, i);
            assert(all =~= (opening + profile + head) + lines + closing);
            lemma_within(opening + profile + head, lines, closing, "- "@ + h.memory[i] + "\n"@);
        }
    }
}

/// The note on a month gives the month, whether the household worked, what it consumed and what it
/// has saved.
pub proof fn law_notes_tell_the_month<R: Number>(h: HouseholdView<R>, month: nat)
    ensures
        holds(note_on(h, month), "month "@ + numeral(month) + ": "@),
        h.employed ==> holds(note_on(h, month), ": "@ + "employed"@ + ", worked="@ + "true"@),
        !h.employed ==> holds(note_on(h, month), ": "@ + "unemployed"@ + ", worked="@ + "false"@),
        holds(note_on(h, month), ", consumed="@ + h.last_consumption.text(2) + ", savings="@),
        holds(note_on(h, month), ", savings="@ + h.savings.text(2)),
{
    let all = note_on(h, month);
    let date = "month "@ + numeral(month);
    let status = if h.employed {
        "employed"@ + ", worked="@ + "true"@
    } else {
        "unemployed"@ + ", worked="@ + "false"@
    };
    let work = if h.employed {
        ": "@ + "employed"@ + ", worked="@ + "true"@
    } else {
        ": "@ + "unemployed"@ + ", worked="@ + "false"@
    };
    let spent = ", consumed="@ + h.last_consumption.text(2);
    let saved = ", savings="@ + h.savings.text(2);
    let dated = date + ": "@;
    assert(all =~= Seq::empty() + dated + (status + spent + saved));
    lemma_part(Seq::empty(), dated, status + spent + saved);
    assert(all =~= date + work + (spent + saved));
    lemma_part(date, work, spent + saved);
    let between = ", consumed="@ + h.last_consumption.text(2) + ", savings="@;
    assert(all =~= (dated + status) + between + h.savings.text(2));
    lemma_part(dated + status, between, h.savings.text(2));
    assert(all =~= (dated + status + spent) + saved + Seq::empty());
    lemma_part(dated + status + spent, saved, Seq::empty());
}

} // verus!
