//! What is read off texts: numbers, JSON members, decisions, and the stand-in's answers.

use vstd::prelude::*;

use crate::correlation::MODERATE;
use crate::fixed::{
    abs, law_snapped_to_the_nearest_fiftieth, law_units_are_kept, lemma_literal_units, ten_to,
    Fixed, FIFTIETH, ONE,
};
use crate::indicators::law_products_fall_short;
use crate::json::{json_members, member_from, JsonFieldView};
use crate::mock::{
    decision_json, marked_number, mock_answer, mock_consume, mock_work, prompt_inflation,
    prompt_unemployment, MOCK_REFLECTION,
};
use crate::number::{number_in, Number};
use crate::prompts::{
    braced, consume_keys, decision_of, first_number, json_decision, key_number, numbers_from,
    settled_decision, stated_decision, without_points, work_keys,
};
use crate::text::{
    digits_value, first_from, in_number, is_digit, is_white, lemma_run_end, lowered, numeral,
    run_end, stands_at, trimmed,
};

verus! {

broadcast use law_units_are_kept;

/// Trimming takes away white space at both ends, all of it, and nothing else.
pub proof fn law_trimming_keeps_the_middle(s: Seq<char>, i: int, j: int)
    requires
        0 <= i <= j <= s.len(),
        forall|k: int| 0 <= k < i || j <= k < s.len() ==> is_white(#[trigger] s[k]),
        i < j ==> !is_white(s[i]) && !is_white(s[j - 1]),
    ensures
        trimmed(s) == s.subrange(i, j),
    decreases s.len(),
{
    if s.len() == 0 {
        assert(s.subrange(i, j) =~= s);
    } else if is_white(s[0]) {
        let t = s.drop_first();
        let (a, b) = if i > 0 {
            (i - 1, j - 1)
        } else {
            (0, 0)
        };
        assert forall|k: int| 0 <= k < a || b <= k < t.len() implies is_white(#[trigger] t[k]) by {
            assert(t[k] == s[k + 1]);
        }
        law_trimming_keeps_the_middle(t, a, b);
        assert(t.subrange(a, b) =~= s.subrange(i, j));
    } else if is_white(s.last()) {
        let t = s.drop_last();
        assert(i == 0 && j < s.len()) by {
            if j == s.len() {
                assert(i < j);
            }
            if i > 0 {
                assert(is_white(s[0]));
            }
        }
        assert forall|k: int| 0 <= k < i || j <= k < t.len() implies is_white(#[trigger] t[k]) by {
            assert(t[k] == s[k]);
        }
        law_trimming_keeps_the_middle(t, i, j);
        assert(t.subrange(i, j) =~= s.subrange(i, j));
    } else {
        if i > 0 {
            assert(is_white(s[0]));
        }
        if j < s.len() {
            assert(is_white(s[s.len() - 1]));
        }
        assert(s.subrange(i, j) =~= s);
    }
}

/// A numeral consists of digits, does not start with a zero unless it is zero, and has the value of
/// its number.
pub proof fn law_numerals_have_their_value(n: nat)
    ensures
        numeral(n).len() > 0,
        forall|k: int| 0 <= k < numeral(n).len() ==> is_digit(#[trigger] numeral(n)[k]),
        n > 0 ==> numeral(n)[0] != '0',
        digits_value(numeral(n)) == n,
    decreases n,
{
    reveal_with_fuel(digits_value, 2);
    if n >= 10 {
        law_numerals_have_their_value(n / 10);
        assert(numeral(n).drop_last() =~= numeral(n / 10));
    } else {
        assert(numeral(n).drop_last() =~= Seq::empty());
    }
}

/// A search finds the first place at which the sought text stands, and finds one if there is any.
pub proof fn law_searches_find_the_first(hay: Seq<char>, needle: Seq<char>, from: int, i: int)
    requires
        0 <= from <= i,
        i + needle.len() <= hay.len(),
        forall|k: int| 0 <= k < needle.len() ==> hay[i + k] == #[trigger] needle[k],
    ensures
        first_from(hay, needle, from) matches Some(f) && from <= f <= i && (forall|k: int|
            0 <= k < needle.len() ==> hay[f + k] == #[trigger] needle[k]),
    decreases i - from,
{
    if stands_at(hay, needle, from) {
        assert forall|k: int| 0 <= k < needle.len() implies hay[from + k] == #[trigger] needle[k] by {
            assert(hay.subrange(from, from + needle.len() as int)[k] == hay[from + k]);
        }
    } else {
        assert(from < i) by {
            if from == i {
                assert(hay.subrange(i, i + needle.len() as int) =~= needle);
            }
        }
        law_searches_find_the_first(hay, needle, from + 1, i);
    }
}

/// A text without digits, points and minus signs has no numbers in it.
pub proof fn law_no_digits_no_numbers<R: Number>(s: Seq<char>, i: int)
    requires
        0 <= i,
        forall|k: int| i <= k < s.len() ==> !in_number(#[trigger] s[k]) && s[k] != '-',
    ensures
        numbers_from::<R>(s, i).len() == 0,
    decreases s.len() - i,
{
    if i < s.len() {
        assert(!in_number(s[i]));
        law_no_digits_no_numbers::<R>(s, i + 1);
    }
}

proof fn lemma_run_end_is(s: Seq<char>, i: int, end: int)
    requires
        0 <= i <= end <= s.len(),
        forall|k: int| i <= k < end ==> in_number(#[trigger] s[k]),
        end < s.len() ==> !in_number(s[end]),
    ensures
        run_end(s, i) == end,
    decreases end - i,
{
    if i < end {
        assert(in_number(s[i]));
        lemma_run_end_is(s, i + 1, end);
    }
}

proof fn lemma_skips_prose<R: Number>(s: Seq<char>, i: int, j: int)
    requires
        0 <= i <= j <= s.len(),
        forall|k: int| i <= k < j ==> !in_number(#[trigger] s[k]) && s[k] != '-',
    ensures
        numbers_from::<R>(s, i) == numbers_from::<R>(s, j),
    decreases j - i,
{
    if i < j {
        assert(!in_number(s[i]));
        lemma_skips_prose::<R>(s, i + 1, j);
    }
}

/// The first number of a text is the first run of digits and points, with the minus sign before it
/// if there is one and without the points behind it; the others are those after the character that
/// ends the run. A run that stands for no number is passed over.
pub proof fn law_numbers_are_read_in_order<R: Number>(s: Seq<char>, i: int, end: int, stop: int)
    requires
        0 <= i < stop <= end <= s.len(),
        forall|k: int| 0 <= k < i ==> !in_number(#[trigger] s[k]) && s[k] != '-',
        in_number(s[i]) || s[i] == '-',
        forall|k: int| i < k < end ==> in_number(#[trigger] s[k]),
        end < s.len() ==> !in_number(s[end]),
        forall|k: int| stop <= k < end ==> #[trigger] s[k] == '.',
        s[stop - 1] != '.',
    ensures
        numbers_from::<R>(s, 0) == (match number_in::<R>(s.subrange(i, stop)) {
            Some(x) => seq![x] + numbers_from::<R>(s, end + 1),
            None => numbers_from::<R>(s, end + 1),
        }),
{
    lemma_skips_prose::<R>(s, 0, i);
    lemma_run_end_is(s, i + 1, end);
    lemma_points_end(s, i, end, stop);
}

proof fn lemma_points_end(s: Seq<char>, start: int, end: int, stop: int)
    requires
        0 <= start < stop <= end <= s.len(),
        forall|k: int| stop <= k < end ==> #[trigger] s[k] == '.',
        s[stop - 1] != '.',
    ensures
        without_points(s, start, end) == stop,
    decreases end - stop,
{
    if stop < end {
        assert(s[end - 1] == '.');
        lemma_points_end(s, start, end - 1, stop);
    }
}

proof fn lemma_run_end_shifts(s: Seq<char>, by: int, i: int)
    requires
        0 <= by <= s.len(),
        0 <= i,
    ensures
        run_end(s, by + i) == by + run_end(s.skip(by), i),
    decreases s.len() - by - i,
{
    let t = s.skip(by);
    if i < t.len() {
        assert(t[i] == s[by + i]);
        if in_number(t[i]) {
            lemma_run_end_shifts(s, by, i + 1);
        }
    }
}

proof fn lemma_points_shift(s: Seq<char>, by: int, start: int, end: int)
    requires
        0 <= by,
        0 <= start <= end,
        by + end <= s.len(),
    ensures
        without_points(s, by + start, by + end) == by + without_points(s.skip(by), start, end),
        start <= without_points(s.skip(by), start, end) <= end,
    decreases end - start,
{
    if start < end {
        assert(s.skip(by)[end - 1] == s[by + end - 1]);
        if s.skip(by)[end - 1] == '.' {
            lemma_points_shift(s, by, start, end - 1);
        }
    }
}

/// What numbers stand in the rest of a text does not depend on what stands before it.
pub proof fn law_numbers_of_the_rest<R: Number>(s: Seq<char>, by: int, i: int)
    requires
        0 <= by <= s.len(),
        0 <= i,
    ensures
        numbers_from::<R>(s, by + i) == numbers_from::<R>(s.skip(by), i),
    decreases s.len() - by - i + 1,
{
    let t = s.skip(by);
    if i < t.len() {
        assert(t[i] == s[by + i]);
        if in_number(t[i]) || t[i] == '-' {
            lemma_run_end_shifts(s, by, i + 1);
            lemma_run_end(t, i + 1);
            lemma_run_end(s, by + i + 1);
            let end = run_end(t, i + 1);
            lemma_points_shift(s, by, i, end);
            let stop = without_points(t, i, end);
            assert(t.subrange(i, stop) =~= s.subrange(by + i, by + stop));
            law_numbers_of_the_rest::<R>(s, by, end + 1);
        } else {
            law_numbers_of_the_rest::<R>(s, by, i + 1);
        }
    }
}

/// A member is looked up by its name: the first one of that name counts.
pub proof fn law_members_are_found_by_name(
    members: Seq<(Seq<char>, JsonFieldView)>,
    key: Seq<char>,
    from: int,
    i: int,
)
    requires
        0 <= from <= i <= members.len(),
        forall|k: int| from <= k < i ==> (#[trigger] members[k]).0 != key,
    ensures
        i < members.len() && members[i].0 == key ==> member_from(members, key, from) == Some(
            members[i].1,
        ),
        i == members.len() ==> member_from(members, key, from) is None,
    decreases i - from,
{
    if from < i {
        assert(members[from].0 != key);
        law_members_are_found_by_name(members, key, from + 1, i);
    }
}

/// Under several names, the first name with a number counts.
pub proof fn law_names_are_tried_in_order<R: Number>(
    members: Seq<(Seq<char>, JsonFieldView)>,
    keys: Seq<Seq<char>>,
    i: int,
)
    requires
        0 <= i <= keys.len(),
        forall|k: int| 0 <= k < i ==> key_number::<R>(members, #[trigger] keys[k]) is None,
    ensures
        i < keys.len() && key_number::<R>(members, keys[i]) is Some ==> first_number::<R>(
            members,
            keys,
        ) == key_number::<R>(members, keys[i]),
        i == keys.len() ==> first_number::<R>(members, keys) is None,
    decreases i,
{
    if i > 0 {
        let rest = keys.drop_first();
        assert(key_number::<R>(members, keys[0]) is None);
        assert forall|k: int| 0 <= k < i - 1 implies key_number::<R>(
            members,
            #[trigger] rest[k],
        ) is None by {
            assert(rest[k] == keys[k + 1]);
        }
        law_names_are_tried_in_order::<R>(members, rest, i - 1);
    }
}

/// A member may give its number as a number or as a text, with blanks around it or not; nothing
/// else gives a number.
pub proof fn law_fields_give_numbers<R: Number>(
    members: Seq<(Seq<char>, JsonFieldView)>,
    i: int,
    text: Seq<char>,
)
    requires
        0 <= i < members.len(),
        forall|k: int| 0 <= k < i ==> (#[trigger] members[k]).0 != members[i].0,
    ensures
        members[i].1 == JsonFieldView::Number(text) ==> key_number::<R>(members, members[i].0)
            == number_in::<R>(text),
        members[i].1 == JsonFieldView::Text(text) ==> key_number::<R>(members, members[i].0)
            == number_in::<R>(trimmed(text)),
        members[i].1 is Other ==> key_number::<R>(members, members[i].0) is None,
{
    law_members_are_found_by_name(members, members[i].0, 0, i);
}

/// A JSON object states a decision where it holds both a number under a name for work and one under
/// a name for consumption.
pub proof fn law_objects_state_both<R: Number>(
    members: Seq<(Seq<char>, JsonFieldView)>,
    work: R,
    consume: R,
)
    ensures
        stated_decision::<R>(members) == Some((work, consume)) <==> first_number::<R>(
            members,
            seq!["work"@, "p_work"@, "willingness_to_work"@, "labor"@],
        ) == Some(work) && first_number::<R>(
            members,
            seq!["consume"@, "p_consume"@, "consumption"@, "consume_fraction"@],
        ) == Some(consume),
        stated_decision::<R>(members) is None <==> first_number::<R>(
            members,
            seq!["work"@, "p_work"@, "willingness_to_work"@, "labor"@],
        ) is None || first_number::<R>(
            members,
            seq!["consume"@, "p_consume"@, "consumption"@, "consume_fraction"@],
        ) is None,
{
}

/// The JSON of a reply reaches from its first opening brace to its last closing brace.
pub proof fn law_braces_enclose_the_json(s: Seq<char>, i: int, j: int)
    requires
        0 <= i < s.len(),
        0 <= j < s.len(),
        s[i] == '{',
        s[j] == '}',
        forall|k: int| 0 <= k < i ==> #[trigger] s[k] != '{',
        forall|k: int| j < k < s.len() ==> #[trigger] s[k] != '}',
    ensures
        i < j ==> braced(s) == Some(s.subrange(i, j + 1)),
        j < i ==> braced(s) is None,
{
    s.index_of_first_ensures('{');
    s.index_of_last_ensures('}');
    assert(s.contains(s[i]));
    assert(s.contains(s[j]));
}

/// Without one of the braces there is no JSON.
pub proof fn law_no_braces_no_json(s: Seq<char>)
    requires
        !s.contains('{') || !s.contains('}'),
    ensures
        braced(s) is None,
        json_decision::<Fixed>(s) is None,
{
    s.index_of_first_ensures('{');
    s.index_of_last_ensures('}');
}

/// Whether a share is that of a number: brought between zero and one, and onto the nearest
/// fiftieth.
pub open spec fn is_settled(r: Fixed, x: Fixed) -> bool {
    &&& 0 <= x@ <= ONE ==> abs(2 * (r@ - x@)) <= FIFTIETH
    &&& x@ < 0 ==> r@ == 0
    &&& x@ > ONE ==> r@ == ONE
}

proof fn lemma_settled_number(x: Fixed)
    requires
        crate::number::is_number(x),
    ensures
        is_settled(crate::world::snapped(x), x),
{
    lemma_literal_units();
    let k = law_snapped_to_the_nearest_fiftieth(x);
    if x@ < 0 {
        assert(abs(2 * (k * FIFTIETH)) <= FIFTIETH);
    }
    if x@ > ONE {
        assert(abs(2 * (k * FIFTIETH - ONE)) <= FIFTIETH);
    }
}

/// A stated decision counts first, then the first two numbers of the text, the one for work before
/// the one for consumption, and else an even chance for both.
pub proof fn law_decisions_are_settled(stated: Option<(Fixed, Fixed)>, numbers: Seq<Fixed>)
    requires
        stated matches Some(p) ==> crate::number::is_number(p.0) && crate::number::is_number(p.1),
        forall|i: int| 0 <= i < numbers.len() ==> crate::number::is_number(#[trigger] numbers[i]),
    ensures
        ({
            let r = settled_decision(stated, numbers);
            &&& stated matches Some(p) ==> is_settled(r.0, p.0) && is_settled(r.1, p.1)
            &&& stated is None && numbers.len() >= 2 ==> is_settled(r.0, numbers[0]) && is_settled(
                r.1,
                numbers[1],
            )
            &&& stated is None && numbers.len() < 2 ==> 2 * r.0@ == ONE && 2 * r.1@ == ONE
        }),
{
    reveal_with_fuel(ten_to, 14);
    match stated {
        Some(p) => {
            lemma_settled_number(p.0);
            lemma_settled_number(p.1);
        },
        None => {
            if numbers.len() >= 2 {
                lemma_settled_number(numbers[0]);
                lemma_settled_number(numbers[1]);
            }
        },
    }
}

/// The stand-in is willing to work with 78 in a hundred and 40 in a hundred of unemployment, up to
/// a unit, within zero and one.
pub proof fn law_the_stand_in_works(u: Fixed)
    requires
        0 <= u@ <= MODERATE,
    ensures
        ({
            let exact = 78 * ONE + 40 * u@;
            let r = mock_work(u)@;
            &&& exact <= 100 * ONE ==> 0 <= exact - 100 * r < 100
            &&& exact >= 100 * ONE + 100 ==> r == ONE
            &&& 0 <= r <= ONE
        }),
{
    lemma_literal_units();
    reveal_with_fuel(ten_to, 14);
    let c = Fixed::lit(40, 2);
    assert(c@ == 400_000_000_000);
    assert(c@ * u@ == 400_000_000_000 * u@);
    law_products_fall_short(c, u);
}

/// It consumes 30 in a hundred less 50 in a hundred of unemployment and 60 in a hundred of
/// inflation, up to two units, within five in a hundred and one.
pub proof fn law_the_stand_in_consumes(u: Fixed, pi: Fixed)
    requires
        0 <= u@ <= MODERATE,
        abs(pi@) <= MODERATE,
    ensures
        ({
            let exact = 30 * ONE - 50 * u@ - 60 * pi@;
            let r = mock_consume(u, pi)@;
            &&& 5 * ONE + 200 <= exact <= 100 * ONE - 200 ==> abs(exact - 100 * r) < 200
            &&& exact <= 5 * ONE - 200 ==> 100 * r == 5 * ONE
            &&& exact >= 100 * ONE + 200 ==> r == ONE
            &&& 5 * ONE <= 100 * r <= 100 * ONE
        }),
{
    lemma_literal_units();
    reveal_with_fuel(ten_to, 14);
    let (c, d) = (Fixed::lit(50, 2), Fixed::lit(60, 2));
    assert(c@ == 500_000_000_000 && d@ == 600_000_000_000);
    assert(c@ * u@ == 500_000_000_000 * u@);
    assert(d@ * pi@ == 600_000_000_000 * pi@);
    law_products_fall_short(c, u);
    law_products_fall_short(d, pi);
}

/// A number is read off a prompt behind the first place where its name stands, up to the first
/// character that cannot belong to it; without the name, there is none.
pub proof fn law_marked_numbers_stand_behind_their_name<R: Number>(
    s: Seq<char>,
    name: Seq<char>,
    i: int,
    end: int,
)
    requires
        0 <= i,
        i + name.len() <= end <= s.len(),
        first_from(s, name, 0) == Some(i),
        forall|k: int|
            i + name.len() <= k < end ==> in_number(#[trigger] s[k]) || (k == i + name.len() && s[k]
                == '-'),
        end < s.len() ==> !in_number(s[end]),
        end < s.len() && end == i + name.len() ==> s[end] != '-',
    ensures
        marked_number::<R>(s, name) == R::parsed(s.subrange(i + name.len() as int, end)),
{
    let start = i + name.len();
    if start < end && s[start] == '-' {
        lemma_run_end_is(s, start + 1, end);
    } else {
        lemma_run_end_is(s, start as int, end);
    }
}

/// The stand-in goes by the unemployment and the inflation of the prompt, by a tenth and by none
/// where the prompt does not give them; it decides by both where it is asked for JSON, and reflects
/// where it is not.
pub proof fn law_the_stand_in_goes_by_the_prompt(p: Seq<char>)
    ensures
        marked_number::<Fixed>(p, "Unemployment rate: "@) matches Some(u) ==> prompt_unemployment::<
            Fixed,
        >(p)
            == u,
        marked_number::<Fixed>(p, "Annual inflation: "@) matches Some(pi) ==> prompt_inflation::<
            Fixed,
        >(p)
            == pi,
        marked_number::<Fixed>(p, "Unemployment rate: "@) is None ==> 10
            * prompt_unemployment::<Fixed>(p)@ == ONE,
        marked_number::<Fixed>(p, "Annual inflation: "@) is None ==> prompt_inflation::<Fixed>(p)@
            == 0,
        first_from(p, "Answer with JSON only"@, 0) is None ==> mock_answer::<Fixed>(p)
            == MOCK_REFLECTION@,
        first_from(p, "Answer with JSON only"@, 0) is Some ==> mock_answer::<Fixed>(p)
            == decision_json(
            mock_work(prompt_unemployment::<Fixed>(p)),
            mock_consume(prompt_unemployment::<Fixed>(p), prompt_inflation::<Fixed>(p)),
        ),
{
    lemma_literal_units();
    reveal_with_fuel(ten_to, 14);
}

/// Capitals become the small letters at their place in the alphabet; nothing else changes.
pub proof fn law_capitals_become_small(s: Seq<char>, i: int)
    requires
        0 <= i < s.len(),
    ensures
        lowered(s).len() == s.len(),
        'A' <= s[i] <= 'Z' ==> lowered(s)[i] as int - 'a' as int == s[i] as int - 'A' as int,
        !('A' <= s[i] <= 'Z') ==> lowered(s)[i] == s[i],
{
}

proof fn lemma_first_number_is_one<R: Number>(
    members: Seq<(Seq<char>, JsonFieldView)>,
    keys: Seq<Seq<char>>,
)
    ensures
        first_number::<R>(members, keys) matches Some(x) ==> crate::number::is_number(x),
    decreases keys.len(),
{
    if keys.len() > 0 {
        lemma_first_number_is_one::<R>(members, keys.drop_first());
    }
}

proof fn lemma_numbers_are_numbers<R: Number>(s: Seq<char>, i: int)
    ensures
        forall|k: int|
            0 <= k < numbers_from::<R>(s, i).len() ==> crate::number::is_number(
                #[trigger] numbers_from::<R>(s, i)[k],
            ),
    decreases s.len() - i + 1,
{
    if i < s.len() {
        if in_number(s[i]) || s[i] == '-' {
            lemma_run_end(s, i + 1);
            let end = run_end(s, i + 1);
            let rest = numbers_from::<R>(s, end + 1);
            lemma_numbers_are_numbers::<R>(s, end + 1);
            let first = number_in::<R>(s.subrange(i, without_points(s, i, end)));
            assert forall|k: int| 0 <= k < numbers_from::<R>(s, i).len() implies
                crate::number::is_number(#[trigger] numbers_from::<R>(s, i)[k]) by {
                if first is Some {
                    if k > 0 {
                        assert(numbers_from::<R>(s, i)[k] == rest[k - 1]);
                    }
                } else {
                    assert(numbers_from::<R>(s, i)[k] == rest[k]);
                }
            }
        } else {
            lemma_numbers_are_numbers::<R>(s, i + 1);
            assert(numbers_from::<R>(s, i) == numbers_from::<R>(s, i + 1));
        }
    } else {
        assert(numbers_from::<R>(s, i).len() == 0);
    }
}

/// A reply is read as JSON first: from its first opening brace to its last closing brace, if that is
/// an object that states a decision. It counts for its numbers otherwise.
pub proof fn law_replies_are_read_as_json_first(
    s: Seq<char>,
    i: int,
    j: int,
    members: Seq<(Seq<char>, JsonFieldView)>,
    work: Fixed,
    consume: Fixed,
)
    requires
        0 <= i < j < s.len(),
        s[i] == '{',
        s[j] == '}',
        forall|k: int| 0 <= k < i ==> #[trigger] s[k] != '{',
        forall|k: int| j < k < s.len() ==> #[trigger] s[k] != '}',
    ensures
        ({
            let part = json_members(s.subrange(i, j + 1));
            let r = decision_of::<Fixed>(s);
            let numbers = numbers_from::<Fixed>(s, 0);
            let stated = part == Some(members) && stated_decision::<Fixed>(members) == Some(
                (work, consume),
            );
            let unstated = part is None || (part == Some(members) && stated_decision::<Fixed>(
                members,
            ) is None);
            &&& stated ==> is_settled(r.0, work) && is_settled(r.1, consume)
            &&& unstated && numbers.len() >= 2 ==> is_settled(r.0, numbers[0]) && is_settled(
                r.1,
                numbers[1],
            )
            &&& unstated && numbers.len() < 2 ==> 2 * r.0@ == ONE && 2 * r.1@ == ONE
        }),
{
    law_braces_enclose_the_json(s, i, j);
    lemma_numbers_are_numbers::<Fixed>(s, 0);
    lemma_first_number_is_one::<Fixed>(members, work_keys());
    lemma_first_number_is_one::<Fixed>(members, consume_keys());
    let part = json_members(s.subrange(i, j + 1));
    if part is None || part == Some(members) {
        law_decisions_are_settled(json_decision::<Fixed>(s), numbers_from::<Fixed>(s, 0));
    }
}

/// A reply without braces counts for its numbers.
pub proof fn law_plain_replies_count_for_their_numbers(s: Seq<char>)
    requires
        !s.contains('{') || !s.contains('}'),
    ensures
        ({
            let r = decision_of::<Fixed>(s);
            let numbers = numbers_from::<Fixed>(s, 0);
            &&& numbers.len() >= 2 ==> is_settled(r.0, numbers[0]) && is_settled(r.1, numbers[1])
            &&& numbers.len() < 2 ==> 2 * r.0@ == ONE && 2 * r.1@ == ONE
        }),
{
    law_no_braces_no_json(s);
    lemma_numbers_are_numbers::<Fixed>(s, 0);
    law_decisions_are_settled(json_decision::<Fixed>(s), numbers_from::<Fixed>(s, 0));
}

/// A text stands for a number where it can be read as one, and as one that is a number.
pub proof fn law_texts_stand_for_numbers<R: Number>(text: Seq<char>)
    ensures
        R::parsed(text) is None ==> number_in::<R>(text) is None,
        R::parsed(text) matches Some(x) ==> (if x.at_most(x) {
            number_in::<R>(text) == Some(x)
        } else {
            number_in::<R>(text) is None
        }),
{
}

/// What is not a number gives way to the other value.
pub proof fn law_what_is_no_number_gives_way<R: Number>(a: R, b: R)
    requires
        !a.at_most(a),
    ensures
        crate::number::max_of(a, b) == b,
        crate::number::min_of(a, b) == b,
{
}

} // verus!
