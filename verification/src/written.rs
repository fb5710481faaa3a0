//! What decimal numbers are worth once they are written and read back.

use vstd::prelude::*;

use crate::fixed::{
    abs, all_digits, decimal_text, digits_needed, exponent_from, law_same_units_same_number,
    law_snapped_to_the_nearest_fiftieth, law_units_are_kept, leading_value, lemma_literal_units,
    lemma_parts, lemma_ten_to_grows, mantissa_of, padded, point_from, rounded_to, ten_to, units_in,
    unsigned_text, Fixed, FIFTIETH, LIMIT, ONE,
};
use crate::laws::{
    law_decisions_are_on_the_grid, law_mock_saves_in_a_slump, law_mock_works_more_in_a_slump,
    law_snapping_keeps_order,
};
use crate::mock::{
    decision_json, mock_answer, mock_consume, mock_work, prompt_inflation, prompt_unemployment,
    JSON_REQUEST,
};
use crate::number::{number_in, Number};
use crate::prompts::{decision_of, numbers_from, settled_decision, without_points};
use crate::text::{digit_char, digits_value, first_from, in_number, is_digit, numeral, run_end};
use crate::world::snapped;

verus! {

broadcast use law_units_are_kept;

proof fn lemma_numeral(n: nat)
    ensures
        numeral(n).len() > 0,
        n < 10 ==> numeral(n).len() == 1,
        all_digits(numeral(n)),
        digits_value(numeral(n)) == n,
    decreases n,
{
    reveal_with_fuel(digits_value, 2);
    if n < 10 {
        assert(numeral(n).drop_last() =~= Seq::empty());
    } else {
        lemma_numeral(n / 10);
        assert(numeral(n).drop_last() =~= numeral(n / 10));
        assert(numeral(n).last() == digit_char(n % 10));
    }
}

/// The value of digits followed by other digits.
proof fn lemma_value_of_both(a: Seq<char>, b: Seq<char>)
    ensures
        digits_value(a + b) == digits_value(a) * ten_to(b.len()) + digits_value(b),
    decreases b.len(),
{
    if b.len() == 0 {
        assert(a + b =~= a);
        assert(digits_value(a) * 1 == digits_value(a)) by (nonlinear_arith);
    } else {
        let rest = b.drop_last();
        lemma_value_of_both(a, rest);
        assert((a + b).drop_last() =~= a + rest);
        assert((a + b).last() == b.last());
        let (x, p) = (digits_value(a), ten_to(rest.len()));
        assert(10 * (x * p) == x * (10 * p)) by (nonlinear_arith);
    }
}

proof fn lemma_padded(n: nat, width: nat)
    requires
        n < ten_to(width),
    ensures
        padded(n, width).len() == width,
        all_digits(padded(n, width)),
        digits_value(padded(n, width)) == n,
    decreases width,
{
    if width > 0 {
        lemma_padded(n / 10, (width - 1) as nat);
        lemma_numeral(n % 10);
        lemma_value_of_both(padded(n / 10, (width - 1) as nat), numeral(n % 10));
        assert(ten_to(1) == 10) by {
            reveal_with_fuel(ten_to, 2);
        }
        assert((n / 10) * ten_to(1) == 10 * (n / 10));
    }
}

proof fn lemma_no_exponent(s: Seq<char>, i: int)
    requires
        0 <= i <= s.len(),
        forall|k: int| i <= k < s.len() ==> is_digit(#[trigger] s[k]) || s[k] == '.',
    ensures
        exponent_from(s, i) == s.len(),
    decreases s.len() - i,
{
    if i < s.len() {
        lemma_no_exponent(s, i + 1);
    }
}

proof fn lemma_point_behind(s: Seq<char>, i: int, point: int)
    requires
        0 <= i <= point <= s.len(),
        forall|k: int| i <= k < point ==> is_digit(#[trigger] s[k]),
        point < s.len() ==> s[point] == '.',
    ensures
        point_from(s, i) == point,
    decreases point - i,
{
    if i < point {
        lemma_point_behind(s, i + 1, point);
    }
}

/// The units of a number rounded to some digits behind the point, halves away from zero.
pub open spec fn written_units(units: int, digits: nat) -> int {
    let n = rounded_to(abs(units) as nat, digits) * ten_to((12 - digits) as nat);
    if units < 0 {
        -(n as int)
    } else {
        n as int
    }
}

/// A decimal without its sign.
spec fn digits_and_point(n: nat, digits: nat) -> Seq<char> {
    numeral(n / ten_to(digits)) + (if digits > 0 {
        "."@ + padded(n % ten_to(digits), digits)
    } else {
        Seq::empty()
    })
}

proof fn lemma_digits_and_point(n: nat, digits: nat)
    requires
        digits <= 12,
    ensures
        ({
            let body = digits_and_point(n, digits);
            let (before, behind) = mantissa_of(body);
            &&& body.len() > 0
            &&& is_digit(body[0])
            &&& exponent_from(body, 0) == body.len()
            &&& all_digits(before + behind)
            &&& before.len() + behind.len() > 0
            &&& leading_value(before + behind, before.len() as int + 12) == n * ten_to(
                (12 - digits) as nat,
            )
        }),
{
    let scale = ten_to(digits);
    lemma_ten_to_grows(digits, digits);
    let (whole, part) = (n / scale, n % scale);
    lemma_parts(n as int, scale as int);
    lemma_numeral(whole);
    reveal_strlit(".");
    let body = digits_and_point(n, digits);
    let before = numeral(whole);
    let behind = if digits > 0 {
        padded(part, digits)
    } else {
        Seq::empty()
    };
    if digits > 0 {
        lemma_padded(part, digits);
    }
    assert(body[0] == before[0]);
    assert forall|k: int| 0 <= k < body.len() implies is_digit(#[trigger] body[k]) || body[k]
        == '.' by {
        if k < before.len() {
            assert(body[k] == before[k]);
        } else if k > before.len() {
            assert(body[k] == behind[k - before.len() - 1]);
        }
    }
    lemma_no_exponent(body, 0);
    assert forall|k: int| 0 <= k < before.len() implies is_digit(#[trigger] body[k]) by {
        assert(body[k] == before[k]);
    }
    lemma_point_behind(body, 0, before.len() as int);
    assert(body.take(before.len() as int) =~= before);
    if digits > 0 {
        assert(body.skip(before.len() as int + 1) =~= behind);
    }
    assert(mantissa_of(body) == (before, behind));
    assert forall|k: int| 0 <= k < (before + behind).len() implies is_digit(
        #[trigger] (before + behind)[k],
    ) by {
        if k < before.len() {
            assert((before + behind)[k] == before[k]);
        } else {
            assert((before + behind)[k] == behind[k - before.len()]);
        }
    }
    lemma_value_of_both(before, behind);
    assert(digits_value(before + behind) == n) by {
        if digits == 0 {
            assert(scale == 1);
            assert(whole * 1 == whole) by (nonlinear_arith);
        }
    }
    if digits == 12 {
        assert((before + behind).take(before.len() as int + 12) =~= before + behind);
        assert(ten_to(0) == 1);
        assert(n * 1 == n) by (nonlinear_arith);
    }
}

proof fn lemma_read_back(units: int, digits: nat)
    requires
        digits <= 12,
    ensures
        units_in(decimal_text(units, digits)) == Some(written_units(units, digits)),
{
    let n = rounded_to(abs(units) as nat, digits);
    let body = digits_and_point(n, digits);
    let text = decimal_text(units, digits);
    lemma_digits_and_point(n, digits);
    reveal_strlit("-");
    if units < 0 {
        assert(text =~= "-"@ + body);
        assert(text.skip(1) =~= body);
    } else {
        assert(text =~= body);
    }
    assert(unsigned_text(text) == body);
    assert(body.take(body.len() as int) =~= body);
}

/// A number that is written with some digits behind the point and read back is the number rounded
/// to those digits.
pub proof fn law_written_numbers_are_read_back(x: Fixed, digits: nat)
    requires
        digits <= 12,
    ensures
        Fixed::parsed(x.text(digits)) == Some(Fixed::of(written_units(x@, digits))),
{
    lemma_read_back(x@, digits);
}

proof fn lemma_digits_needed(units: nat, digits: nat)
    requires
        digits <= 12,
    ensures
        digits_needed(units, digits) <= digits,
        units % ten_to((digits - digits_needed(units, digits)) as nat) == 0,
    decreases digits,
{
    if digits > 0 && units % 10 == 0 {
        let rest = (digits - 1) as nat;
        lemma_digits_needed(units / 10, rest);
        let d = digits_needed(units, digits);
        let place = ten_to((rest - d) as nat);
        lemma_ten_to_grows((rest - d) as nat, (rest - d) as nat);
        lemma_parts((units / 10) as int, place as int);
        let q = (units / 10) / place;
        assert(10 * (q * place) == q * (10 * place)) by (nonlinear_arith);
        assert(ten_to((digits - d) as nat) == 10 * place);
        vstd::arithmetic::div_mod::lemma_mod_multiples_basic(q as int, (10 * place) as int);
    } else {
        assert(ten_to(0) == 1);
    }
}

/// A number that is shown and read back is the number.
pub proof fn law_shown_numbers_are_read_back(x: Fixed)
    requires
        -LIMIT <= x@ <= LIMIT,
    ensures
        Fixed::parsed(x.shown()) == Some(x),
{
    let m = abs(x@) as nat;
    let d = digits_needed(m, 12);
    lemma_digits_needed(m, 12);
    lemma_read_back(x@, d);
    let place = ten_to((12 - d) as nat) as int;
    lemma_ten_to_grows((12 - d) as nat, (12 - d) as nat);
    lemma_parts(m as int, place);
    let q = m as int / place;
    assert((m + place / 2) / place == q) by {
        assert(m + place / 2 == q * place + place / 2);
        assert(0 <= place / 2 < place);
        assert(q * place == place * q) by (nonlinear_arith);
        vstd::arithmetic::div_mod::lemma_fundamental_div_mod_converse(
            m + place / 2,
            place,
            q,
            place / 2,
        );
    }
    assert(written_units(x@, d) == x@);
    law_same_units_same_number(Fixed::of(x@), x);
}

/// Writing numbers and reading them back keeps their order.
pub proof fn law_writing_keeps_order(a: int, b: int, digits: nat)
    requires
        digits <= 12,
        a <= b,
    ensures
        written_units(a, digits) <= written_units(b, digits),
{
    let place = ten_to((12 - digits) as nat) as int;
    lemma_ten_to_grows((12 - digits) as nat, (12 - digits) as nat);
    let (x, y) = (abs(a) + place / 2, abs(b) + place / 2);
    assert(0 <= x / place && 0 <= y / place) by {
        vstd::arithmetic::div_mod::lemma_div_pos_is_pos(x, place);
        vstd::arithmetic::div_mod::lemma_div_pos_is_pos(y, place);
    }
    if x <= y {
        vstd::arithmetic::div_mod::lemma_div_is_ordered(x, y, place);
    } else {
        vstd::arithmetic::div_mod::lemma_div_is_ordered(y, x, place);
    }
    let (p, q) = (x / place, y / place);
    assert(p * place >= 0 && q * place >= 0 && (p <= q ==> p * place <= q * place) && (q <= p ==> q
        * place <= p * place)) by (nonlinear_arith)
        requires
            p >= 0,
            q >= 0,
            place > 0,
    ;
}

/// Writing a number rounds it to the nearest one with as many digits: what is read back has no more
/// digits, and lies within half of the last place.
pub proof fn law_writing_rounds(x: Fixed, digits: nat)
    requires
        digits <= 12,
        abs(x@) + ten_to((12 - digits) as nat) <= LIMIT,
    ensures
        Fixed::parsed(x.text(digits)) matches Some(y) && y@ % (ten_to((12 - digits) as nat) as int)
            == 0 && abs(2 * (y@ - x@)) <= ten_to((12 - digits) as nat),
{
    law_written_numbers_are_read_back(x, digits);
    let place = ten_to((12 - digits) as nat) as int;
    lemma_ten_to_grows((12 - digits) as nat, (12 - digits) as nat);
    let size = abs(x@) + place / 2;
    lemma_parts(size, place);
    let n = size / place;
    assert(0 <= n) by {
        vstd::arithmetic::div_mod::lemma_div_pos_is_pos(size, place);
    }
    assert(0 <= n * place) by (nonlinear_arith)
        requires
            n >= 0,
            place > 0,
    ;
    vstd::arithmetic::div_mod::lemma_mod_multiples_basic(n, place);
    vstd::arithmetic::div_mod::lemma_mod_multiples_basic(-n, place);
    assert((-n) * place == -(n * place)) by (nonlinear_arith);
}

/// A share as it comes back from a reply.
pub open spec fn as_written(x: Fixed) -> Fixed {
    Fixed::of(written_units(x@, 4))
}

/// Whether the six characters from a position on are a digit, a point and four digits.
spec fn is_short_decimal(s: Seq<char>, i: int) -> bool {
    &&& is_digit(s[i])
    &&& s[i + 1] == '.'
    &&& is_digit(s[i + 2])
    &&& is_digit(s[i + 3])
    &&& is_digit(s[i + 4])
    &&& is_digit(s[i + 5])
}

proof fn lemma_four_digits()
    ensures
        ten_to(4) == 10_000,
        ten_to(8) == 100_000_000,
        written_units(0, 4) == 0,
        written_units(ONE as int, 4) == ONE,
{
    reveal_with_fuel(ten_to, 9);
    assert(ten_to(8) == 100_000_000);
    assert((12 - 4) as nat == 8);
    assert(rounded_to(0, 4) == 0);
    assert(rounded_to(ONE as nat, 4) == (ONE + 50_000_000) / 100_000_000);
}

proof fn lemma_share_text(x: Fixed)
    requires
        0 <= x@ <= ONE,
    ensures
        x.text(4).len() == 6,
        is_short_decimal(x.text(4), 0),
        number_in::<Fixed>(x.text(4)) == Some(as_written(x)),
{
    law_written_numbers_are_read_back(x, 4);
    lemma_four_digits();
    let n = rounded_to(x@ as nat, 4);
    assert(n == (x@ + 50_000_000) / 100_000_000);
    let (whole, part) = (n / 10_000, n % 10_000);
    lemma_numeral(whole);
    lemma_padded(part, 4);
    reveal_strlit(".");
    let text = x.text(4);
    assert(text =~= numeral(whole) + "."@ + padded(part, 4));
    assert(text[0] == numeral(whole)[0]);
    assert(text[2] == padded(part, 4)[0]);
    assert(text[3] == padded(part, 4)[1]);
    assert(text[4] == padded(part, 4)[2]);
    assert(text[5] == padded(part, 4)[3]);
}

proof fn lemma_no_number_before(s: Seq<char>, i: int, j: int)
    requires
        0 <= i <= j <= s.len(),
        forall|k: int| i <= k < j ==> !in_number(s[k]) && s[k] != '-',
    ensures
        numbers_from::<Fixed>(s, i) == numbers_from::<Fixed>(s, j),
    decreases j - i,
{
    if i < j {
        lemma_no_number_before(s, i + 1, j);
    }
}

proof fn lemma_short_decimal(s: Seq<char>, i: int)
    requires
        0 <= i,
        i + 6 < s.len(),
        is_short_decimal(s, i),
        !in_number(s[i + 6]),
    ensures
        run_end(s, i + 1) == i + 6,
        without_points(s, i, i + 6) == i + 6,
{
    reveal_with_fuel(run_end, 7);
}

/// The numbers in an answer of the stand-in are the shares that it decided on, to four digits
/// behind the point.
pub proof fn law_mock_answers_hold_the_decision(work: Fixed, consume: Fixed)
    requires
        0 <= work@ <= ONE,
        0 <= consume@ <= ONE,
    ensures
        numbers_from::<Fixed>(decision_json(work, consume), 0) == seq![
            as_written(work),
            as_written(consume),
        ],
{
    reveal_strlit("{\"work\": ");
    reveal_strlit(", \"consume\": ");
    reveal_strlit("}");
    let (a, b) = (work.text(4), consume.text(4));
    lemma_share_text(work);
    lemma_share_text(consume);
    let s = decision_json(work, consume);
    assert(s.len() == 35);
    assert(s.subrange(9, 15) =~= a);
    assert(s.subrange(28, 34) =~= b);
    assert(is_short_decimal(s, 9)) by {
        assert(s[9] == a[0] && s[10] == a[1] && s[11] == a[2] && s[12] == a[3] && s[13] == a[4]
            && s[14] == a[5]);
    }
    assert(is_short_decimal(s, 28)) by {
        assert(s[28] == b[0] && s[29] == b[1] && s[30] == b[2] && s[31] == b[3] && s[32] == b[4]
            && s[33] == b[5]);
    }
    assert(s.subrange(0, 9) =~= "{\"work\": "@);
    assert forall|k: int| 0 <= k < 9 implies !in_number(s[k]) && s[k] != '-' by {
        assert(s[k] == "{\"work\": "@[k]);
    }
    assert forall|k: int| 15 <= k < 28 implies !in_number(s[k]) && s[k] != '-' by {
        assert(s[k] == ", \"consume\": "@[k - 15]);
    }
    assert(s[15] == ", \"consume\": "@[0]);
    assert(s[34] == '}');
    lemma_no_number_before(s, 0, 9);
    lemma_short_decimal(s, 9);
    lemma_no_number_before(s, 16, 28);
    lemma_short_decimal(s, 28);
    assert(numbers_from::<Fixed>(s, 35) =~= Seq::empty());
    assert(numbers_from::<Fixed>(s, 28) =~= seq![as_written(consume)]);
    assert(numbers_from::<Fixed>(s, 9) =~= seq![as_written(work), as_written(consume)]);
}

/// The more unemployment a prompt gives, the more willing to work and the less willing to spend is
/// the stand-in in what it writes, and the less willing to spend also the more inflation.
pub proof fn law_mock_answers_follow_the_economy(p: Seq<char>, q: Seq<char>)
    requires
        first_from(p, JSON_REQUEST@, 0) is Some,
        first_from(q, JSON_REQUEST@, 0) is Some,
        prompt_unemployment::<Fixed>(p).at_most(prompt_unemployment(q)),
        prompt_inflation::<Fixed>(p).at_most(prompt_inflation(q)),
    ensures
        ({
            let a = numbers_from::<Fixed>(mock_answer::<Fixed>(p), 0);
            let b = numbers_from::<Fixed>(mock_answer::<Fixed>(q), 0);
            &&& a.len() == 2
            &&& b.len() == 2
            &&& a[0].at_most(b[0])
            &&& b[1].at_most(a[1])
            &&& settled_decision(None, a).0.at_most(settled_decision(None, b).0)
            &&& settled_decision(None, b).1.at_most(settled_decision(None, a).1)
        }),
{
    lemma_literal_units();
    let (u, v) = (prompt_unemployment::<Fixed>(p), prompt_unemployment::<Fixed>(q));
    let (pi, rho) = (prompt_inflation::<Fixed>(p), prompt_inflation::<Fixed>(q));
    law_mock_works_more_in_a_slump(u, v);
    law_mock_works_more_in_a_slump(v, v);
    law_mock_saves_in_a_slump(u, v, pi, rho);
    law_mock_saves_in_a_slump(v, v, rho, rho);
    let (w, x) = (mock_work(u), mock_work(v));
    let (c, d) = (mock_consume(u, pi), mock_consume(v, rho));
    law_mock_answers_hold_the_decision(w, c);
    law_mock_answers_hold_the_decision(x, d);
    law_writing_keeps_order(0, w@, 4);
    law_writing_keeps_order(w@, x@, 4);
    law_writing_keeps_order(x@, ONE as int, 4);
    law_writing_keeps_order(0, d@, 4);
    law_writing_keeps_order(d@, c@, 4);
    law_writing_keeps_order(c@, ONE as int, 4);
    lemma_four_digits();
    law_snapping_keeps_order(as_written(w), as_written(x));
    law_snapping_keeps_order(as_written(d), as_written(c));
}

/// Every decision that a reply comes down to is a whole number of fiftieths.
pub proof fn law_decisions_are_fiftieths(reply: Seq<char>) -> (k: (int, int))
    ensures
        0 <= k.0 <= 50,
        0 <= k.1 <= 50,
        decision_of::<Fixed>(reply).0@ == k.0 * FIFTIETH,
        decision_of::<Fixed>(reply).1@ == k.1 * FIFTIETH,
{
    let p = law_decisions_are_on_the_grid::<Fixed>(reply);
    let i = law_snapped_to_the_nearest_fiftieth(p.0);
    let j = law_snapped_to_the_nearest_fiftieth(p.1);
    if decision_of::<Fixed>(reply) == (snapped(p.0), snapped(p.1)) {
        (i, j)
    } else {
        reveal_with_fuel(ten_to, 14);
        assert(Fixed::lit(5, 1)@ == 25 * FIFTIETH);
        (25, 25)
    }
}

} // verus!
