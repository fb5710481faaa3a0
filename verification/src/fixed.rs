//! Decimal numbers with twelve digits behind the point.
//!
//! They stand for the whole multiples of a trillionth up to 10^24. An operation whose exact result
//! is not one of them drops the digits that do not fit, and stops at the largest magnitude. A run
//! over these numbers gives the same result on every machine.

use vstd::prelude::*;

use crate::number::{clamped, is_number, one, zero, Number, Ordered};
use crate::text::{chars_of, digit, digits_value, is_digit, numeral, numeral_text};
use crate::world::snapped;

verus! {

/// The units in one.
pub const ONE: u128 = 1_000_000_000_000;

/// The largest magnitude, in units.
pub const LIMIT: u128 = 1_000_000_000_000_000_000_000_000_000_000_000_000;

/// A decimal number.
#[derive(Debug, Clone, Copy)]
pub struct Fixed {
    units: i128,
}

impl View for Fixed {
    type V = int;

    /// The number of units.
    closed spec fn view(&self) -> int {
        self.units as int
    }
}

/// A number of units brought within the largest magnitude.
pub open spec fn limited(x: int) -> int {
    if x > LIMIT {
        LIMIT as int
    } else if x < -LIMIT {
        -LIMIT
    } else {
        x
    }
}

/// A quotient without its fraction.
pub open spec fn quot(a: int, b: int) -> int {
    if (a < 0) == (b < 0) {
        abs(a) / abs(b)
    } else {
        -(abs(a) / abs(b))
    }
}

pub open spec fn abs(x: int) -> int {
    if x < 0 {
        -x
    } else {
        x
    }
}

/// A power of ten.
pub open spec fn ten_to(n: nat) -> nat
    decreases n,
{
    if n == 0 {
        1
    } else {
        10 * ten_to((n - 1) as nat)
    }
}

impl Fixed {
    /// The number of a number of units.
    pub closed spec fn of(units: int) -> Fixed {
        Fixed { units: limited(units) as i128 }
    }

    #[verifier::type_invariant]
    spec fn is_limited(self) -> bool {
        -LIMIT <= self.units <= LIMIT
    }
}

/// A number has the units that it is made of, within the limits.
pub broadcast proof fn law_units_are_kept(units: int)
    ensures
        #[trigger] Fixed::of(units)@ == limited(units),
{
}

/// No two numbers have the same units.
pub proof fn law_same_units_same_number(a: Fixed, b: Fixed)
    requires
        a@ == b@,
    ensures
        a == b,
{
}

/// A number is the quotient times the divisor, and the remainder.
pub proof fn lemma_parts(x: int, d: int)
    requires
        d > 0,
    ensures
        x == (x / d) * d + x % d,
        0 <= x % d < d,
{
    vstd::arithmetic::div_mod::lemma_fundamental_div_mod(x, d);
    assert(d * (x / d) == (x / d) * d) by (nonlinear_arith);
}

fn magnitude_of(x: i128) -> (r: u128)
    requires
        -LIMIT <= x <= LIMIT,
    ensures
        r == abs(x as int),
{
    if x < 0 {
        (-x) as u128
    } else {
        x as u128
    }
}

fn signed(negative: bool, units: u128) -> (r: Fixed)
    requires
        units <= LIMIT,
    ensures
        r == Fixed::of(if negative {
            -(units as int)
        } else {
            units as int
        }),
{
    if negative {
        Fixed { units: -(units as i128) }
    } else {
        Fixed { units: units as i128 }
    }
}

fn capped(units: u128) -> (r: u128)
    ensures
        r == (if units > LIMIT {
            LIMIT
        } else {
            units
        }),
{
    if units > LIMIT {
        LIMIT
    } else {
        units
    }
}

/// The product of two magnitudes, limited.
fn product(a: u128, b: u128) -> (r: u128)
    requires
        a <= LIMIT,
        b <= LIMIT,
    ensures
        r == limited((a * b) / ONE as int),
{
    let ah: u128 = a / ONE;
    let al: u128 = a % ONE;
    let bh: u128 = b / ONE;
    let bl: u128 = b % ONE;
    proof {
        let one = ONE as int;
        assert(a * b == one * (ah * b + al * bh) + al * bl) by (nonlinear_arith)
            requires
                a == one * ah + al,
                b == one * bh + bl,
        ;
        assert(al * bl <= one * one) by (nonlinear_arith)
            requires
                0 <= al < one,
                0 <= bl < one,
        ;
        assert(0 <= al * bh <= one * 1_000_000_000_000_000_000_000_000) by (nonlinear_arith)
            requires
                0 <= al < one,
                0 <= bh <= 1_000_000_000_000_000_000_000_000,
        ;
        assert(0 <= ah * b) by (nonlinear_arith)
            requires
                0 <= ah,
                0 <= b,
        ;
        assert(0 <= al * bl) by (nonlinear_arith)
            requires
                0 <= al,
                0 <= bl,
        ;
        let whole = ah * b + al * bh;
        let part = al * bl;
        assert((one * whole + part) / one == whole + part / one) by (nonlinear_arith)
            requires
                one == 1_000_000_000_000int,
        ;
        assert(part / one >= 0) by (nonlinear_arith)
            requires
                part >= 0,
                one > 0,
        ;
    }
    match ah.checked_mul(b) {
        Some(high) => {
            if high > LIMIT {
                LIMIT
            } else {
                capped(high + al * bh + al * bl / ONE)
            }
        },
        None => LIMIT,
    }
}

/// The quotient of two magnitudes, limited.
fn quotient(a: u128, b: u128) -> (r: u128)
    requires
        a <= LIMIT,
        0 < b <= LIMIT,
    ensures
        r == limited((a * ONE) / b as int),
{
    let q: u128 = a / b;
    let mut rest: u128 = a % b;
    let mut digits: u128 = 0;
    let ghost start = rest as int;
    assert(start * ten_to(0) == 0 * b + rest) by {
        assert(ten_to(0) == 1);
        assert(start * 1 == start && 0 * b == 0) by (nonlinear_arith);
    }
    for k in 0..12u32
        invariant
            0 < b <= LIMIT,
            0 <= rest < b,
            digits < ten_to(k as nat),
            start * ten_to(k as nat) == digits * b + rest,
            ten_to(k as nat) <= ONE,
    {
        let ghost before = ten_to(k as nat) as int;
        proof {
            reveal_with_fuel(ten_to, 14);
            assert(ten_to(k as nat + 1) == 10 * ten_to(k as nat));
        }
        let next: u128 = (rest * 10) / b;
        let left: u128 = (rest * 10) % b;
        proof {
            lemma_parts(rest * 10, b as int);
            assert(next < 10) by (nonlinear_arith)
                requires
                    next * b + left == rest * 10,
                    0 <= left,
                    rest < b,
                    0 < b,
            ;
            assert(start * (10 * before) == (digits * 10 + next) * b + left) by (nonlinear_arith)
                requires
                    start * before == digits * b + rest,
                    next * b + left == rest * 10,
            ;
        }
        digits = digits * 10 + next;
        rest = left;
    }
    proof {
        reveal_with_fuel(ten_to, 14);
        assert(ten_to(12) == ONE);
        let whole = q * ONE + digits;
        lemma_parts(a as int, b as int);
        assert(a * ONE == whole * b + rest) by (nonlinear_arith)
            requires
                a == q * b + start,
                start * ONE == digits * b + rest,
                whole == q * ONE + digits,
        ;
        vstd::arithmetic::div_mod::lemma_fundamental_div_mod_converse(
            a * ONE,
            b as int,
            whole,
            rest as int,
        );
    }
    if q > 1_000_000_000_000_000_000_000_000 {
        LIMIT
    } else {
        capped(q * ONE + digits)
    }
}

/// Whether a whole number is the square root of another, without its fraction.
pub open spec fn is_floor_root(r: int, x: int) -> bool {
    0 <= r && r * r <= x && x < (r + 1) * (r + 1)
}

/// The square root without its fraction.
pub open spec fn floor_root(x: int) -> int {
    choose|r: int| is_floor_root(r, x)
}

/// There is one square root without a fraction.
pub proof fn lemma_floor_root(r: int, x: int)
    requires
        is_floor_root(r, x),
    ensures
        r == floor_root(x),
{
    let t = floor_root(x);
    assert(is_floor_root(t, x));
    assert(r == t) by (nonlinear_arith)
        requires
            0 <= r,
            r * r <= x,
            x < (r + 1) * (r + 1),
            0 <= t,
            t * t <= x,
            x < (t + 1) * (t + 1),
    ;
}

/// Half of the digits of the limit.
const HALF: u128 = 1_000_000_000_000_000_000;

/// The product of two magnitudes, in full: so many times the limit, and the rest.
fn full_product(a: u128, b: u128) -> (r: (u128, u128))
    requires
        a <= LIMIT,
        b <= LIMIT,
    ensures
        r.0 * LIMIT + r.1 == a * b,
        r.1 < LIMIT,
{
    let ah: u128 = a / HALF;
    let al: u128 = a % HALF;
    let bh: u128 = b / HALF;
    let bl: u128 = b % HALF;
    proof {
        let half = HALF as int;
        assert(0 <= ah * bh <= half * half && 0 <= ah * bl <= half * half && 0 <= al * bh <= half
            * half && 0 <= al * bl < half * half) by (nonlinear_arith)
            requires
                0 <= ah <= half,
                0 <= bh <= half,
                0 <= al < half,
                0 <= bl < half,
        ;
        assert(a * b == (ah * bh) * (half * half) + (ah * bl + al * bh) * half + al * bl)
            by (nonlinear_arith)
            requires
                a == half * ah + al,
                b == half * bh + bl,
        ;
    }
    let middle: u128 = ah * bl + al * bh;
    let rest: u128 = (middle % HALF) * HALF + al * bl;
    (ah * bh + middle / HALF + rest / LIMIT, rest % LIMIT)
}

/// The square root of the product of two magnitudes.
fn root_of_product(a: u128, b: u128) -> (r: u128)
    requires
        a <= LIMIT,
        b <= LIMIT,
    ensures
        r == floor_root(a * b),
        r <= LIMIT,
{
    let ghost x = a * b;
    let (high, low) = full_product(a, b);
    let mut lo: u128 = 0;
    let mut hi: u128 = LIMIT + 1;
    assert(0 <= x < hi * hi) by (nonlinear_arith)
        requires
            x == a * b,
            0 <= a < hi,
            0 <= b < hi,
    ;
    while lo + 1 < hi
        invariant
            x == high * LIMIT + low,
            low < LIMIT,
            lo < hi <= LIMIT + 1,
            lo * lo <= x < hi * hi,
        decreases hi - lo,
    {
        let mid: u128 = lo + (hi - lo) / 2;
        let (top, bottom) = full_product(mid, mid);
        if top < high || (top == high && bottom <= low) {
            lo = mid;
        } else {
            hi = mid;
        }
    }
    proof {
        lemma_floor_root(lo as int, x);
    }
    lo
}

fn power_of_ten(n: u32) -> (r: u128)
    requires
        n <= 12,
    ensures
        r == ten_to(n as nat),
        0 < r <= ONE,
{
    let mut r: u128 = 1;
    proof {
        reveal_with_fuel(ten_to, 14);
    }
    for k in 0..n
        invariant
            n <= 12,
            r == ten_to(k as nat),
            r <= ten_to(12),
            ten_to(12) == ONE,
    {
        proof {
            reveal_with_fuel(ten_to, 14);
        }
        r = r * 10;
    }
    proof {
        reveal_with_fuel(ten_to, 14);
    }
    r
}

/// The last `width` digits of a number, with zeros before them where it has fewer.
pub open spec fn padded(n: nat, width: nat) -> Seq<char>
    decreases width,
{
    if width == 0 {
        Seq::empty()
    } else {
        padded(n / 10, (width - 1) as nat) + numeral(n % 10)
    }
}

/// A magnitude in units of the given place, halves rounded up.
pub open spec fn rounded_to(units: nat, digits: nat) -> nat {
    let place = ten_to((12 - digits) as nat);
    (units + place / 2) / place
}

/// A number in decimal, with at most twelve digits behind the point.
pub open spec fn decimal_text(units: int, digits: nat) -> Seq<char> {
    let n = rounded_to(abs(units) as nat, digits);
    (if units < 0 {
        "-"@
    } else {
        Seq::empty()
    }) + numeral(n / ten_to(digits)) + (if digits > 0 {
        "."@ + padded(n % ten_to(digits), digits)
    } else {
        Seq::empty()
    })
}

fn write_padded(n: u128, width: u32) -> (r: String)
    ensures
        r@ == padded(n as nat, width as nat),
    decreases width,
{
    if width == 0 {
        return String::new();
    }
    let mut s = write_padded(n / 10, width - 1);
    s.append(numeral_text(n % 10).as_str());
    s
}

fn write_decimal(units: i128, digits: u32) -> (r: String)
    requires
        -LIMIT <= units <= LIMIT,
        digits <= 12,
    ensures
        r@ == decimal_text(units as int, digits as nat),
{
    let place = power_of_ten(12 - digits);
    let scale = power_of_ten(digits);
    let n: u128 = (magnitude_of(units) + place / 2) / place;
    let mut s = String::new();
    if units < 0 {
        s.append("-");
        assert(s@ =~= "-"@);
    }
    s.append(numeral_text(n / scale).as_str());
    if digits > 0 {
        s.append(".");
        s.append(write_padded(n % scale, digits).as_str());
    }
    assert(s@ =~= decimal_text(units as int, digits as nat));
    s
}

/// The digits behind the point that a number of units needs, at most `digits`.
pub open spec fn digits_needed(units: nat, digits: nat) -> nat
    decreases digits,
{
    if digits > 0 && units % 10 == 0 {
        digits_needed(units / 10, (digits - 1) as nat)
    } else {
        digits
    }
}

/// The position of the first point from `i` on, or the end of the text.
pub open spec fn point_from(s: Seq<char>, i: int) -> int
    decreases s.len() - i,
{
    if i >= s.len() || s[i] == '.' {
        i
    } else {
        point_from(s, i + 1)
    }
}

pub open spec fn all_digits(s: Seq<char>) -> bool {
    forall|k: int| 0 <= k < s.len() ==> is_digit(#[trigger] s[k])
}

/// The position of the first letter `e` from `i` on, or the end of the text.
pub open spec fn exponent_from(s: Seq<char>, i: int) -> int
    decreases s.len() - i,
{
    if i >= s.len() || s[i] == 'e' || s[i] == 'E' {
        i
    } else {
        exponent_from(s, i + 1)
    }
}

/// The value of the first `count` of a sequence of digits, with zeros behind them where there are
/// fewer.
pub open spec fn leading_value(digits: Seq<char>, count: int) -> nat {
    if count <= 0 {
        0
    } else if count <= digits.len() {
        digits_value(digits.take(count))
    } else {
        digits_value(digits) * ten_to((count - digits.len()) as nat)
    }
}

/// A numeral without the sign that may stand before it.
pub open spec fn unsigned_text(s: Seq<char>) -> Seq<char> {
    if s.len() > 0 && (s[0] == '-' || s[0] == '+') {
        s.skip(1)
    } else {
        s
    }
}

/// The whole number that a text stands for: digits, with a sign before them or not.
pub open spec fn whole_in(s: Seq<char>) -> Option<int> {
    let digits = unsigned_text(s);
    if digits.len() > 0 && all_digits(digits) {
        Some(
            if s[0] == '-' {
                -(digits_value(digits) as int)
            } else {
                digits_value(digits) as int
            },
        )
    } else {
        None
    }
}

/// The digits of a decimal before its exponent: those before the point, and those behind it.
pub open spec fn mantissa_of(s: Seq<char>) -> (Seq<char>, Seq<char>) {
    let point = point_from(s, 0);
    (
        s.take(point),
        if point < s.len() {
            s.skip(point + 1)
        } else {
            Seq::empty()
        },
    )
}

/// The units that a decimal stands for: digits, more digits behind a point where there is one, and
/// a power of ten behind the letter `e` where there is one.
pub open spec fn units_in(s: Seq<char>) -> Option<int> {
    let body = unsigned_text(s);
    let e = exponent_from(body, 0);
    let (before, behind) = mantissa_of(body.take(e));
    let exponent = if e < body.len() {
        whole_in(body.skip(e + 1))
    } else {
        Some(0)
    };
    match exponent {
        Some(power) => if all_digits(before + behind) && before.len() + behind.len() > 0 {
            let units = leading_value(before + behind, before.len() + 12 + power) as int;
            Some(
                if s[0] == '-' {
                    -units
                } else {
                    units
                },
            )
        } else {
            None
        },
        None => None,
    }
}

/// A sequence of digits read as a number, unless it is beyond the limit or not of digits.
enum Digits {
    Value(u128),
    TooLarge,
    Malformed,
}

fn read_digits(v: &Vec<char>, from: usize, to: usize) -> (r: Digits)
    requires
        from <= to <= v.len(),
    ensures
        match r {
            Digits::Value(n) => {
                &&& all_digits(v@.subrange(from as int, to as int))
                &&& n == digits_value(v@.subrange(from as int, to as int))
                &&& n <= LIMIT
            },
            Digits::TooLarge => {
                &&& all_digits(v@.subrange(from as int, to as int))
                &&& digits_value(v@.subrange(from as int, to as int)) > LIMIT
            },
            Digits::Malformed => !all_digits(v@.subrange(from as int, to as int)),
        },
{
    let ghost s = v@.subrange(from as int, to as int);
    let mut value: u128 = 0;
    let mut large = false;
    for i in from..to
        invariant
            from <= to <= v.len(),
            s == v@.subrange(from as int, to as int),
            all_digits(s.take(i - from)),
            value <= LIMIT,
            large ==> digits_value(s.take(i - from)) > LIMIT,
            !large ==> value == digits_value(s.take(i - from)),
    {
        let c = v[i];
        assert(c == s[i - from]);
        if !digit(c) {
            return Digits::Malformed;
        }
        proof {
            let t = s.take(i - from + 1);
            assert(t.drop_last() =~= s.take(i - from));
            assert forall|k: int| 0 <= k < t.len() implies is_digit(#[trigger] t[k]) by {
                if k < i - from {
                    assert(t[k] == s.take(i - from)[k]);
                }
            }
        }
        let next: u128 = value * 10 + (c as u128 - '0' as u128);
        if large || next > LIMIT {
            large = true;
        } else {
            value = next;
        }
    }
    assert(s.take(to - from) =~= s);
    if large {
        Digits::TooLarge
    } else {
        Digits::Value(value)
    }
}

proof fn lemma_beyond_limit(k: nat)
    requires
        k >= 37,
    ensures
        ten_to(k) > LIMIT,
{
    lemma_ten_to_twelve();
    lemma_ten_to_sum(12, 12);
    lemma_ten_to_sum(24, 12);
    assert(ONE * ONE * ONE == LIMIT) by (nonlinear_arith)
        requires
            ONE == 1_000_000_000_000,
            LIMIT == 1_000_000_000_000_000_000_000_000_000_000_000_000,
    ;
    assert(ten_to(37) == 10 * ten_to(36));
    lemma_ten_to_grows(37, k);
}

/// Far beyond the last digit, the number of zeros behind it does not matter.
proof fn lemma_leading_value_far(digits: Seq<char>, a: int, b: int)
    requires
        a >= digits.len() + 37,
        b >= digits.len() + 37,
    ensures
        limited(leading_value(digits, a) as int) == limited(leading_value(digits, b) as int),
{
    let n = digits_value(digits);
    let x = ten_to((a - digits.len()) as nat);
    let y = ten_to((b - digits.len()) as nat);
    lemma_beyond_limit((a - digits.len()) as nat);
    lemma_beyond_limit((b - digits.len()) as nat);
    if n == 0 {
        assert(0 * x == 0 && 0 * y == 0) by (nonlinear_arith);
    } else {
        assert(n * x >= x && n * y >= y) by (nonlinear_arith)
            requires
                n >= 1,
        ;
    }
}

fn read_leading(digits: &Vec<char>, count: i128) -> (r: u128)
    requires
        all_digits(digits@),
    ensures
        r == limited(leading_value(digits@, count as int) as int),
{
    if count <= 0 {
        return 0;
    }
    let n: usize = digits.len();
    let width: usize = if count < n as i128 {
        count as usize
    } else {
        n
    };
    proof {
        let kept = digits@.subrange(0, width as int);
        assert(kept =~= digits@.take(width as int));
        assert forall|k: int| 0 <= k < kept.len() implies is_digit(#[trigger] kept[k]) by {
            assert(is_digit(digits@[k]));
        }
        assert(digits@.take(n as int) =~= digits@);
    }
    let ghost full = digits_value(digits@.take(width as int));
    let head = read_digits(digits, 0, width);
    if count <= n as i128 {
        return match head {
            Digits::Value(h) => h,
            _ => LIMIT,
        };
    }
    let ghost zeros = (count - n) as nat;
    proof {
        lemma_ten_to_grows(0, zeros);
        assert(full * ten_to(zeros) >= full) by (nonlinear_arith)
            requires
                ten_to(zeros) >= 1,
                full >= 0,
        ;
    }
    match head {
        Digits::Value(h) => {
            if h == 0 {
                assert(0 * ten_to(zeros) == 0) by (nonlinear_arith);
                return 0;
            }
            let mut value: u128 = h;
            let mut left: i128 = count - n as i128;
            assert(h * ten_to(0) == h) by {
                assert(ten_to(0) == 1);
            }
            while left > 0
                invariant
                    0 <= left <= zeros,
                    value <= LIMIT,
                    leading_value(digits@, count as int) == h * ten_to(zeros),
                    value == h * ten_to((zeros - left) as nat),
                decreases left,
            {
                proof {
                    let k = (zeros - left) as nat;
                    assert(ten_to(k + 1) == 10 * ten_to(k));
                    assert(h * (10 * ten_to(k)) == 10 * (h * ten_to(k))) by (nonlinear_arith);
                    lemma_ten_to_grows(k + 1, zeros);
                    assert(h * ten_to(k + 1) <= h * ten_to(zeros)) by (nonlinear_arith)
                        requires
                            ten_to(k + 1) <= ten_to(zeros),
                            h >= 0,
                    ;
                }
                value = value * 10;
                if value > LIMIT {
                    return LIMIT;
                }
                left = left - 1;
            }
            value
        },
        _ => LIMIT,
    }
}

/// Reads the power of ten at the end of a decimal. One that is too large to matter comes as one
/// that is too.
fn read_power(v: &Vec<char>, from: usize) -> (r: Option<i128>)
    requires
        from <= v.len(),
    ensures
        match r {
            Some(power) => {
                &&& whole_in(v@.skip(from as int)) is Some
                &&& -LIMIT <= power <= LIMIT
                &&& -LIMIT < power < LIMIT ==> whole_in(v@.skip(from as int)) == Some(power as int)
                &&& power == LIMIT ==> whole_in(v@.skip(from as int))->0 >= LIMIT
                &&& power == -LIMIT ==> whole_in(v@.skip(from as int))->0 <= -LIMIT
            },
            None => whole_in(v@.skip(from as int)) is None,
        },
{
    let n: usize = v.len();
    let ghost part = v@.skip(from as int);
    let signed_part = from < n && (v[from] == '-' || v[from] == '+');
    let start: usize = if signed_part {
        from + 1
    } else {
        from
    };
    assert(unsigned_text(part) =~= v@.subrange(start as int, n as int));
    if start == n {
        return None;
    }
    let negative = v[from] == '-';
    let size: i128 = match read_digits(v, start, n) {
        Digits::Value(x) => x as i128,
        Digits::TooLarge => LIMIT as i128,
        Digits::Malformed => {
            return None;
        },
    };
    Some(
        if negative {
            -size
        } else {
            size
        },
    )
}

/// Takes the point out of the digits of a decimal; gives them with the number of those before it.
fn split_mantissa(v: &Vec<char>, from: usize, to: usize) -> (r: (Vec<char>, usize))
    requires
        from <= to <= v.len(),
    ensures
        ({
            let (before, behind) = mantissa_of(v@.subrange(from as int, to as int));
            r.0@ == before + behind && r.1 == before.len()
        }),
{
    let ghost number = v@.subrange(from as int, to as int);
    let mut digits: Vec<char> = Vec::new();
    let mut point: usize = from;
    while point < to && v[point] != '.'
        invariant
            from <= point <= to <= v.len(),
            number == v@.subrange(from as int, to as int),
            point_from(number, 0) == point_from(number, point - from),
            digits@ =~= number.take(point - from),
        decreases to - point,
    {
        digits.push(v[point]);
        point = point + 1;
    }
    let whole: usize = digits.len();
    let ghost before = number.take(point - from);
    let behind: usize = if point < to {
        point + 1
    } else {
        to
    };
    for i in behind..to
        invariant
            from <= behind <= to <= v.len(),
            number == v@.subrange(from as int, to as int),
            digits@ =~= before + number.subrange(behind - from, i - from),
    {
        digits.push(v[i]);
    }
    proof {
        let (a, b) = mantissa_of(number);
        assert(a =~= before);
        assert(b =~= number.subrange(behind - from, to - from));
    }
    (digits, whole)
}

/// The units of a mantissa and a power of ten.
fn compose(digits: &Vec<char>, whole: usize, power: i128, Ghost(wanted): Ghost<int>) -> (r: Option<u128>)
    requires
        whole <= digits.len(),
        -LIMIT <= power <= LIMIT,
        -LIMIT < power < LIMIT ==> wanted == power,
        power == LIMIT ==> wanted >= LIMIT,
        power == -LIMIT ==> wanted <= -LIMIT,
    ensures
        match r {
            Some(units) => {
                &&& all_digits(digits@) && digits.len() > 0
                &&& units == limited(leading_value(digits@, whole + 12 + wanted) as int)
            },
            None => !all_digits(digits@) || digits.len() == 0,
        },
{
    assert(digits@.subrange(0, digits@.len() as int) =~= digits@);
    if let Digits::Malformed = read_digits(digits, 0, digits.len()) {
        return None;
    }
    if digits.len() == 0 {
        return None;
    }
    let count: i128 = whole as i128 + 12 + power;
    proof {
        if power == LIMIT {
            lemma_leading_value_far(digits@, whole + 12 + wanted, count as int);
        }
    }
    Some(read_leading(digits, count))
}

fn read_decimal(text: &str) -> (r: Option<Fixed>)
    ensures
        r == (match units_in(text@) {
            Some(units) => Some(Fixed::of(units)),
            None => None,
        }),
{
    let v = chars_of(text);
    let n: usize = v.len();
    let start: usize = if n > 0 && (v[0] == '-' || v[0] == '+') {
        1
    } else {
        0
    };
    let ghost body = unsigned_text(text@);
    assert(body =~= v@.skip(start as int));
    let mut e: usize = start;
    while e < n && v[e] != 'e' && v[e] != 'E'
        invariant
            n == v.len(),
            start <= e <= n,
            body == v@.skip(start as int),
            exponent_from(body, 0) == exponent_from(body, e - start),
        decreases n - e,
    {
        e = e + 1;
    }
    let ghost at = exponent_from(body, 0);
    assert(at == e - start);
    assert(body.take(at) =~= v@.subrange(start as int, e as int));
    let (digits, whole) = split_mantissa(&v, start, e);
    let mut power: i128 = 0;
    let ghost mut wanted: int = 0;
    if e < n {
        assert(body.skip(at + 1) =~= v@.skip(e + 1));
        match read_power(&v, e + 1) {
            Some(x) => {
                power = x;
                proof {
                    wanted = whole_in(v@.skip(e + 1))->0;
                }
            },
            None => {
                return None;
            },
        }
    }
    match compose(&digits, whole, power, Ghost(wanted)) {
        Some(units) => Some(signed(n > 0 && v[0] == '-', units)),
        None => None,
    }
}

/// There are as many units in one as twelve digits count.
pub proof fn lemma_ten_to_twelve()
    ensures
        ten_to(12) == ONE,
{
    reveal_with_fuel(ten_to, 14);
}

/// Powers of ten grow with the exponent.
pub proof fn lemma_ten_to_grows(a: nat, b: nat)
    requires
        a <= b,
    ensures
        0 < ten_to(a) <= ten_to(b),
    decreases b,
{
    if a < b {
        lemma_ten_to_grows(a, (b - 1) as nat);
    } else if a > 0 {
        lemma_ten_to_grows((a - 1) as nat, (a - 1) as nat);
    }
}

/// The product of two powers of ten is the power of the sum.
pub proof fn lemma_ten_to_sum(a: nat, b: nat)
    ensures
        ten_to(a) * ten_to(b) == ten_to(a + b),
    decreases a,
{
    if a > 0 {
        lemma_ten_to_sum((a - 1) as nat, b);
        let x = ten_to((a - 1) as nat);
        let y = ten_to(b);
        assert((10 * x) * y == 10 * (x * y)) by (nonlinear_arith);
        assert((a - 1) as nat + b == (a + b - 1) as nat);
        assert(ten_to(a) == 10 * x);
        assert(ten_to(a + b) == 10 * ten_to((a + b - 1) as nat));
    } else {
        assert(ten_to(0) == 1);
        assert(1 * ten_to(b) == ten_to(b));
    }
}

/// A decimal literal in units.
pub open spec fn literal_units(mantissa: int, places: nat) -> int {
    if places <= 12 {
        mantissa * ten_to((12 - places) as nat)
    } else {
        quot(mantissa, ten_to((places - 12) as nat) as int)
    }
}

/// A number of units rounded to a whole number, halves away from zero.
pub open spec fn nearest_units(units: int) -> int {
    let whole = (abs(units) + ONE / 2) / ONE as int * ONE;
    if units < 0 {
        -whole
    } else {
        whole
    }
}

/// The machine integer closest to a number without its fraction.
pub open spec fn whole_of(units: int) -> i64 {
    let n = quot(units, ONE as int);
    if n > i64::MAX {
        i64::MAX
    } else if n < i64::MIN {
        i64::MIN
    } else {
        n as i64
    }
}

/// The quotient in units; one by zero is as large as it can be.
pub open spec fn quotient_units(a: int, b: int) -> int {
    if b != 0 {
        quot(a * ONE, b)
    } else if a > 0 {
        LIMIT as int
    } else if a < 0 {
        -LIMIT
    } else {
        0
    }
}

proof fn lemma_abs_product(a: int, b: int)
    ensures
        abs(a * b) == abs(a) * abs(b),
        (a * b < 0) ==> (a < 0) != (b < 0),
        (a * b > 0) ==> (a < 0) == (b < 0),
{
    assert(abs(a * b) == abs(a) * abs(b) && ((a * b < 0) ==> (a < 0) != (b < 0)) && ((a * b > 0)
        ==> (a < 0) == (b < 0))) by (nonlinear_arith);
}

impl Number for Fixed {
    open spec fn lit(mantissa: int, places: nat) -> Self {
        Fixed::of(literal_units(mantissa, places))
    }

    open spec fn count_of(n: nat) -> Self {
        Fixed::of(n * ONE)
    }

    open spec fn top() -> Self {
        Fixed::of(LIMIT as int)
    }

    open spec fn add(self, other: Self) -> Self {
        Fixed::of(self@ + other@)
    }

    open spec fn sub(self, other: Self) -> Self {
        Fixed::of(self@ - other@)
    }

    open spec fn mul(self, other: Self) -> Self {
        Fixed::of(quot(self@ * other@, ONE as int))
    }

    open spec fn div(self, other: Self) -> Self {
        Fixed::of(quotient_units(self@, other@))
    }

    open spec fn magnitude(self) -> Self {
        Fixed::of(abs(self@))
    }

    open spec fn nearest(self) -> Self {
        Fixed::of(nearest_units(self@))
    }

    open spec fn geometric(self, other: Self) -> Self {
        Fixed::of(
            if self@ * other@ > 0 {
                floor_root(self@ * other@)
            } else {
                0
            },
        )
    }

    open spec fn whole(self) -> i64 {
        whole_of(self@)
    }

    open spec fn below(self, other: Self) -> bool {
        -LIMIT <= self@ < other@ <= LIMIT
    }

    open spec fn at_most(self, other: Self) -> bool {
        -LIMIT <= self@ <= other@ <= LIMIT
    }

    open spec fn text(self, digits: nat) -> Seq<char> {
        if digits <= 12 {
            decimal_text(self@, digits)
        } else {
            decimal_text(self@, 12) + Seq::new((digits - 12) as nat, |i: int| '0')
        }
    }

    open spec fn shown(self) -> Seq<char> {
        decimal_text(self@, digits_needed(abs(self@) as nat, 12))
    }

    open spec fn parsed(text: Seq<char>) -> Option<Self> {
        match units_in(text) {
            Some(units) => Some(Fixed::of(units)),
            None => None,
        }
    }

    fn from_count(n: u64) -> (r: Self) {
        let units: u128 = n as u128 * ONE;
        signed(false, units)
    }

    fn infinity() -> (r: Self) {
        signed(false, LIMIT)
    }

    fn plus(self, other: Self) -> (r: Self) {
        proof {
            use_type_invariant(&self);
            use_type_invariant(&other);
        }
        within_limits(self.units + other.units)
    }

    fn minus(self, other: Self) -> (r: Self) {
        proof {
            use_type_invariant(&self);
            use_type_invariant(&other);
        }
        within_limits(self.units - other.units)
    }

    fn times(self, other: Self) -> (r: Self) {
        proof {
            use_type_invariant(&self);
            use_type_invariant(&other);
            lemma_abs_product(self.units as int, other.units as int);
        }
        let units = product(magnitude_of(self.units), magnitude_of(other.units));
        signed((self.units < 0) != (other.units < 0), units)
    }

    fn over(self, other: Self) -> (r: Self) {
        proof {
            use_type_invariant(&self);
            use_type_invariant(&other);
            lemma_abs_product(self.units as int, ONE as int);
        }
        if other.units == 0 {
            return signed(self.units < 0, if self.units == 0 { 0 } else { LIMIT });
        }
        let units = quotient(magnitude_of(self.units), magnitude_of(other.units));
        signed((self.units < 0) != (other.units < 0), units)
    }

    fn abs(self) -> (r: Self) {
        proof {
            use_type_invariant(&self);
        }
        signed(false, magnitude_of(self.units))
    }

    fn round(self) -> (r: Self) {
        proof {
            use_type_invariant(&self);
        }
        let whole: u128 = (magnitude_of(self.units) + ONE / 2) / ONE * ONE;
        signed(self.units < 0, capped(whole))
    }

    fn geometric_mean(self, other: Self) -> (r: Self) {
        proof {
            use_type_invariant(&self);
            use_type_invariant(&other);
            let (p, q) = (self@, other@);
            assert(p * q > 0 <==> (p > 0 && q > 0) || (p < 0 && q < 0)) by (nonlinear_arith);
            lemma_abs_product(p, q);
        }
        if (self.units > 0 && other.units > 0) || (self.units < 0 && other.units < 0) {
            signed(false, root_of_product(magnitude_of(self.units), magnitude_of(other.units)))
        } else {
            signed(false, 0)
        }
    }

    fn to_i64(self) -> (r: i64) {
        proof {
            use_type_invariant(&self);
        }
        let n: u128 = magnitude_of(self.units) / ONE;
        if self.units < 0 {
            if n > 0x8000_0000_0000_0000 {
                i64::MIN
            } else {
                (-(n as i128)) as i64
            }
        } else if n > 0x7fff_ffff_ffff_ffff {
            i64::MAX
        } else {
            n as i64
        }
    }

    fn lt(self, other: Self) -> (r: bool) {
        proof {
            use_type_invariant(&self);
            use_type_invariant(&other);
        }
        self.units < other.units
    }

    fn le(self, other: Self) -> (r: bool) {
        proof {
            use_type_invariant(&self);
            use_type_invariant(&other);
        }
        self.units <= other.units
    }

    fn decimal(mantissa: i64, places: u32) -> (r: Self) {
        literal(mantissa, places)
    }

    fn to_fixed(self, digits: u32) -> (r: String) {
        proof {
            use_type_invariant(&self);
        }
        if digits <= 12 {
            return write_decimal(self.units, digits);
        }
        let mut s = write_decimal(self.units, 12);
        let ghost start = s@;
        proof {
            reveal_strlit("0");
        }
        for k in 12..digits
            invariant
                "0"@ =~= seq!['0'],
                s@ =~= start + Seq::new((k - 12) as nat, |i: int| '0'),
        {
            s.append("0");
        }
        s
    }

    fn to_text(self) -> (r: String) {
        proof {
            use_type_invariant(&self);
        }
        let mut rest: u128 = magnitude_of(self.units);
        let mut digits: u32 = 12;
        while digits > 0 && rest % 10 == 0
            invariant
                digits <= 12,
                digits_needed(rest as nat, digits as nat) == digits_needed(abs(self.units as int) as nat, 12),
            decreases digits,
        {
            rest = rest / 10;
            digits = digits - 1;
        }
        write_decimal(self.units, digits)
    }

    fn parse(text: &str) -> (r: Option<Self>) {
        read_decimal(text)
    }
}

fn within_limits(units: i128) -> (r: Fixed)
    ensures
        r == Fixed::of(units as int),
{
    if units > 1_000_000_000_000_000_000_000_000_000_000_000_000 {
        signed(false, LIMIT)
    } else if units < -1_000_000_000_000_000_000_000_000_000_000_000_000 {
        signed(true, LIMIT)
    } else if units < 0 {
        signed(true, (-units) as u128)
    } else {
        signed(false, units as u128)
    }
}

fn literal(mantissa: i64, places: u32) -> (r: Fixed)
    ensures
        r == Fixed::of(literal_units(mantissa as int, places as nat)),
{
    let m: u128 = magnitude_of(mantissa as i128);
    let negative = mantissa < 0;
    if places <= 12 {
        let scale = power_of_ten(12 - places);
        proof {
            lemma_abs_product(mantissa as int, scale as int);
            assert(0 <= m * scale <= 0x8000_0000_0000_0000 * ONE) by (nonlinear_arith)
                requires
                    0 <= m <= 0x8000_0000_0000_0000,
                    0 < scale <= ONE,
            ;
        }
        return signed(negative, m * scale);
    }
    let mut n: u128 = m;
    let mut k: u32 = places - 12;
    while k > 0 && n > 0
        invariant
            12 < places,
            k <= places - 12,
            n <= 0x8000_0000_0000_0000,
            m as int / (ten_to((places - 12) as nat) as int) == n as int / (ten_to(k as nat) as int),
        decreases k,
    {
        proof {
            lemma_ten_to_grows(0, (k - 1) as nat);
            vstd::arithmetic::div_mod::lemma_div_denominator(
                n as int,
                10,
                ten_to((k - 1) as nat) as int,
            );
        }
        n = n / 10;
        k = k - 1;
    }
    proof {
        lemma_ten_to_grows(0, k as nat);
        lemma_ten_to_grows(0, (places - 12) as nat);
        if k > 0 {
            vstd::arithmetic::div_mod::lemma_div_basics(ten_to(k as nat) as int);
        } else {
            assert(ten_to(0) == 1);
            vstd::arithmetic::div_mod::lemma_div_basics(n as int);
        }
        assert(quot(mantissa as int, ten_to((places - 12) as nat) as int) == (if negative {
            -(n as int)
        } else {
            n as int
        }));
    }
    signed(negative, n)
}

proof fn lemma_quot_grows(a: int, b: int, c: int)
    requires
        a <= b,
        c > 0,
    ensures
        quot(a, c) <= quot(b, c),
{
    if a >= 0 {
        vstd::arithmetic::div_mod::lemma_div_is_ordered(a, b, c);
    } else if b < 0 {
        vstd::arithmetic::div_mod::lemma_div_is_ordered(-b, -a, c);
    } else {
        vstd::arithmetic::div_mod::lemma_div_pos_is_pos(-a, c);
        vstd::arithmetic::div_mod::lemma_div_pos_is_pos(b, c);
    }
}

/// A multiple has an exact quotient.
pub proof fn lemma_quot_exact(a: int, c: int)
    requires
        c > 0,
    ensures
        quot(a * c, c) == a,
        quot(c * a, c) == a,
        quot(0, c) == 0,
{
    lemma_abs_product(a, c);
    vstd::arithmetic::div_mod::lemma_div_by_multiple(abs(a), c);
    assert(a * c == c * a) by (nonlinear_arith);
    vstd::arithmetic::div_mod::lemma_div_basics(c);
    assert(a * c < 0 <==> a < 0) by (nonlinear_arith)
        requires
            c > 0,
    ;
}

/// A quotient changes its sign with what is divided.
pub proof fn lemma_quot_odd(a: int, b: int)
    requires
        b != 0,
    ensures
        quot(-a, b) == -quot(a, b),
{
    if a == 0 {
        lemma_quot_exact(0, abs(b));
    }
}

/// Every natural number has a square root without a fraction.
pub proof fn lemma_floor_root_exists(x: nat) -> (r: int)
    ensures
        is_floor_root(r, x as int),
    decreases x,
{
    if x == 0 {
        assert(0 * 0 == 0 && 1 * 1 == 1);
        0
    } else {
        let r = lemma_floor_root_exists((x - 1) as nat);
        if (r + 1) * (r + 1) <= x {
            let t = r + 1;
            assert(t * t <= x && x < (t + 1) * (t + 1)) by (nonlinear_arith)
                requires
                    t >= 0,
                    t * t <= x,
                    x - 1 < t * t,
            ;
            t
        } else {
            r
        }
    }
}

/// The units of zero and one.
pub proof fn lemma_literal_units()
    ensures
        literal_units(0, 0) == 0,
        literal_units(1, 0) == ONE,
        Fixed::lit(0, 0)@ == 0,
        Fixed::lit(1, 0)@ == ONE,
{
    lemma_ten_to_twelve();
}

impl Ordered for Fixed {
    proof fn order(a: Self, b: Self, c: Self) {
        assert(a@ == b@ ==> a == b);
    }

    proof fn literals(m: int, places: nat, n: int) {
        let scale = ten_to((12 - places) as nat) as int;
        lemma_ten_to_grows(0, (12 - places) as nat);
        assert(m <= n ==> m * scale <= n * scale) by (nonlinear_arith)
            requires
                scale > 0,
        ;
        assert(m > 0 ==> m * scale > 0) by (nonlinear_arith)
            requires
                scale > 0,
        ;
        assert(0 * scale == 0);
        lemma_literal_units();
        lemma_ten_to_grows((12 - places) as nat, 12);
        lemma_ten_to_twelve();
        let most = 1_000_000_000_000int;
        assert(-most <= m <= most ==> -most * most <= m * scale <= most * most) by (nonlinear_arith)
            requires
                0 < scale <= most,
                most == 1_000_000_000_000,
        ;
        assert(-most <= n <= most ==> -most * most <= n * scale <= most * most) by (nonlinear_arith)
            requires
                0 < scale <= most,
                most == 1_000_000_000_000,
        ;
        assert(m < n ==> m * scale < n * scale) by (nonlinear_arith)
            requires
                scale > 0,
        ;
        if places < 12 {
            let tenth = ten_to((11 - places) as nat) as int;
            assert((10 * m) * tenth == m * (10 * tenth)) by (nonlinear_arith);
        }
    }

    proof fn counts(m: nat, n: nat) {
        lemma_literal_units();
    }

    proof fn sums(a: Self, b: Self, c: Self) {
        lemma_literal_units();
        assert(Fixed::of(c@) == c);
    }

    proof fn differences(a: Self, b: Self, c: Self) {
        lemma_literal_units();
        assert(Fixed::of(c@) == c);
    }

    proof fn refills(a: Self, b: Self) {
        lemma_literal_units();
        assert(Fixed::of(b@) == b);
    }

    proof fn products(a: Self, b: Self, c: Self) {
        lemma_literal_units();
        let k = ONE as int;
        assert(a@ * c@ <= b@ * c@ && c@ * a@ <= c@ * b@) by (nonlinear_arith)
            requires
                a@ <= b@,
                0 <= c@,
        ;
        lemma_quot_grows(a@ * c@, b@ * c@, k);
        lemma_quot_grows(c@ * a@, c@ * b@, k);
        lemma_quot_exact(a@, k);
        assert(0 * a@ == 0 && a@ * 0 == 0);
        assert(Fixed::of(a@) == a);
    }

    proof fn signs(a: Self, b: Self) {
        lemma_literal_units();
        lemma_ten_to_twelve();
        let x = a@;
        let y = b@;
        assert(x * y == y * x && (-x) * y == -(x * y) && (-x) * (-y) == x * y) by (nonlinear_arith);
        lemma_quot_odd(x * y, ONE as int);
        if y != 0 {
            assert((-x) * ONE == -(x * ONE)) by (nonlinear_arith);
            lemma_quot_odd(x * ONE, y);
        }
        assert(Fixed::of(x) == a);
    }

    proof fn quotients(a: Self, b: Self, c: Self) {
        lemma_literal_units();
        lemma_quot_grows(a@ * ONE, b@ * ONE, c@);
        lemma_quot_exact(ONE as int, c@);
        lemma_quot_exact(-(ONE as int), c@);
        assert((0 - c@) * ONE == -(ONE as int) * c@) by (nonlinear_arith);
        lemma_ten_to_twelve();
    }

    proof fn parts(a: Self, c: Self, d: Self) {
        lemma_literal_units();
        vstd::arithmetic::div_mod::lemma_div_is_ordered_by_denominator(a@ * ONE, c@, d@);
        lemma_quot_exact(a@, ONE as int);
        assert(Fixed::of(a@) == a);
    }

    proof fn magnitudes(a: Self) {
        lemma_literal_units();
        assert(Fixed::of(a@) == a);
    }

    proof fn roots(a: Self, b: Self) {
        lemma_literal_units();
        let (p, q) = (a@, b@);
        let x = p * q;
        assert(x == q * p && x >= 1) by (nonlinear_arith)
            requires
                p >= 1,
                q >= 1,
                x == p * q,
        ;
        let r = lemma_floor_root_exists(x as nat);
        lemma_floor_root(r, x);
        if r == 0 {
            assert((r + 1) * (r + 1) == 1) by (nonlinear_arith)
                requires
                    r == 0,
            ;
        }
        assert(r <= LIMIT) by (nonlinear_arith)
            requires
                r * r <= p * q,
                0 <= p <= LIMIT,
                0 <= q <= LIMIT,
                r >= 0,
        ;
        assert(p * p < (p + 1) * (p + 1) && p * p > 0) by (nonlinear_arith)
            requires
                p > 0,
        ;
        lemma_floor_root(p, p * p);
        assert(Fixed::of(p) == a);
    }

    proof fn roundings(a: Self, b: Self) {
        lemma_literal_units();
        let k = ONE as int;
        if a@ >= 0 {
            vstd::arithmetic::div_mod::lemma_div_is_ordered(abs(a@) + k / 2, abs(b@) + k / 2, k);
        } else if b@ < 0 {
            vstd::arithmetic::div_mod::lemma_div_is_ordered(abs(b@) + k / 2, abs(a@) + k / 2, k);
        }
    }

    proof fn fiftieths() {
        lemma_literal_units();
        reveal_with_fuel(ten_to, 14);
        assert(Fixed::lit(2, 2)@ == 20_000_000_000);
        let part = 20_000_000_000int;
        lemma_quot_exact(50 * ONE as int, part);
        lemma_quot_exact(ONE as int, ONE as int);
        assert(ONE * ONE == (50 * ONE) * part) by (nonlinear_arith)
            requires
                ONE == 1_000_000_000_000,
                part == 20_000_000_000,
        ;
        assert(Fixed::lit(1, 0).div(Fixed::lit(2, 2))@ == 50 * ONE);
        assert(Fixed::lit(1, 0).div(Fixed::lit(2, 2)).nearest()@ == 50 * ONE);
    }
}

/// The units in a fiftieth.
pub const FIFTIETH: u128 = 20_000_000_000;

/// A probability is brought onto the nearest fiftieth, after it has been brought between zero and
/// one; one that lies on a fiftieth already stays there.
pub proof fn law_snapped_to_the_nearest_fiftieth(p: Fixed) -> (k: int)
    requires
        is_number(p),
    ensures
        0 <= k <= 50,
        snapped(p)@ == k * FIFTIETH,
        abs(2 * (snapped(p)@ - clamped(p, zero(), one::<Fixed>())@)) <= FIFTIETH,
        snapped(snapped(p)) == snapped(p),
{
    let k = lemma_snapped(p);
    lemma_snapped(snapped(p));
    k
}

proof fn lemma_snapped(p: Fixed) -> (k: int)
    requires
        is_number(p),
    ensures
        0 <= k <= 50,
        snapped(p) == Fixed::of(k * FIFTIETH),
        snapped(p)@ == k * FIFTIETH,
        abs(2 * (k * FIFTIETH - clamped(p, zero(), one::<Fixed>())@)) <= FIFTIETH,
{
    lemma_literal_units();
    reveal_with_fuel(ten_to, 14);
    let within = clamped(p, zero(), one::<Fixed>());
    let c = within@;
    let one_unit = ONE as int;
    let step = FIFTIETH as int;
    assert(Fixed::lit(2, 2)@ == step);
    assert(c * one_unit == (50 * c) * step);
    lemma_quot_exact(50 * c, step);
    let k = (50 * c + ONE / 2) / one_unit;
    assert(within.div(Fixed::lit(2, 2))@ == 50 * c);
    let rounded = within.div(Fixed::lit(2, 2)).nearest();
    assert(rounded@ == k * one_unit);
    assert((k * one_unit) * step == (k * step) * one_unit) by (nonlinear_arith);
    lemma_quot_exact(k * step, one_unit);
    k
}

} // verus!
