//! The numbers that the model computes with.
//!
//! Wages, prices and rates are real quantities. The model is written over any type that offers
//! the operations of [`Number`], so that a run can use hardware floating point, or the
//! reproducible fixed-point numbers of [`crate::fixed`]. Every operation is a function of its
//! operands: its result has a name, and the contracts of the model are stated over those names.

use vstd::prelude::*;

verus! {

/// A type of numbers.
///
/// The spec functions are the meaning of the operations; an implementation says what they are. One
/// that does not, such as one outside of verified code, gives the contracts nothing to speak of.
/// Values need not be totally ordered: a value that is not at most itself is "not a number".
pub trait Number: Copy {
    /// The value of the decimal literal `mantissa` / 10^`places`.
    open spec fn lit(mantissa: int, places: nat) -> Self {
        arbitrary()
    }

    /// The value of a number of things.
    open spec fn count_of(n: nat) -> Self {
        arbitrary()
    }

    /// A value that no sum of money exceeds.
    open spec fn top() -> Self {
        arbitrary()
    }

    open spec fn add(self, other: Self) -> Self {
        arbitrary()
    }

    open spec fn sub(self, other: Self) -> Self {
        arbitrary()
    }

    open spec fn mul(self, other: Self) -> Self {
        arbitrary()
    }

    open spec fn div(self, other: Self) -> Self {
        arbitrary()
    }

    open spec fn magnitude(self) -> Self {
        arbitrary()
    }

    /// The nearest whole value, halves away from zero.
    open spec fn nearest(self) -> Self {
        arbitrary()
    }

    /// The square root of the product.
    open spec fn geometric(self, other: Self) -> Self {
        arbitrary()
    }

    /// The value as a machine integer.
    open spec fn whole(self) -> i64 {
        arbitrary()
    }

    open spec fn below(self, other: Self) -> bool {
        arbitrary()
    }

    open spec fn at_most(self, other: Self) -> bool {
        arbitrary()
    }

    /// The decimal text with exactly `digits` digits behind the point.
    open spec fn text(self, digits: nat) -> Seq<char> {
        arbitrary()
    }

    /// The shortest text that stands for the value.
    open spec fn shown(self) -> Seq<char> {
        arbitrary()
    }

    /// The value that a text stands for, if it stands for one.
    open spec fn parsed(text: Seq<char>) -> Option<Self> {
        arbitrary()
    }

    fn decimal(mantissa: i64, places: u32) -> (r: Self)
        ensures
            r == Self::lit(mantissa as int, places as nat),
    ;

    fn from_count(n: u64) -> (r: Self)
        ensures
            r == Self::count_of(n as nat),
    ;

    fn infinity() -> (r: Self)
        ensures
            r == Self::top(),
    ;

    fn plus(self, other: Self) -> (r: Self)
        ensures
            r == self.add(other),
    ;

    fn minus(self, other: Self) -> (r: Self)
        ensures
            r == self.sub(other),
    ;

    fn times(self, other: Self) -> (r: Self)
        ensures
            r == self.mul(other),
    ;

    fn over(self, other: Self) -> (r: Self)
        ensures
            r == self.div(other),
    ;

    fn abs(self) -> (r: Self)
        ensures
            r == self.magnitude(),
    ;

    fn round(self) -> (r: Self)
        ensures
            r == self.nearest(),
    ;

    fn geometric_mean(self, other: Self) -> (r: Self)
        ensures
            r == self.geometric(other),
    ;

    fn to_i64(self) -> (r: i64)
        ensures
            r == self.whole(),
    ;

    fn lt(self, other: Self) -> (r: bool)
        ensures
            r == self.below(other),
    ;

    fn le(self, other: Self) -> (r: bool)
        ensures
            r == self.at_most(other),
    ;

    fn to_fixed(self, digits: u32) -> (r: String)
        ensures
            r@ == self.text(digits as nat),
    ;

    fn to_text(self) -> (r: String)
        ensures
            r@ == self.shown(),
    ;

    fn parse(text: &str) -> (r: Option<Self>)
        ensures
            r == Self::parsed(text@),
    ;
}

/// Whether a value is a number.
pub open spec fn is_number<R: Number>(x: R) -> bool {
    x.at_most(x)
}

pub open spec fn zero<R: Number>() -> R {
    R::lit(0, 0)
}

pub open spec fn one<R: Number>() -> R {
    R::lit(1, 0)
}

/// The number of the same magnitude and the other sign.
pub open spec fn negated<R: Number>(x: R) -> R {
    zero::<R>().sub(x)
}

/// A type of numbers whose arithmetic goes with their order: it may round, and it may stop at a
/// largest magnitude, but what is larger stays at least as large.
pub trait Ordered: Number {
    /// The numbers are totally ordered.
    proof fn order(a: Self, b: Self, c: Self)
        ensures
            a.at_most(b) ==> is_number(a) && is_number(b),
            is_number(a) && is_number(b) ==> (a.below(b) <==> !b.at_most(a)),
            a.below(b) ==> a.at_most(b),
            a.at_most(b) && b.at_most(c) ==> a.at_most(c),
            a.at_most(b) && b.at_most(a) ==> a == b,
            is_number(a) ==> a.at_most(Self::top()),
    ;

    /// Literals are ordered as what they stand for.
    proof fn literals(m: int, places: nat, n: int)
        requires
            places <= 12,
        ensures
            m <= n ==> Self::lit(m, places).at_most(Self::lit(n, places)),
            Self::lit(0, places) == zero::<Self>(),
            m > 0 ==> zero::<Self>().below(Self::lit(m, places)),
            places < 12 ==> Self::lit(10 * m, places + 1) == Self::lit(m, places),
            -1_000_000_000_000 <= m < n <= 1_000_000_000_000 ==> Self::lit(m, places).below(
                Self::lit(n, places),
            ),
            -1_000_000_000_000 <= m <= 1_000_000_000_000 ==> Self::lit(m, places).below(
                Self::top(),
            ),
    ;

    /// Counts are ordered as what they count.
    proof fn counts(m: nat, n: nat)
        ensures
            m <= n ==> Self::count_of(m).at_most(Self::count_of(n)),
            Self::count_of(0) == zero::<Self>(),
            m > 0 ==> zero::<Self>().below(Self::count_of(m)),
            Self::count_of(m).add(one()).at_most(Self::count_of(m + 1)),
    ;

    proof fn sums(a: Self, b: Self, c: Self)
        requires
            a.at_most(b),
            is_number(c),
        ensures
            a.add(c).at_most(b.add(c)),
            c.add(a).at_most(c.add(b)),
            c.add(zero()) == c,
            zero::<Self>().add(c) == c,
    ;

    proof fn differences(a: Self, b: Self, c: Self)
        requires
            a.at_most(b),
            is_number(c),
        ensures
            a.sub(c).at_most(b.sub(c)),
            c.sub(b).at_most(c.sub(a)),
            c.sub(c) == zero::<Self>(),
            c.sub(zero()) == c,
    ;

    /// What is taken from an amount and given back restores it.
    proof fn refills(a: Self, b: Self)
        requires
            zero::<Self>().at_most(a),
            a.at_most(b),
        ensures
            a.add(b.sub(a)) == b,
    ;

    proof fn products(a: Self, b: Self, c: Self)
        requires
            a.at_most(b),
            zero::<Self>().at_most(c),
        ensures
            a.mul(c).at_most(b.mul(c)),
            c.mul(a).at_most(c.mul(b)),
            zero::<Self>().mul(a) == zero::<Self>(),
            a.mul(zero()) == zero::<Self>(),
            a.mul(one()) == a,
            one::<Self>().mul(a) == a,
    ;

    /// The sign of a number passes through arithmetic.
    proof fn signs(a: Self, b: Self)
        requires
            is_number(a),
            is_number(b),
        ensures
            is_number(a.mul(b)),
            a.mul(b) == b.mul(a),
            negated(negated(a)) == a,
            negated(a).add(negated(b)) == negated(a.add(b)),
            negated(a).sub(negated(b)) == negated(a.sub(b)),
            negated(a).mul(b) == negated(a.mul(b)),
            negated(a).mul(negated(b)) == a.mul(b),
            negated(a).div(b) == negated(a.div(b)),
            negated(one::<Self>()) == Self::lit(-1, 0),
    ;

    proof fn quotients(a: Self, b: Self, c: Self)
        requires
            a.at_most(b),
            zero::<Self>().below(c),
        ensures
            a.div(c).at_most(b.div(c)),
            c.div(c) == one::<Self>(),
            zero::<Self>().div(c) == zero::<Self>(),
            zero::<Self>().sub(c).div(c) == Self::lit(-1, 0),
    ;

    proof fn parts(a: Self, c: Self, d: Self)
        requires
            zero::<Self>().at_most(a),
            zero::<Self>().below(c),
            c.at_most(d),
        ensures
            a.div(d).at_most(a.div(c)),
            a.div(one()) == a,
    ;

    proof fn magnitudes(a: Self)
        requires
            is_number(a),
        ensures
            zero::<Self>().at_most(a.magnitude()),
            zero::<Self>().at_most(a) ==> a.magnitude() == a,
    ;

    proof fn roots(a: Self, b: Self)
        requires
            zero::<Self>().below(a),
            zero::<Self>().below(b),
        ensures
            zero::<Self>().below(a.geometric(b)),
            a.geometric(b) == b.geometric(a),
            a.geometric(a) == a,
    ;

    proof fn roundings(a: Self, b: Self)
        requires
            a.at_most(b),
        ensures
            a.nearest().at_most(b.nearest()),
            zero::<Self>().nearest() == zero::<Self>(),
    ;

    /// One is fifty fiftieths.
    proof fn fiftieths()
        ensures
            one::<Self>().div(Self::lit(2, 2)).nearest().mul(Self::lit(2, 2)) == one::<Self>(),
    ;
}

/// The number that a text stands for, if it stands for one.
pub open spec fn number_in<R: Number>(text: Seq<char>) -> Option<R> {
    match R::parsed(text) {
        Some(x) => if is_number(x) {
            Some(x)
        } else {
            None
        },
        None => None,
    }
}

pub fn read_number<R: Number>(text: &str) -> (r: Option<R>)
    ensures
        r == number_in::<R>(text@),
{
    match R::parse(text) {
        Some(x) => if x.le(x) {
            Some(x)
        } else {
            None
        },
        None => None,
    }
}

/// The larger of two values; one that is not a number gives way to the other.
pub open spec fn max_of<R: Number>(a: R, b: R) -> R {
    if a.below(b) || !a.at_most(a) {
        b
    } else {
        a
    }
}

/// The smaller of two values; one that is not a number gives way to the other.
pub open spec fn min_of<R: Number>(a: R, b: R) -> R {
    if b.below(a) || !a.at_most(a) {
        b
    } else {
        a
    }
}

/// `x` brought into the range from `lo` to `hi`; what is not a number stays as it is.
pub open spec fn clamped<R: Number>(x: R, lo: R, hi: R) -> R {
    if x.below(lo) {
        lo
    } else if hi.below(x) {
        hi
    } else {
        x
    }
}

/// The sum of a sequence, added up from zero and from its first term on.
pub open spec fn total<R: Number>(s: Seq<R>) -> R
    decreases s.len(),
{
    if s.len() == 0 {
        R::lit(0, 0)
    } else {
        total(s.drop_last()).add(s.last())
    }
}

pub fn max<R: Number>(a: R, b: R) -> (r: R)
    ensures
        r == max_of(a, b),
{
    if a.lt(b) || !a.le(a) {
        b
    } else {
        a
    }
}

pub fn min<R: Number>(a: R, b: R) -> (r: R)
    ensures
        r == min_of(a, b),
{
    if b.lt(a) || !a.le(a) {
        b
    } else {
        a
    }
}

pub fn clamp<R: Number>(x: R, lo: R, hi: R) -> (r: R)
    ensures
        r == clamped(x, lo, hi),
{
    if x.lt(lo) {
        lo
    } else if hi.lt(x) {
        hi
    } else {
        x
    }
}

pub fn sum<R: Number>(v: &[R]) -> (r: R)
    ensures
        r == total(v@),
{
    let mut t: R = R::decimal(0, 0);
    for i in 0..v.len()
        invariant
            t == total(v@.take(i as int)),
    {
        assert(v@.take(i + 1).drop_last() =~= v@.take(i as int));
        t = t.plus(v[i]);
    }
    assert(v@.take(v.len() as int) =~= v@);
    t
}

} // verus!
