//! Sums of products of whole numbers, and how far they can go apart.

use vstd::prelude::*;

verus! {

pub open spec fn sum_of(s: Seq<int>) -> int
    decreases s.len(),
{
    if s.len() == 0 {
        0
    } else {
        sum_of(s.drop_last()) + s.last()
    }
}

/// The products of the values at the same places, added up.
pub open spec fn dot(x: Seq<int>, y: Seq<int>) -> int
    decreases x.len(),
{
    if x.len() == 0 {
        0
    } else {
        dot(x.drop_last(), y.drop_last()) + x.last() * y.last()
    }
}

/// The products of the deviations of two samples from their means, added up and taken as often as
/// there are values, which makes it a whole number.
pub open spec fn moment(x: Seq<int>, y: Seq<int>) -> int {
    x.len() * dot(x, y) - sum_of(x) * sum_of(y)
}

/// Whether a sample is made of others: so many times one and so many times another.
pub open spec fn is_combination(z: Seq<int>, s: int, x: Seq<int>, t: int, y: Seq<int>) -> bool {
    &&& z.len() == x.len()
    &&& z.len() == y.len()
    &&& forall|i: int| 0 <= i < z.len() ==> #[trigger] z[i] == s * x[i] + t * y[i]
}

/// It does not matter which of two samples comes first.
pub proof fn lemma_dot_commutes(x: Seq<int>, y: Seq<int>)
    requires
        x.len() == y.len(),
    ensures
        dot(x, y) == dot(y, x),
        moment(x, y) == moment(y, x),
    decreases x.len(),
{
    if x.len() > 0 {
        lemma_dot_commutes(x.drop_last(), y.drop_last());
        let (a, b) = (x.last(), y.last());
        assert(a * b == b * a) by (nonlinear_arith);
    }
    let (a, b) = (sum_of(x), sum_of(y));
    assert(a * b == b * a) by (nonlinear_arith);
}

/// The sum and the products of a combination are the combinations of those of its parts.
pub proof fn lemma_combination(z: Seq<int>, s: int, x: Seq<int>, t: int, y: Seq<int>, w: Seq<int>)
    requires
        is_combination(z, s, x, t, y),
        w.len() == z.len(),
    ensures
        sum_of(z) == s * sum_of(x) + t * sum_of(y),
        dot(z, w) == s * dot(x, w) + t * dot(y, w),
    decreases z.len(),
{
    if z.len() > 0 {
        let last = z.len() - 1;
        assert(z[last] == s * x[last] + t * y[last]);
        let (zz, xx, yy, ww) = (z.drop_last(), x.drop_last(), y.drop_last(), w.drop_last());
        assert forall|i: int| 0 <= i < zz.len() implies #[trigger] zz[i] == s * xx[i] + t
            * yy[i] by {
            assert(z[i] == s * x[i] + t * y[i]);
        }
        lemma_combination(zz, s, xx, t, yy, ww);
        let (a, b, c) = (x.last(), y.last(), w.last());
        let (sx, sy) = (sum_of(xx), sum_of(yy));
        let (dx, dy) = (dot(xx, ww), dot(yy, ww));
        assert(s * (sx + a) + t * (sy + b) == s * sx + t * sy + (s * a + t * b))
            by (nonlinear_arith);
        assert(s * (dx + a * c) + t * (dy + b * c) == s * dx + t * dy + (s * a + t * b) * c)
            by (nonlinear_arith);
    } else {
        assert(s * 0 + t * 0 == 0) by (nonlinear_arith);
    }
}

/// The moment of a combination is the combination of the moments.
pub proof fn lemma_moment_of_combination(
    z: Seq<int>,
    s: int,
    x: Seq<int>,
    t: int,
    y: Seq<int>,
    w: Seq<int>,
)
    requires
        is_combination(z, s, x, t, y),
        w.len() == z.len(),
    ensures
        moment(z, w) == s * moment(x, w) + t * moment(y, w),
{
    lemma_combination(z, s, x, t, y, w);
    let n = z.len() as int;
    let (a, b, c) = (sum_of(x), sum_of(y), sum_of(w));
    let (d, e) = (dot(x, w), dot(y, w));
    assert(n * (s * d + t * e) == s * (n * d) + t * (n * e)) by (nonlinear_arith);
    assert((s * a + t * b) * c == s * (a * c) + t * (b * c)) by (nonlinear_arith);
    let (nd, ne, ac, bc) = (n * d, n * e, a * c, b * c);
    assert(s * (nd - ac) == s * nd - s * ac && t * (ne - bc) == t * ne - t * bc)
        by (nonlinear_arith);
}

proof fn lemma_constant(z: Seq<int>, c: int, w: Seq<int>)
    requires
        z.len() == w.len(),
        forall|i: int| 0 <= i < z.len() ==> #[trigger] z[i] == c,
    ensures
        sum_of(z) == z.len() * c,
        dot(z, w) == c * sum_of(w),
    decreases z.len(),
{
    if z.len() > 0 {
        assert(z[z.len() - 1] == c);
        lemma_constant(z.drop_last(), c, w.drop_last());
        let (a, b) = (sum_of(w.drop_last()), w.last());
        assert(c * (a + b) == c * a + c * b) by (nonlinear_arith);
        assert((z.len() - 1) * c + c == z.len() * c) by (nonlinear_arith);
    } else {
        assert(0 * c == 0 && c * 0 == 0) by (nonlinear_arith);
    }
}

/// A constant sample has no moment with any other.
pub proof fn lemma_moment_of_constant(z: Seq<int>, c: int, w: Seq<int>)
    requires
        z.len() == w.len(),
        forall|i: int| 0 <= i < z.len() ==> #[trigger] z[i] == c,
    ensures
        moment(z, w) == 0,
        sum_of(z) == z.len() * c,
        dot(z, w) == c * sum_of(w),
{
    lemma_constant(z, c, w);
    let (n, a) = (z.len() as int, sum_of(w));
    assert(n * (c * a) == (n * c) * a) by (nonlinear_arith);
}

proof fn lemma_squares(z: Seq<int>, a: int)
    ensures
        dot(z, z) - 2 * (a * sum_of(z)) + z.len() * (a * a) >= 0,
    decreases z.len(),
{
    if z.len() > 0 {
        lemma_squares(z.drop_last(), a);
        let (b, s, n) = (z.last(), sum_of(z.drop_last()), z.len() as int);
        assert(b * b - 2 * (a * (s + b)) + n * (a * a) == (b - a) * (b - a) - 2 * (a * s) + (n - 1)
            * (a * a)) by (nonlinear_arith);
        assert((b - a) * (b - a) >= 0) by (nonlinear_arith);
    } else {
        assert(a * 0 == 0 && 0 * (a * a) == 0) by (nonlinear_arith);
    }
}

/// No sample has a negative moment with itself.
pub proof fn lemma_moment_is_not_negative(z: Seq<int>)
    ensures
        moment(z, z) >= 0,
    decreases z.len(),
{
    if z.len() > 0 {
        let rest = z.drop_last();
        lemma_moment_is_not_negative(rest);
        let (a, s, q, n) = (z.last(), sum_of(rest), dot(rest, rest), rest.len() as int);
        lemma_squares(rest, a);
        assert((n + 1) * (q + a * a) - (s + a) * (s + a) == (n * q - s * s) + (q - 2 * (a * s) + n
            * (a * a))) by (nonlinear_arith);
    } else {
        assert(0 * dot(z, z) == 0 && 0 * 0 == 0) by (nonlinear_arith);
    }
}

/// The moment of two samples is at most the mean of their own, in the geometric sense.
pub proof fn lemma_moment_is_bounded(x: Seq<int>, y: Seq<int>)
    requires
        x.len() == y.len(),
        moment(y, y) > 0,
    ensures
        moment(x, y) * moment(x, y) <= moment(x, x) * moment(y, y),
{
    let (a, b, c) = (moment(x, x), moment(y, y), moment(x, y));
    let z = Seq::new(x.len(), |i: int| b * x[i] + (-c) * y[i]);
    lemma_dot_commutes(x, y);
    lemma_dot_commutes(z, x);
    lemma_dot_commutes(z, y);
    lemma_moment_of_combination(z, b, x, -c, y, x);
    lemma_moment_of_combination(z, b, x, -c, y, y);
    lemma_moment_of_combination(z, b, x, -c, y, z);
    lemma_moment_is_not_negative(z);
    let (zx, zy) = (moment(z, x), moment(z, y));
    assert(b * zx + (-c) * zy == b * (a * b - c * c)) by (nonlinear_arith)
        requires
            zx == b * a + (-c) * c,
            zy == b * c + (-c) * b,
    ;
    assert(c * c <= a * b) by (nonlinear_arith)
        requires
            b * (a * b - c * c) >= 0,
            b > 0,
    ;
}

/// Small values have a small moment with themselves.
pub proof fn lemma_moment_of_small_values(z: Seq<int>, most: int)
    requires
        most >= 0,
        forall|i: int| 0 <= i < z.len() ==> -most <= #[trigger] z[i] <= most,
    ensures
        moment(z, z) <= (z.len() * most) * (z.len() * most),
{
    lemma_dot_of_small_values(z, most);
    let (n, s, q) = (z.len() as int, sum_of(z), dot(z, z));
    assert(n * q - s * s <= (n * most) * (n * most)) by (nonlinear_arith)
        requires
            q <= n * (most * most),
            n >= 0,
    ;
}

proof fn lemma_dot_of_small_values(z: Seq<int>, most: int)
    requires
        most >= 0,
        forall|i: int| 0 <= i < z.len() ==> -most <= #[trigger] z[i] <= most,
    ensures
        dot(z, z) <= z.len() * (most * most),
    decreases z.len(),
{
    if z.len() > 0 {
        let a = z[z.len() - 1];
        lemma_dot_of_small_values(z.drop_last(), most);
        assert(a * a <= most * most) by (nonlinear_arith)
            requires
                -most <= a <= most,
        ;
        assert((z.len() - 1) * (most * most) + most * most == z.len() * (most * most))
            by (nonlinear_arith);
    } else {
        assert(0 * (most * most) == 0) by (nonlinear_arith);
    }
}

} // verus!
