//! How correlations of decimal numbers behave: what keeps them, and how far rounding can move them.

use vstd::prelude::*;

use crate::exact::{lemma_divided_equally, lemma_sum_is_not_negative, sum_units};
use crate::fixed::{
    abs, is_floor_root, law_same_units_same_number, law_units_are_kept, lemma_floor_root,
    lemma_floor_root_exists,
    lemma_literal_units, lemma_parts, lemma_quot_exact, lemma_quot_odd, limited, quot, ten_to,
    Fixed, LIMIT, ONE,
};
use crate::laws::{all_numbers, law_correlations_have_the_sign_of_the_covariance};
use crate::metrics::{co_moment, mean_of, pearson_of};
use crate::moments::{
    dot, is_combination, lemma_combination, lemma_dot_commutes, lemma_moment_is_bounded,
    lemma_moment_is_not_negative, lemma_moment_of_combination, lemma_moment_of_constant,
    lemma_moment_of_small_values, moment, sum_of,
};
use crate::number::{total, zero, Number};
use crate::spread::is_scaled;

verus! {

broadcast use law_units_are_kept;

/// The magnitudes of a sequence of numbers, in units, added up.
pub open spec fn sum_sizes(s: Seq<Fixed>) -> int
    decreases s.len(),
{
    if s.len() == 0 {
        0
    } else {
        sum_sizes(s.drop_last()) + abs(s.last()@)
    }
}

proof fn lemma_sum_within_sizes(s: Seq<Fixed>)
    ensures
        abs(sum_units(s)) <= sum_sizes(s),
        forall|i: int| 0 <= i < s.len() ==> abs((#[trigger] s[i])@) <= sum_sizes(s),
    decreases s.len(),
{
    if s.len() > 0 {
        let rest = s.drop_last();
        lemma_sum_within_sizes(rest);
        assert forall|i: int| 0 <= i < s.len() implies abs((#[trigger] s[i])@) <= sum_sizes(s) by {
            if i < rest.len() {
                assert(s[i] == rest[i]);
            }
        }
    }
}

/// Numbers of either sign add up exactly where even their magnitudes stay within the limits.
pub proof fn law_small_totals_are_exact(s: Seq<Fixed>)
    requires
        sum_sizes(s) <= LIMIT,
    ensures
        total(s)@ == sum_units(s),
    decreases s.len(),
{
    lemma_literal_units();
    lemma_sum_within_sizes(s);
    if s.len() > 0 {
        law_small_totals_are_exact(s.drop_last());
    }
}

proof fn lemma_sizes_scale(v: Seq<Fixed>, w: Seq<Fixed>, a: int)
    requires
        is_scaled(v, w, a, 1),
        a > 0,
    ensures
        sum_sizes(w) == a * sum_sizes(v),
        sum_units(w) == a * sum_units(v),
    decreases v.len(),
{
    if v.len() > 0 {
        let (p, q) = (v.last()@, w.last()@);
        assert(w[w.len() - 1]@ * 1 == v[v.len() - 1]@ * a);
        assert(is_scaled(v.drop_last(), w.drop_last(), a, 1)) by {
            assert forall|i: int| 0 <= i < v.len() - 1 implies (#[trigger] w.drop_last()[i])@ * 1
                == v.drop_last()[i]@ * a by {
                assert(w[i]@ * 1 == v[i]@ * a);
            }
        }
        lemma_sizes_scale(v.drop_last(), w.drop_last(), a);
        let (x, y) = (sum_sizes(v.drop_last()), sum_units(v.drop_last()));
        assert(abs(q) == a * abs(p)) by (nonlinear_arith)
            requires
                q == p * a,
                a > 0,
        ;
        assert(a * (x + abs(p)) == a * x + a * abs(p) && a * (y + p) == a * y + p * a)
            by (nonlinear_arith);
    } else {
        assert(a * 0 == 0) by (nonlinear_arith);
    }
}

/// The products of the deviations of two samples from their means.
pub open spec fn deviation_products(x: Seq<Fixed>, y: Seq<Fixed>) -> Seq<Fixed> {
    Seq::new(x.len(), |i: int| x[i].sub(mean_of(x)).mul(y[i].sub(mean_of(y))))
}

proof fn lemma_exact_mean(x: Seq<Fixed>)
    requires
        0 < x.len() <= u64::MAX,
        sum_sizes(x) <= LIMIT,
        sum_units(x) % (x.len() as int) == 0,
    ensures
        mean_of(x)@ == sum_units(x) / (x.len() as int),
        mean_of(x)@ * x.len() == sum_units(x),
        abs(mean_of(x)@) <= sum_sizes(x),
{
    let n = x.len() as int;
    let one = ONE as int;
    law_small_totals_are_exact(x);
    lemma_sum_within_sizes(x);
    let m = sum_units(x) / n;
    lemma_parts(sum_units(x), n);
    assert((m * n) * one == m * (n * one) && n * one > 0) by (nonlinear_arith)
        requires
            n > 0,
            one > 0,
    ;
    lemma_quot_exact(m, n * one);
    assert(abs(m) <= abs(m * n)) by (nonlinear_arith)
        requires
            n >= 1,
    ;
    assert(n * ONE <= LIMIT) by (nonlinear_arith)
        requires
            0 < n <= u64::MAX,
            ONE == 1_000_000_000_000,
            LIMIT == 1_000_000_000_000_000_000_000_000_000_000_000_000,
    ;
    assert(Fixed::count_of(x.len())@ == n * one);
}

/// Measuring one sample in units `a` times as small makes the covariance `a` times as large and
/// leaves the correlation on its side of zero, where the mean of the sample and the products of
/// the deviations are not rounded.
pub proof fn law_scaling_keeps_the_sign_of_correlations(
    x: Seq<Fixed>,
    y: Seq<Fixed>,
    w: Seq<Fixed>,
    a: int,
)
    requires
        x.len() == y.len(),
        0 < x.len() <= u64::MAX,
        all_numbers(x),
        all_numbers(y),
        all_numbers(w),
        a > 0,
        is_scaled(x, w, a, 1),
        2 * (a * sum_sizes(x)) <= LIMIT,
        sum_units(x) % (x.len() as int) == 0,
        forall|i: int|
            0 <= i < x.len() ==> (x[i].sub(mean_of(x))@ * (#[trigger] y[i]).sub(mean_of(y))@)
                % (ONE as int) == 0,
        a * sum_sizes(deviation_products(x, y)) < LIMIT,
    ensures
        co_moment(w, mean_of(w), y, mean_of(y))@ == a * co_moment(
            x,
            mean_of(x),
            y,
            mean_of(y),
        )@,
        pearson_of(x, y) matches Some(r) ==> (pearson_of(w, y) matches Some(q) ==> (r@ > 0 ==> q@
            >= 0) && (r@ < 0 ==> q@ <= 0)),
{
    lemma_literal_units();
    let n = x.len() as int;
    let (s, t) = (sum_sizes(x), sum_units(x));
    lemma_sizes_scale(x, w, a);
    lemma_sum_within_sizes(x);
    assert(s <= a * s) by (nonlinear_arith)
        requires
            a >= 1,
            s >= 0,
    ;
    lemma_exact_mean(x);
    let (mx, my) = (mean_of(x), mean_of(y));
    assert((a * t) % n == 0) by {
        lemma_parts(t, n);
        assert(a * ((t / n) * n) == (a * (t / n)) * n) by (nonlinear_arith);
        vstd::arithmetic::div_mod::lemma_mod_multiples_basic(a * (t / n), n);
    }
    lemma_exact_mean(w);
    let mw = mean_of(w);
    assert(mw@ == a * mx@) by (nonlinear_arith)
        requires
            mw@ * n == a * t,
            mx@ * n == t,
            n > 0,
    ;
    let (p, q) = (deviation_products(x, y), deviation_products(w, y));
    lemma_sum_within_sizes(p);
    assert(is_scaled(p, q, a, 1)) by {
        assert forall|i: int| 0 <= i < p.len() implies (#[trigger] q[i])@ * 1 == p[i]@ * a by {
            let dx = x[i]@ - mx@;
            let e = y[i].sub(my)@;
            let one = ONE as int;
            assert(w[i]@ * 1 == x[i]@ * a);
            assert(abs(x[i]@) <= s);
            assert(x[i].sub(mx)@ == dx);
            assert(w[i]@ - mw@ == a * dx && abs(a * dx) <= 2 * (a * s)) by (nonlinear_arith)
                requires
                    w[i]@ == x[i]@ * a,
                    mw@ == a * mx@,
                    dx == x[i]@ - mx@,
                    abs(x[i]@) <= s,
                    abs(mx@) <= s,
                    a > 0,
            ;
            assert(w[i].sub(mw)@ == a * dx);
            let k = (dx * e) / one;
            assert((x[i].sub(mx)@ * y[i].sub(my)@) % one == 0);
            lemma_parts(dx * e, one);
            assert(dx * e == k * one);
            lemma_quot_exact(k, one);
            assert((a * dx) * e == (a * k) * one) by (nonlinear_arith)
                requires
                    dx * e == k * one,
            ;
            lemma_quot_exact(a * k, one);
            assert(p[i]@ == limited(k));
            assert(q[i]@ == limited(a * k));
            let size = sum_sizes(p);
            assert(abs(p[i]@) <= size);
            assert(size < LIMIT) by (nonlinear_arith)
                requires
                    a * size < LIMIT,
                    a >= 1,
                    size >= 0,
            ;
            assert(abs(a * k) < LIMIT) by (nonlinear_arith)
                requires
                    abs(k) <= size,
                    a * size < LIMIT,
                    a >= 1,
            ;
            assert(p[i]@ * a == a * k) by (nonlinear_arith)
                requires
                    p[i]@ == k,
            ;
        }
    }
    lemma_sizes_scale(p, q, a);
    let size = sum_sizes(p);
    assert(size <= a * size) by (nonlinear_arith)
        requires
            a >= 1,
            size >= 0,
    ;
    law_small_totals_are_exact(p);
    law_small_totals_are_exact(q);
    assert(p =~= Seq::new(x.len(), |i: int| x[i].sub(mx).mul(y[i].sub(my))));
    assert(q =~= Seq::new(w.len(), |i: int| w[i].sub(mw).mul(y[i].sub(my))));
    law_correlations_have_the_sign_of_the_covariance(x, y);
    law_correlations_have_the_sign_of_the_covariance(w, y);
    let c = sum_units(p);
    lemma_sum_within_sizes(q);
    assert((c >= 0 ==> a * c >= 0) && (c <= 0 ==> a * c <= 0)) by (nonlinear_arith)
        requires
            a > 0,
    ;
}

/// The largest magnitude of a moderate number: a hundred million.
pub const MODERATE: u128 = 100_000_000_000_000_000_000;

/// Whether a sample has at most a million values, of at most a hundred million each: then its sums
/// and those of its products stay within the limits.
pub open spec fn is_moderate(s: Seq<Fixed>) -> bool {
    &&& s.len() <= 1_000_000
    &&& forall|i: int| 0 <= i < s.len() ==> abs((#[trigger] s[i])@) <= MODERATE
}

/// The units of the values of a sample.
pub open spec fn units_of(s: Seq<Fixed>) -> Seq<int> {
    s.map_values(|x: Fixed| x@)
}

/// The units of a sample add up to the sum of its units.
pub proof fn lemma_sum_of_units(s: Seq<Fixed>)
    ensures
        sum_of(units_of(s)) == sum_units(s),
    decreases s.len(),
{
    if s.len() > 0 {
        lemma_sum_of_units(s.drop_last());
        assert(units_of(s).drop_last() =~= units_of(s.drop_last()));
    }
}

proof fn lemma_sizes_at_most(s: Seq<Fixed>, most: int)
    requires
        forall|i: int| 0 <= i < s.len() ==> abs((#[trigger] s[i])@) <= most,
    ensures
        sum_sizes(s) <= s.len() * most,
    decreases s.len(),
{
    if s.len() > 0 {
        assert(abs(s[s.len() - 1]@) <= most);
        lemma_sizes_at_most(s.drop_last(), most);
        assert((s.len() - 1) * most + most == s.len() * most) by (nonlinear_arith);
    } else {
        assert(0 * most == 0) by (nonlinear_arith);
    }
}

/// The mean of a moderate sample falls short of the exact one by less than a unit.
pub proof fn lemma_moderate_mean(x: Seq<Fixed>)
    requires
        is_moderate(x),
        x.len() > 0,
    ensures
        abs(sum_units(x) - x.len() * mean_of(x)@) < x.len(),
        abs(mean_of(x)@) <= MODERATE,
        sum_units(x) >= 0 ==> mean_of(x)@ == sum_units(x) / (x.len() as int),
{
    let n = x.len() as int;
    let one = ONE as int;
    let most = MODERATE as int;
    lemma_sizes_at_most(x, most);
    assert(n * most <= LIMIT) by (nonlinear_arith)
        requires
            0 < n <= 1_000_000,
            most == 100_000_000_000_000_000_000,
            LIMIT == 1_000_000_000_000_000_000_000_000_000_000_000_000,
    ;
    law_small_totals_are_exact(x);
    lemma_sum_within_sizes(x);
    let s = sum_units(x);
    assert(Fixed::count_of(x.len())@ == n * one);
    lemma_divided_equally(abs(s), x.len());
    assert(n * one > 0);
    let q = abs(s) / n;
    if s < 0 {
        lemma_quot_odd((-s) * one, n * one);
        assert(-((-s) * one) == s * one) by (nonlinear_arith);
    }
    let m = mean_of(x)@;
    assert(abs(s) <= n * most);
    assert(0 <= q <= most) by (nonlinear_arith)
        requires
            0 <= abs(s) - n * q < n,
            abs(s) <= n * most,
            n > 0,
            q >= 0,
    ;
    assert(m == (if s < 0 {
        -q
    } else {
        q
    }));
    assert(n * (-q) == -(n * q)) by (nonlinear_arith);
}

/// Deviations from a mean, in units.
spec fn deviations(x: Seq<Fixed>) -> Seq<int> {
    Seq::new(x.len(), |i: int| x[i]@ - mean_of(x)@)
}

proof fn lemma_deviations(x: Seq<Fixed>)
    requires
        is_moderate(x),
        x.len() > 0,
    ensures
        abs(sum_of(deviations(x))) < x.len(),
        forall|w: Seq<int>| w.len() == x.len() ==> #[trigger] moment(deviations(x), w) == moment(
            units_of(x),
            w,
        ),
        forall|i: int| 0 <= i < x.len() ==> abs(#[trigger] deviations(x)[i]) <= 2 * MODERATE,
        forall|i: int|
            0 <= i < x.len() ==> (#[trigger] x[i]).sub(mean_of(x))@ == deviations(x)[i],
{
    lemma_moderate_mean(x);
    lemma_sum_of_units(x);
    let d = deviations(x);
    let u = units_of(x);
    let m = mean_of(x)@;
    let ones = Seq::new(x.len(), |i: int| 1int);
    assert(is_combination(d, 1, u, -m, ones)) by {
        assert forall|i: int| 0 <= i < d.len() implies #[trigger] d[i] == 1 * u[i] + (-m)
            * ones[i] by {}
    }
    lemma_combination(d, 1, u, -m, ones, d);
    lemma_moment_of_constant(ones, 1, d);
    let n = x.len() as int;
    assert((-m) * (n * 1) == -(n * m)) by (nonlinear_arith);
    assert forall|w: Seq<int>| w.len() == x.len() implies #[trigger] moment(d, w) == moment(u, w) by {
        lemma_moment_of_combination(d, 1, u, -m, ones, w);
        lemma_moment_of_constant(ones, 1, w);
        assert((-m) * 0 == 0) by (nonlinear_arith);
    }
    assert forall|i: int| 0 <= i < x.len() implies abs(#[trigger] d[i]) <= 2 * MODERATE by {
        assert(abs(x[i]@) <= MODERATE);
    }
    assert forall|i: int| 0 <= i < x.len() implies (#[trigger] x[i]).sub(mean_of(x))@
        == d[i] by {
        assert(abs(x[i]@) <= MODERATE);
    }
}

proof fn lemma_rounded_products(p: Seq<Fixed>, x: Seq<int>, y: Seq<int>)
    requires
        p.len() == x.len(),
        p.len() == y.len(),
        forall|i: int| 0 <= i < p.len() ==> abs(ONE * (#[trigger] p[i])@ - x[i] * y[i]) <= ONE,
    ensures
        abs(ONE * sum_units(p) - dot(x, y)) <= p.len() * ONE,
    decreases p.len(),
{
    if p.len() > 0 {
        let last = p.len() - 1;
        assert(abs(ONE * p[last]@ - x[last] * y[last]) <= ONE);
        let (pp, xx, yy) = (p.drop_last(), x.drop_last(), y.drop_last());
        assert forall|i: int| 0 <= i < pp.len() implies abs(
            ONE * (#[trigger] pp[i])@ - xx[i] * yy[i],
        ) <= ONE by {
            assert(abs(ONE * p[i]@ - x[i] * y[i]) <= ONE);
        }
        lemma_rounded_products(pp, xx, yy);
    }
}

proof fn lemma_quot_by_one(a: int)
    ensures
        abs(ONE * quot(a, ONE as int) - a) < ONE,
        abs(quot(a, ONE as int)) <= abs(a) / (ONE as int),
{
    lemma_parts(abs(a), ONE as int);
}

/// The covariance of moderate samples, in units, is off by less than a unit for each value and each
/// mean.
pub proof fn lemma_rounded_co_moment(x: Seq<Fixed>, y: Seq<Fixed>)
    requires
        is_moderate(x),
        is_moderate(y),
        x.len() == y.len(),
        x.len() > 0,
    ensures
        ({
            let c = co_moment(x, mean_of(x), y, mean_of(y))@;
            let n = x.len() as int;
            &&& abs(n * (ONE * c) - moment(units_of(x), units_of(y))) <= n * (n * ONE) + n * n
            &&& c == sum_units(deviation_products(x, y))
            &&& sum_sizes(deviation_products(x, y)) < LIMIT
        }),
{
    let n = x.len() as int;
    let one = ONE as int;
    let (dx, dy) = (deviations(x), deviations(y));
    lemma_deviations(x);
    lemma_deviations(y);
    let p = deviation_products(x, y);
    let most = 40_000_000_000_000_000_000_000_000_000int;
    assert forall|i: int| 0 <= i < n implies abs(one * (#[trigger] p[i])@ - dx[i] * dy[i]) <= one
        && abs(p[i]@) <= most by {
        let a = dx[i] * dy[i];
        assert(x[i].sub(mean_of(x))@ == dx[i]);
        assert(y[i].sub(mean_of(y))@ == dy[i]);
        assert(abs(a) <= (2 * MODERATE) * (2 * MODERATE)) by (nonlinear_arith)
            requires
                a == dx[i] * dy[i],
                abs(dx[i]) <= 2 * MODERATE,
                abs(dy[i]) <= 2 * MODERATE,
        ;
        lemma_quot_by_one(a);
        assert(abs(a) / one <= most);
    }
    lemma_rounded_products(p, dx, dy);
    lemma_sizes_at_most(p, most);
    assert(n * most < LIMIT) by (nonlinear_arith)
        requires
            n <= 1_000_000,
            most == 40_000_000_000_000_000_000_000_000_000,
            LIMIT == 1_000_000_000_000_000_000_000_000_000_000_000_000,
    ;
    law_small_totals_are_exact(p);
    assert(p =~= Seq::new(x.len(), |i: int| x[i].sub(mean_of(x)).mul(y[i].sub(mean_of(y)))));
    let c = sum_units(p);
    let (ux, uy) = (units_of(x), units_of(y));
    lemma_dot_commutes(ux, dy);
    lemma_dot_commutes(uy, ux);
    assert(moment(dx, dy) == moment(ux, uy));
    let (a, b, d) = (sum_of(dx), sum_of(dy), dot(dx, dy));
    assert(abs(a * b) <= n * n) by (nonlinear_arith)
        requires
            abs(a) < n,
            abs(b) < n,
    ;
    let e = one * c - d;
    assert(abs(n * e) <= n * (n * one)) by (nonlinear_arith)
        requires
            abs(e) <= n * one,
            n > 0,
    ;
    assert(n * e == n * (one * c) - n * d) by (nonlinear_arith)
        requires
            e == one * c - d,
    ;
}

/// What is known of two correlations whose samples differ by a factor and by rounding: the covariance
/// `c` and the variances `v` and `u` of one, the covariance `d` and the variances `w` and `u` of the
/// other, and the roots `g` and `h` of the products of their variances.
struct Nearby {
    n: int,
    factor: int,
    c: int,
    d: int,
    v: int,
    w: int,
    u: int,
    g: int,
    h: int,
    /// A lower bound of the first sample's variances.
    m: int,
}

impl Nearby {
    spec fn holds(self) -> bool {
        let one = ONE as int;
        let n = self.n + 1;
        let a = self.factor;
        &&& 2 <= self.n
        &&& one <= a
        &&& self.m <= self.v
        &&& self.m <= self.u
        &&& self.n * one <= 1_000_000 * self.m
        &&& is_floor_root(self.g, self.v * self.u)
        &&& is_floor_root(self.h, self.w * self.u)
        &&& abs(one * self.d - a * self.c) <= 1100 * self.g + (one + a) * n
        &&& abs((one * one) * self.w - (a * a) * self.v) <= 2200 * (a * self.v) + self.n * one + (one
            * one + a * a) * n
        &&& 100 * abs(self.c) <= 101 * self.g
    }
}

proof fn lemma_root_is_close(k: Nearby)
    requires
        k.holds(),
    ensures
        2_000_000 <= k.m <= k.g,
        1000 * (k.v * k.u) <= 1001 * (k.g * k.g),
{
    let (m, v, u, g) = (k.m, k.v, k.u, k.g);
    assert(m >= 2_000_000);
    assert(m <= g) by (nonlinear_arith)
        requires
            m >= 0,
            m <= v,
            m <= u,
            v * u < (g + 1) * (g + 1),
            g >= 0,
    ;
    assert(1000 * ((g + 1) * (g + 1)) <= 1001 * (g * g)) by (nonlinear_arith)
        requires
            g >= 2_000_000,
    ;
}

/// How far the second root can lie from the first, as a number `far`.
proof fn lemma_root_moves_little(k: Nearby) -> (far: int)
    requires
        k.holds(),
    ensures
        0 <= far,
        abs(ONE * k.h - k.factor * k.g) <= far + k.factor,
        1990 * ((ONE * k.m) * far) <= (k.factor * k.g) * (1001 * (2 * ((k.n + 1) * ONE) + 2201 * k.m)
            + 1990),
        100 * far <= k.factor * k.g,
{
    lemma_root_is_close(k);
    let one = ONE as int;
    let n = k.n + 1;
    let (a, m, v, u, g, h, w) = (k.factor, k.m, k.v, k.u, k.g, k.h, k.w);
    let top = a * g;
    let e = 2200 * (a * v) + k.n * one + (one * one + a * a) * n;
    assert(top >= 1) by (nonlinear_arith)
        requires
            top == a * g,
            a >= 1,
            g >= 1,
    ;
    // The error of the variance, in multiples of the square of the factor.
    let l = 2 * (n * one) + 2201 * v;
    assert(k.n * one <= a * v) by (nonlinear_arith)
        requires
            k.n * one <= 1_000_000 * m,
            m <= v,
            m >= 0,
            a >= 1_000_000,
    ;
    assert(one * e <= (a * a) * l && e >= 0) by {
        let (av, aa, oo) = (a * v, a * a, one * one);
        assert(one * av <= aa * v && oo <= aa && av >= 0) by (nonlinear_arith)
            requires
                av == a * v,
                aa == a * a,
                oo == one * one,
                0 < one <= a,
                v >= 0,
        ;
        assert(one * ((oo + aa) * n) <= (2 * aa) * (n * one)) by (nonlinear_arith)
            requires
                oo <= aa,
                n >= 0,
                one > 0,
        ;
        assert((oo + aa) * n >= 0) by (nonlinear_arith)
            requires
                oo >= 0,
                aa >= 0,
                n >= 0,
        ;
        let no = n * one;
        assert((2 * aa) * no == aa * (2 * no) && aa * (2 * no + 2201 * v) == aa * (2 * no) + 2201
            * (aa * v)) by (nonlinear_arith);
        assert(one * (2201 * av) == 2201 * (one * av)) by (nonlinear_arith);
        let rest = (oo + aa) * n;
        assert(one * e <= one * (2201 * av) + one * rest) by (nonlinear_arith)
            requires
                e <= 2201 * av + rest,
                one > 0,
        ;
    }
    let eu = e * u;
    assert(eu >= 0) by (nonlinear_arith)
        requires
            eu == e * u,
            e >= 0,
            u >= 0,
    ;
    let far = 1 + (100 * eu) / (199 * top);
    lemma_parts(100 * eu, 199 * top);
    let q = (100 * eu) / (199 * top);
    assert(q * (199 * top) == 199 * (top * q) && top * (q + 1) == top * q + top) by (nonlinear_arith);
    assert(q >= 0) by {
        vstd::arithmetic::div_mod::lemma_div_pos_is_pos(100 * eu, 199 * top);
    }
    // 100 eu <= 199 top far <= 100 eu + 199 top
    let tf = top * far;
    assert(tf == top * q + top);
    assert(100 * eu <= 199 * tf <= 100 * eu + 199 * top);
    lemma_root_moves_little_bound(k, far, tf, eu, e, l);
    assert(100 * far <= top) by {
        let (um, z) = (one * m, 1001 * (2 * (n * one) + 2201 * m) + 1990);
        assert(100 * z <= 1990 * um) by {
            assert(n * one <= 2_000_000 * m) by (nonlinear_arith)
                requires
                    n == k.n + 1,
                    k.n >= 1,
                    k.n * one <= 1_000_000 * m,
                    one > 0,
            ;
        }
        assert(100 * far <= top) by (nonlinear_arith)
            requires
                1990 * (um * far) <= top * z,
                100 * z <= 1990 * um,
                um > 0,
                top >= 0,
                far >= 0,
        ;
    }
    lemma_root_squares(k, far, tf, eu);
    far
}

proof fn lemma_root_moves_little_bound(k: Nearby, far: int, tf: int, eu: int, e: int, l: int)
    requires
        k.holds(),
        tf == (k.factor * k.g) * far,
        eu == e * k.u,
        e >= 0,
        l == 2 * ((k.n + 1) * ONE) + 2201 * k.v,
        ONE * e <= (k.factor * k.factor) * l,
        199 * tf <= 100 * eu + 199 * (k.factor * k.g),
        far >= 0,
    ensures
        1990 * ((ONE * k.m) * far) <= (k.factor * k.g) * (1001 * (2 * ((k.n + 1) * ONE) + 2201 * k.m)
            + 1990),
{
    lemma_root_is_close(k);
    let one = ONE as int;
    let (a, m, v, u, g) = (k.factor, k.m, k.v, k.u, k.g);
    let top = a * g;
    let no = (k.n + 1) * one;
    let aa = a * a;
    let gg = g * g;
    let z = 2 * no + 2201 * m;
    let um = u * m;
    let vu = v * u;
    assert(0 <= um <= vu && no >= 0) by (nonlinear_arith)
        requires
            um == u * m,
            vu == v * u,
            0 <= m <= v,
            u >= 0,
            no == (k.n + 1) * one,
            k.n >= 0,
            one >= 0,
    ;
    assert(l * um <= vu * z) by {
        assert(l * um == 2 * (no * um) + 2201 * (v * um)) by (nonlinear_arith)
            requires
                l == 2 * no + 2201 * v,
        ;
        assert(no * um <= no * vu) by (nonlinear_arith)
            requires
                um <= vu,
                no >= 0,
        ;
        assert(v * um == vu * m) by (nonlinear_arith)
            requires
                um == u * m,
                vu == v * u,
        ;
        assert(vu * z == 2 * (no * vu) + 2201 * (vu * m)) by (nonlinear_arith)
            requires
                z == 2 * no + 2201 * m,
        ;
    }
    assert(1000 * (l * um) <= 1001 * (gg * z)) by (nonlinear_arith)
        requires
            l * um <= vu * z,
            1000 * vu <= 1001 * gg,
            z >= 0,
    ;
    let lum = l * um;
    // one * eu * m <= aa * lum
    let oem = (one * e) * um;
    assert(oem <= aa * lum) by (nonlinear_arith)
        requires
            oem == (one * e) * um,
            one * e <= aa * l,
            lum == l * um,
            um >= 0,
    ;
    let om = one * m;
    assert(om * eu == oem) by (nonlinear_arith)
        requires
            om == one * m,
            eu == e * u,
            oem == (one * e) * um,
            um == u * m,
    ;
    assert(199 * (om * tf) <= 100 * oem + 199 * (om * top)) by (nonlinear_arith)
        requires
            199 * tf <= 100 * eu + 199 * top,
            om * eu == oem,
            om >= 0,
    ;
    let tt = top * top;
    assert(aa * gg == tt) by (nonlinear_arith)
        requires
            aa == a * a,
            gg == g * g,
            tt == top * top,
            top == a * g,
    ;
    assert(1000 * (aa * lum) <= 1001 * (tt * z)) by (nonlinear_arith)
        requires
            1000 * lum <= 1001 * (gg * z),
            aa * gg == tt,
            aa >= 0,
    ;
    assert(om <= top) by (nonlinear_arith)
        requires
            om == one * m,
            top == a * g,
            0 <= one <= a,
            0 <= m <= g,
    ;
    assert(om * top <= tt) by (nonlinear_arith)
        requires
            om <= top,
            top >= 0,
            tt == top * top,
    ;
    assert(1990 * (om * tf) <= 1001 * (tt * z) + 1990 * tt);
    let x = om * far;
    assert(om * tf == top * x) by (nonlinear_arith)
        requires
            tf == top * far,
            x == om * far,
    ;
    assert(tt * z == top * (top * z)) by (nonlinear_arith)
        requires
            tt == top * top,
    ;
    assert(1990 * x <= top * (1001 * z + 1990)) by (nonlinear_arith)
        requires
            1990 * (top * x) <= 1001 * (top * (top * z)) + 1990 * (top * top),
            top > 0,
    ;
}

proof fn lemma_root_squares(k: Nearby, far: int, tf: int, eu: int)
    requires
        k.holds(),
        tf == (k.factor * k.g) * far,
        eu == (2200 * (k.factor * k.v) + k.n * ONE + (ONE * ONE + k.factor * k.factor) * (k.n + 1))
            * k.u,
        100 * eu <= 199 * tf,
        far >= 0,
        100 * far <= k.factor * k.g,
    ensures
        abs(ONE * k.h - k.factor * k.g) <= far + k.factor,
{
    lemma_root_is_close(k);
    let one = ONE as int;
    let (a, v, u, g, h, w) = (k.factor, k.v, k.u, k.g, k.h, k.w);
    let top = a * g;
    let low = one * h;
    let e = 2200 * (a * v) + k.n * one + (one * one + a * a) * (k.n + 1);
    let (p, q) = ((one * one) * w, (a * a) * v);
    assert(abs(p * u - q * u) <= eu) by (nonlinear_arith)
        requires
            abs(p - q) <= e,
            eu == e * u,
            u >= 0,
    ;
    let (pu, qu) = (p * u, q * u);
    // The squares of the scaled roots, and of those a unit on.
    let (s, t) = (low + one, top + a);
    assert(low * low <= pu && pu < s * s) by {
        let x = w * u;
        let oo = one * one;
        assert(pu == oo * x) by (nonlinear_arith)
            requires
                pu == (oo * w) * u,
                x == w * u,
        ;
        assert(low * low == oo * (h * h) && s * s == oo * ((h + 1) * (h + 1))) by (nonlinear_arith)
            requires
                low == one * h,
                s == one * h + one,
                oo == one * one,
        ;
        assert(oo * (h * h) <= oo * x && oo * x < oo * ((h + 1) * (h + 1))) by (nonlinear_arith)
            requires
                h * h <= x,
                x < (h + 1) * (h + 1),
                oo > 0,
        ;
    }
    assert(top * top <= qu && qu < t * t) by {
        let x = v * u;
        let aa = a * a;
        assert(aa > 0) by (nonlinear_arith)
            requires
                aa == a * a,
                a > 0,
        ;
        assert(qu == aa * x) by (nonlinear_arith)
            requires
                qu == (aa * v) * u,
                x == v * u,
        ;
        assert(top * top == aa * (g * g) && t * t == aa * ((g + 1) * (g + 1))) by (nonlinear_arith)
            requires
                top == a * g,
                t == a * g + a,
                aa == a * a,
        ;
        assert(aa * (g * g) <= aa * x && aa * x < aa * ((g + 1) * (g + 1))) by (nonlinear_arith)
            requires
                g * g <= x,
                x < (g + 1) * (g + 1),
                aa > 0,
        ;
    }
    assert(low >= 0 && top >= 0) by (nonlinear_arith)
        requires
            low == one * h,
            top == a * g,
            one >= 0,
            h >= 0,
            a >= 0,
            g >= 0,
    ;
    assert(low <= t + far) by (nonlinear_arith)
        requires
            low * low < t * t + eu,
            100 * eu <= 199 * (top * far),
            t >= top,
            top >= 0,
            far >= 0,
            low >= 0,
    ;
    assert(top - far <= s) by (nonlinear_arith)
        requires
            top * top - eu < s * s,
            100 * eu <= 199 * (top * far),
            100 * far <= top,
            far >= 0,
            s >= 0,
            top >= 0,
    ;
}

proof fn lemma_quot_is_close(a: int, b: int)
    requires
        b > 0,
    ensures
        abs(a - quot(a, b) * b) < b,
{
    lemma_parts(abs(a), b);
    let q = abs(a) / b;
    assert((-q) * b == -(q * b)) by (nonlinear_arith);
}

/// Correlations that differ by a factor and by rounding lie close together.
proof fn lemma_nearby_quotients(k: Nearby)
    requires
        k.holds(),
    ensures
        k.g > 0,
        k.h > 0,
        abs(quot(k.d * ONE, k.h) - quot(k.c * ONE, k.g)) * k.m <= 4 * ((k.n + 1) * ONE) + 3000 * k.m,
{
    lemma_root_is_close(k);
    let far = lemma_root_moves_little(k);
    let one = ONE as int;
    let no = (k.n + 1) * one;
    let (a, m, g, h, c, d) = (k.factor, k.m, k.g, k.h, k.c, k.d);
    let (top, low) = (a * g, one * h);
    let wide = far + a;
    assert(2_000_000 * a <= top) by (nonlinear_arith)
        requires
            top == a * g,
            a >= 0,
            g >= 2_000_000,
    ;
    assert(98 * top <= 100 * low);
    assert(h > 0) by (nonlinear_arith)
        requires
            98 * top <= 100 * low,
            low == one * h,
            one > 0,
            top > 0,
    ;
    let (r, q) = (quot(c * one, g), quot(d * one, h));
    lemma_quot_is_close(c * one, g);
    lemma_quot_is_close(d * one, h);
    let gap = abs(q - r);
    // The quotients, over a common divisor.
    let x = d * g - c * h;
    let gh = g * h;
    assert((gap - 2) * gh <= one * abs(x)) by {
        let (er, eq) = (c * one - r * g, d * one - q * h);
        let (dg, ch) = (d * g, c * h);
        assert(one * dg == q * gh + eq * g) by {
            assert(one * dg == (d * one) * g) by (nonlinear_arith)
                requires
                    dg == d * g,
            ;
            let qh = q * h;
            assert((qh + eq) * g == qh * g + eq * g) by (nonlinear_arith);
            assert(qh * g == q * gh) by (nonlinear_arith)
                requires
                    qh == q * h,
                    gh == g * h,
            ;
        }
        assert(one * ch == r * gh + er * h) by {
            assert(one * ch == (c * one) * h) by (nonlinear_arith)
                requires
                    ch == c * h,
            ;
            let rg = r * g;
            assert((rg + er) * h == rg * h + er * h) by (nonlinear_arith);
            assert(rg * h == r * gh) by (nonlinear_arith)
                requires
                    rg == r * g,
                    gh == g * h,
            ;
        }
        assert(one * (dg - ch) == one * dg - one * ch) by (nonlinear_arith);
        assert((q - r) * gh == q * gh - r * gh) by (nonlinear_arith);
        assert(one * x == (q - r) * gh + eq * g - er * h);
        assert(abs(eq * g) <= gh && abs(er * h) <= gh) by (nonlinear_arith)
            requires
                abs(eq) < h,
                abs(er) < g,
                gh == g * h,
                g > 0,
                h > 0,
        ;
        assert(abs((q - r) * gh) == gap * gh) by (nonlinear_arith)
            requires
                gap == abs(q - r),
                gh == g * h,
                g > 0,
                h > 0,
        ;
        assert((gap - 2) * gh == gap * gh - 2 * gh) by (nonlinear_arith);
        assert(abs(one * x) == one * abs(x)) by (nonlinear_arith)
            requires
                one > 0,
        ;
    }
    // The covariances, scaled alike.
    let (pd, pc) = (one * d, a * c);
    let near = 1100 * g + (one + a) * (k.n + 1);
    let y = pd * top - pc * low;
    assert((a * one) * x == y) by {
        let (ao, dg, ch) = (a * one, d * g, c * h);
        assert(ao * dg == pd * top) by (nonlinear_arith)
            requires
                ao == a * one,
                dg == d * g,
                pd == one * d,
                top == a * g,
        ;
        assert(ao * ch == pc * low) by (nonlinear_arith)
            requires
                ao == a * one,
                ch == c * h,
                pc == a * c,
                low == one * h,
        ;
        assert(ao * (dg - ch) == ao * dg - ao * ch) by (nonlinear_arith);
    }
    assert(100 * abs(pc) <= 101 * top) by (nonlinear_arith)
        requires
            pc == a * c,
            top == a * g,
            100 * abs(c) <= 101 * g,
            a > 0,
    ;
    assert(100 * abs(y) <= top * (100 * near + 101 * wide)) by {
        let (dp, dt) = (pd - pc, top - low);
        assert(y == dp * top + pc * dt) by (nonlinear_arith)
            requires
                y == pd * top - pc * low,
                dp == pd - pc,
                dt == top - low,
        ;
        assert(abs(dp * top) <= near * top) by (nonlinear_arith)
            requires
                abs(dp) <= near,
                top >= 0,
        ;
        assert(100 * abs(pc * dt) <= (101 * top) * wide) by (nonlinear_arith)
            requires
                100 * abs(pc) <= 101 * top,
                abs(dt) <= wide,
        ;
        assert(top * (100 * near + 101 * wide) == 100 * (near * top) + (101 * top) * wide)
            by (nonlinear_arith);
    }
    // Back to the gap.
    let tl = top * low;
    assert((a * one) * gh == tl) by (nonlinear_arith)
        requires
            tl == (a * g) * (one * h),
            gh == g * h,
    ;
    assert((gap - 2) * tl <= one * abs(y)) by {
        let ao = a * one;
        assert(ao > 0) by (nonlinear_arith)
            requires
                ao == a * one,
                a > 0,
                one > 0,
        ;
        assert(abs(y) == ao * abs(x)) by (nonlinear_arith)
            requires
                y == ao * x,
                ao > 0,
        ;
        let (i, j) = ((gap - 2) * gh, one * abs(x));
        assert(ao * i <= ao * j) by (nonlinear_arith)
            requires
                i <= j,
                ao > 0,
        ;
        assert(ao * i == (gap - 2) * tl) by (nonlinear_arith)
            requires
                i == (gap - 2) * gh,
                tl == ao * gh,
        ;
        assert(ao * j == one * (ao * abs(x))) by (nonlinear_arith)
            requires
                j == one * abs(x),
        ;
    }
    let z = 100 * near + 101 * wide;
    assert(100 * ((gap - 2) * low) <= one * z) by (nonlinear_arith)
        requires
            (gap - 2) * tl <= one * abs(y),
            100 * abs(y) <= top * z,
            tl == top * low,
            top > 0,
            one > 0,
    ;
    lemma_gap_is_small(k, far, gap, low, z);
}

proof fn lemma_gap_is_small(k: Nearby, far: int, gap: int, low: int, z: int)
    requires
        k.holds(),
        2_000_000 <= k.m <= k.g,
        far >= 0,
        gap >= 0,
        98 * (k.factor * k.g) <= 100 * low,
        z == 100 * (1100 * k.g + (ONE + k.factor) * (k.n + 1)) + 101 * (far + k.factor),
        100 * ((gap - 2) * low) <= ONE * z,
        1990 * ((ONE * k.m) * far) <= (k.factor * k.g) * (1001 * (2 * ((k.n + 1) * ONE) + 2201 * k.m)
            + 1990),
    ensures
        gap * k.m <= 4 * ((k.n + 1) * ONE) + 3000 * k.m,
{
    if gap > 2 {
        let one = ONE as int;
        let n = k.n + 1;
        let no = n * one;
        let (a, m, g) = (k.factor, k.m, k.g);
        let top = a * g;
        let rest = gap - 2;
        assert(98 * (rest * top) <= one * z) by (nonlinear_arith)
            requires
                98 * top <= 100 * low,
                100 * (rest * low) <= one * z,
                rest > 0,
        ;
        let om = one * m;
        assert(98 * ((rest * top) * m) <= om * z) by (nonlinear_arith)
            requires
                98 * (rest * top) <= one * z,
                om == one * m,
                m > 0,
        ;
        // Each part of the bound, in multiples of `top`.
        assert(om * g <= top * m) by (nonlinear_arith)
            requires
                om == one * m,
                top == a * g,
                0 <= one <= a,
                m >= 0,
                g >= 0,
        ;
        assert(om * ((one + a) * n) <= top * (2 * no)) by {
            let t = (one + a) * n;
            assert(om * t <= (one * g) * t) by (nonlinear_arith)
                requires
                    om == one * m,
                    m <= g,
                    t == (one + a) * n,
                    one > 0,
                    a > 0,
                    n > 0,
            ;
            assert((one * g) * t <= top * (2 * no)) by (nonlinear_arith)
                requires
                    t == (one + a) * n,
                    no == n * one,
                    top == a * g,
                    0 < one <= a,
                    n > 0,
                    g > 0,
            ;
        }
        assert(om * a <= top * one) by (nonlinear_arith)
            requires
                om == one * m,
                top == a * g,
                m <= g,
                one > 0,
                a > 0,
        ;
        let of = om * far;
        assert(om * z == 110_000 * (om * g) + 100 * (om * ((one + a) * n)) + 101 * of + 101 * (om
            * a)) by (nonlinear_arith)
            requires
                z == 100 * (1100 * g + (one + a) * n) + 101 * (far + a),
                of == om * far,
        ;
        let y = 1001 * (2 * no + 2201 * m) + 1990;
        let (tm, tn, ty, to) = (top * m, top * no, top * y, top * one);
        assert(top * (2 * no) == 2 * tn) by (nonlinear_arith)
            requires
                tn == top * no,
        ;
        assert(ty == 2002 * tn + 2_203_201 * tm + 1990 * top) by (nonlinear_arith)
            requires
                ty == top * y,
                y == 2002 * no + 2_203_201 * m + 1990,
                tn == top * no,
                tm == top * m,
        ;
        assert(top <= tm && top > 0) by (nonlinear_arith)
            requires
                tm == top * m,
                top == a * g,
                m >= 1,
                a > 0,
                g > 0,
        ;
        assert(3 * to <= tn) by (nonlinear_arith)
            requires
                to == top * one,
                tn == top * no,
                no == n * one,
                n >= 3,
                top > 0,
                one > 0,
        ;
        let rtm = (rest * top) * m;
        assert(98 * rtm <= 392 * tn + 290_000 * tm);
        assert(rtm == top * (rest * m)) by (nonlinear_arith)
            requires
                rtm == (rest * top) * m,
        ;
        assert(98 * (rest * m) <= 392 * no + 290_000 * m) by (nonlinear_arith)
            requires
                98 * (top * (rest * m)) <= 392 * (top * no) + 290_000 * (top * m),
                top > 0,
        ;
        assert(gap * m == rest * m + 2 * m) by (nonlinear_arith)
            requires
                rest == gap - 2,
        ;
    } else {
        assert(gap * k.m <= 2 * k.m) by (nonlinear_arith)
            requires
                0 <= gap <= 2,
                k.m >= 0,
        ;
    }
}

proof fn lemma_moment_in_units(mom: int, n: int, c: int)
    requires
        2 <= n <= 1_000_000,
        abs(n * (ONE * c) - mom) <= n * (n * ONE) + n * n,
    ensures
        abs((n * ONE) * c - mom) <= (n * ONE) * (n + 1),
{
    let one = ONE as int;
    assert(n * (one * c) == (n * one) * c) by (nonlinear_arith);
    assert(n * (n * one) + n * n <= (n * one) * (n + 1)) by (nonlinear_arith)
        requires
            n >= 0,
            one >= 1_000_000,
            n <= 1_000_000,
    ;
}

/// A product of moments bounds the square of another, in multiples of `unit`.
proof fn lemma_root_of_bound(mixed: int, unit: int, size: int)
    requires
        unit > 0,
        size >= 0,
        mixed * mixed <= (unit * unit) * (size * size),
    ensures
        abs(mixed) <= unit * size,
{
    let most = unit * size;
    assert(most * most == (unit * unit) * (size * size)) by (nonlinear_arith)
        requires
            most == unit * size,
    ;
    assert(most >= 0) by (nonlinear_arith)
        requires
            most == unit * size,
            unit > 0,
            size >= 0,
    ;
    assert(abs(mixed) <= most) by (nonlinear_arith)
        requires
            mixed * mixed <= most * most,
            most >= 0,
    ;
}

/// The covariance of two samples is hardly larger than the root of the product of their variances.
proof fn lemma_covariance_within_root(
    n: int,
    m: int,
    c: int,
    v: int,
    u: int,
    g: int,
    xx: int,
    yy: int,
    xy: int,
)
    requires
        2 <= n <= 1_000_000,
        m <= v,
        m <= u,
        n * ONE <= 1_000_000 * m,
        m <= g,
        1000 * (v * u) <= 1001 * (g * g),
        abs((n * ONE) * c - xy) <= (n * ONE) * (n + 1),
        abs((n * ONE) * v - xx) <= (n * ONE) * (n + 1),
        abs((n * ONE) * u - yy) <= (n * ONE) * (n + 1),
        xy * xy <= xx * yy,
        yy > 0,
        xx > 0,
    ensures
        100 * abs(c) <= 101 * g,
{
    let unit = n * ONE;
    let k = n + 1;
    assert(m >= 1_000_000 * n && unit > 0);
    // Each variance is at most a ten-thousandth too small.
    assert(xx <= unit * (v + k) && yy <= unit * (u + k)) by (nonlinear_arith)
        requires
            abs(unit * v - xx) <= unit * k,
            abs(unit * u - yy) <= unit * k,
    ;
    let (p, q) = (v + k, u + k);
    assert(10_000 * p <= 10_001 * v && 10_000 * q <= 10_001 * u);
    let vu = v * u;
    assert(100_000_000 * (p * q) <= 100_020_001 * vu) by (nonlinear_arith)
        requires
            10_000 * p <= 10_001 * v,
            10_000 * q <= 10_001 * u,
            p >= 0,
            q >= 0,
            v >= 0,
            u >= 0,
            vu == v * u,
    ;
    let gg = g * g;
    assert(1000 * (p * q) <= 1002 * gg);
    let uu = unit * unit;
    assert(xx * yy <= uu * (p * q)) by {
        assert(xx * yy <= (unit * p) * (unit * q)) by (nonlinear_arith)
            requires
                0 <= xx <= unit * p,
                0 <= yy <= unit * q,
        ;
        assert((unit * p) * (unit * q) == uu * (p * q)) by (nonlinear_arith)
            requires
                uu == unit * unit,
        ;
    }
    let pq = p * q;
    assert(1000 * (xy * xy) <= uu * (1002 * gg)) by (nonlinear_arith)
        requires
            xy * xy <= uu * pq,
            1000 * pq <= 1002 * gg,
            uu >= 0,
    ;
    let size = 1001 * g;
    let mixed = 1000 * xy;
    assert(mixed * mixed <= uu * (size * size)) by {
        assert(mixed * mixed == 1_000_000 * (xy * xy)) by (nonlinear_arith)
            requires
                mixed == 1000 * xy,
        ;
        assert(size * size == 1_002_001 * gg) by (nonlinear_arith)
            requires
                size == 1001 * g,
                gg == g * g,
        ;
        assert(uu * (1_002_001 * gg) >= 1000 * (uu * (1002 * gg))) by (nonlinear_arith)
            requires
                uu >= 0,
                gg >= 0,
        ;
    }
    lemma_root_of_bound(mixed, unit, size);
    assert(1000 * abs(unit * c) <= unit * (size + 1000 * k)) by (nonlinear_arith)
        requires
            1000 * abs(xy) <= unit * size,
            abs(unit * c - xy) <= unit * k,
    ;
    assert(1000 * abs(c) <= size + 1000 * k) by (nonlinear_arith)
        requires
            1000 * abs(unit * c) <= unit * (size + 1000 * k),
            unit > 0,
    ;
}

/// A sample with each value multiplied and then raised.
pub open spec fn rescaled(x: Seq<Fixed>, factor: Fixed, gain: Fixed) -> Seq<Fixed> {
    x.map_values(|v: Fixed| factor.mul(v).add(gain))
}

/// What multiplying each value of a sample leaves over, in parts of a unit.
spec fn leftovers(x: Seq<Fixed>, factor: Fixed, gain: Fixed) -> Seq<int> {
    Seq::new(x.len(), |i: int| ONE * rescaled(x, factor, gain)[i]@ - factor@ * x[i]@ - ONE * gain@)
}

proof fn lemma_leftovers(x: Seq<Fixed>, factor: Fixed, gain: Fixed, z: Seq<int>)
    requires
        is_moderate(x),
        z.len() == x.len(),
        0 <= factor@ <= MODERATE,
        abs(gain@) <= MODERATE,
    ensures
        forall|i: int|
            0 <= i < x.len() ==> -ONE <= #[trigger] leftovers(x, factor, gain)[i] <= ONE,
        ONE * moment(units_of(rescaled(x, factor, gain)), z) == factor@ * moment(units_of(x), z)
            + moment(leftovers(x, factor, gain), z),
{
    let one = ONE as int;
    let (a, b) = (factor@, gain@);
    let w = rescaled(x, factor, gain);
    let t = leftovers(x, factor, gain);
    let (ux, uw) = (units_of(x), units_of(w));
    assert forall|i: int| 0 <= i < x.len() implies -ONE <= #[trigger] t[i] <= ONE by {
        let v = x[i]@;
        assert(abs(v) <= MODERATE);
        lemma_quot_by_one(a * v);
        assert(abs(a * v) <= MODERATE * MODERATE) by (nonlinear_arith)
            requires
                0 <= a <= MODERATE,
                abs(v) <= MODERATE,
        ;
        let q = quot(a * v, one);
        assert(abs(a * v) / one <= 10_000_000_000_000_000_000_000_000_000);
        assert(w[i] == factor.mul(x[i]).add(gain));
        assert(w[i]@ == q + b);
        assert(one * (q + b) == one * q + one * b) by (nonlinear_arith);
    }
    let s = Seq::new(x.len(), |i: int| a * ux[i] + 1 * t[i]);
    let ones = Seq::new(x.len(), |i: int| 1int);
    let shift = -(one * b);
    assert(is_combination(s, one, uw, shift, ones)) by {
        assert forall|i: int| 0 <= i < s.len() implies #[trigger] s[i] == one * uw[i] + shift
            * ones[i] by {
            assert(t[i] == one * uw[i] - a * ux[i] - one * b);
        }
    }
    lemma_moment_of_combination(s, a, ux, 1, t, z);
    lemma_moment_of_combination(s, one, uw, shift, ones, z);
    lemma_moment_of_constant(ones, 1, z);
    assert(shift * 0 == 0) by (nonlinear_arith);
}

proof fn lemma_leftover_moment(mixed: int, tt: int, own: int, unit: int, bound: int)
    requires
        unit > 0,
        0 <= tt <= unit * unit,
        0 <= own <= bound * bound,
        bound >= 0,
        mixed * mixed <= tt * own,
    ensures
        abs(mixed) <= unit * bound,
{
    let (uu, bb) = (unit * unit, bound * bound);
    assert(tt * own <= uu * bb) by (nonlinear_arith)
        requires
            0 <= tt <= uu,
            0 <= own <= bb,
    ;
    lemma_root_of_bound(mixed, unit, bound);
}

proof fn lemma_scaled_difference(
    unit: int,
    k: int,
    p: int,
    q: int,
    c: int,
    d: int,
    mc: int,
    md: int,
    extra: int,
    bound: int,
)
    requires
        unit > 0,
        p >= 0,
        q >= 0,
        abs(unit * c - mc) <= unit * k,
        abs(unit * d - md) <= unit * k,
        p * md == q * mc + extra,
        abs(extra) <= unit * bound,
    ensures
        abs(p * d - q * c) <= bound + (p + q) * k,
{
    let (e, f) = (unit * c - mc, unit * d - md);
    let gap = p * d - q * c;
    let (uc, ud) = (unit * c, unit * d);
    assert(unit * gap == p * ud - q * uc) by (nonlinear_arith)
        requires
            gap == p * d - q * c,
            uc == unit * c,
            ud == unit * d,
    ;
    assert(p * ud == p * md + p * f && q * uc == q * mc + q * e) by (nonlinear_arith)
        requires
            ud == md + f,
            uc == mc + e,
    ;
    let uk = unit * k;
    assert(abs(p * f) <= p * uk && abs(q * e) <= q * uk) by (nonlinear_arith)
        requires
            abs(e) <= uk,
            abs(f) <= uk,
            p >= 0,
            q >= 0,
    ;
    let most = bound + (p + q) * k;
    assert(unit * most == unit * bound + p * uk + q * uk) by (nonlinear_arith)
        requires
            most == bound + (p + q) * k,
            uk == unit * k,
    ;
    assert(abs(gap) <= most) by (nonlinear_arith)
        requires
            abs(unit * gap) <= unit * most,
            unit > 0,
    ;
}

/// The sum of the squares of the deviations of a sample from its mean.
pub open spec fn variation(x: Seq<Fixed>) -> Fixed {
    co_moment(x, mean_of(x), x, mean_of(x))
}

/// The sum of the products of the deviations of two samples from their means.
pub open spec fn covariation(x: Seq<Fixed>, y: Seq<Fixed>) -> Fixed {
    co_moment(x, mean_of(x), y, mean_of(y))
}

/// No sample varies by less than nothing, and a moderate one not beyond the limits.
pub proof fn lemma_variation_is_not_negative(x: Seq<Fixed>)
    requires
        is_moderate(x),
        x.len() > 0,
    ensures
        0 <= variation(x)@ < LIMIT,
{
    lemma_rounded_co_moment(x, x);
    let p = deviation_products(x, x);
    lemma_sum_within_sizes(p);
    assert forall|i: int| 0 <= i < p.len() implies 0 <= (#[trigger] p[i])@ <= LIMIT by {
        let d = x[i].sub(mean_of(x))@;
        assert(d * d >= 0) by (nonlinear_arith);
        lemma_parts(d * d, ONE as int);
        vstd::arithmetic::div_mod::lemma_div_pos_is_pos(d * d, ONE as int);
        assert(abs(p[i]@) <= sum_sizes(p));
    }
    lemma_sum_is_not_negative(p);
}

/// The correlation of moderate samples, in units.
pub proof fn lemma_correlation_in_units(x: Seq<Fixed>, y: Seq<Fixed>, g: int)
    requires
        is_moderate(x),
        is_moderate(y),
        x.len() == y.len(),
        x.len() >= 2,
        variation(x)@ > 0,
        variation(y)@ > 0,
        is_floor_root(g, variation(x)@ * variation(y)@),
        g > 0,
    ensures
        pearson_of(x, y) matches Some(r) && r@ == within_one(quot(covariation(x, y)@ * ONE, g)),
{
    lemma_literal_units();
    reveal_with_fuel(ten_to, 14);
    assert(Fixed::lit(1, 12)@ == 1);
    assert(Fixed::lit(-1, 0)@ == -ONE);
    lemma_variation_is_not_negative(x);
    lemma_variation_is_not_negative(y);
    let (v, u) = (variation(x), variation(y));
    let z = v@ * u@;
    assert(z > 0) by (nonlinear_arith)
        requires
            z == v@ * u@,
            v@ > 0,
            u@ > 0,
    ;
    lemma_floor_root(g, z);
    assert(g <= LIMIT) by (nonlinear_arith)
        requires
            g * g <= v@ * u@,
            0 < v@ <= LIMIT,
            0 < u@ <= LIMIT,
            g > 0,
    ;
    assert(v.geometric(u)@ == g);
}

/// A number of units brought between minus one and one.
pub open spec fn within_one(units: int) -> int {
    if units < -ONE {
        -ONE
    } else if units > ONE {
        ONE as int
    } else {
        units
    }
}

/// What the moments of a sample, of another and of what rescaling leaves over come to.
proof fn lemma_rescaled_is_nearby(
    x: Seq<Fixed>,
    y: Seq<Fixed>,
    factor: Fixed,
    gain: Fixed,
    m: int,
    g: int,
    h: int,
) -> (k: Nearby)
    requires
        is_moderate(x),
        is_moderate(y),
        is_moderate(rescaled(x, factor, gain)),
        x.len() == y.len(),
        x.len() >= 2,
        ONE <= factor@ <= MODERATE,
        abs(gain@) <= MODERATE,
        m <= variation(x)@,
        m <= variation(y)@,
        x.len() * ONE <= 1_000_000 * m,
        is_floor_root(g, variation(x)@ * variation(y)@),
        is_floor_root(h, variation(rescaled(x, factor, gain))@ * variation(y)@),
    ensures
        k.holds(),
        k.n == x.len(),
        k.c == covariation(x, y)@,
        k.d == covariation(rescaled(x, factor, gain), y)@,
        k.g == g,
        k.h == h,
        k.m == m,
{
    let one = ONE as int;
    let n = x.len() as int;
    let a = factor@;
    let w = rescaled(x, factor, gain);
    let t = leftovers(x, factor, gain);
    let (ux, uy, uw) = (units_of(x), units_of(y), units_of(w));
    let (c, d) = (covariation(x, y)@, covariation(w, y)@);
    let (v, u, vw) = (variation(x)@, variation(y)@, variation(w)@);
    lemma_rounded_co_moment(x, y);
    lemma_rounded_co_moment(w, y);
    lemma_rounded_co_moment(x, x);
    lemma_rounded_co_moment(y, y);
    lemma_rounded_co_moment(w, w);
    let (mxy, mwy, mxx, myy, mww) = (
        moment(ux, uy),
        moment(uw, uy),
        moment(ux, ux),
        moment(uy, uy),
        moment(uw, uw),
    );
    lemma_moment_in_units(mxy, n, c);
    lemma_moment_in_units(mwy, n, d);
    lemma_moment_in_units(mxx, n, v);
    lemma_moment_in_units(myy, n, u);
    lemma_moment_in_units(mww, n, vw);
    let unit = n * one;
    let k = n + 1;
    assert(unit > 0 && m >= 1_000_000 * n);
    // The exact moments are positive and not much larger than the rounded ones.
    assert(mxx > 0 && myy > 0 && mxx <= unit * (v + k) && myy <= unit * (u + k)) by (nonlinear_arith)
        requires
            abs(unit * v - mxx) <= unit * k,
            abs(unit * u - myy) <= unit * k,
            v > k,
            u > k,
            unit > 0,
    ;
    let vu = v * u;
    let gg = g * g;
    assert(m <= g) by (nonlinear_arith)
        requires
            0 <= m,
            m <= v,
            m <= u,
            v * u < (g + 1) * (g + 1),
            g >= 0,
    ;
    assert(1000 * vu <= 1001 * gg) by (nonlinear_arith)
        requires
            vu < (g + 1) * (g + 1),
            gg == g * g,
            g >= 2_000_000,
    ;
    lemma_moment_is_bounded(ux, uy);
    lemma_covariance_within_root(n, m, c, v, u, g, mxx, myy, mxy);
    // What rescaling leaves over.
    lemma_leftovers(x, factor, gain, uy);
    lemma_leftovers(x, factor, gain, uw);
    lemma_leftovers(x, factor, gain, ux);
    lemma_leftovers(x, factor, gain, t);
    lemma_moment_of_small_values(t, one);
    lemma_moment_is_not_negative(t);
    let (mty, mtx, mtt) = (moment(t, uy), moment(t, ux), moment(t, t));
    lemma_moment_is_bounded(t, uy);
    lemma_moment_is_bounded(t, ux);
    assert(myy <= (1100 * g) * (1100 * g)) by {
        assert(unit * (u + k) <= 1_000_000 * (v * (u + k))) by (nonlinear_arith)
            requires
                unit <= 1_000_000 * v,
                u + k >= 0,
        ;
        assert(1000 * (v * (u + k)) <= 1001 * vu) by (nonlinear_arith)
            requires
                1000 * (u + k) <= 1001 * u,
                vu == v * u,
                v >= 0,
        ;
        assert((1100 * g) * (1100 * g) == 1_210_000 * gg) by (nonlinear_arith)
            requires
                gg == g * g,
        ;
        assert(gg >= 0) by (nonlinear_arith)
            requires
                gg == g * g,
        ;
    }
    assert(mxx <= (1100 * v) * (1100 * v)) by {
        let vv = v * v;
        assert(unit * (v + k) <= 1_000_000 * (v * (v + k))) by (nonlinear_arith)
            requires
                unit <= 1_000_000 * v,
                v + k >= 0,
        ;
        assert(1000 * (v * (v + k)) <= 1001 * vv) by (nonlinear_arith)
            requires
                1000 * (v + k) <= 1001 * v,
                vv == v * v,
                v >= 0,
        ;
        assert((1100 * v) * (1100 * v) == 1_210_000 * vv) by (nonlinear_arith)
            requires
                vv == v * v,
        ;
        assert(vv >= 0) by (nonlinear_arith)
            requires
                vv == v * v,
        ;
    }
    lemma_leftover_moment(mty, mtt, myy, unit, 1100 * g);
    lemma_leftover_moment(mtx, mtt, mxx, unit, 1100 * v);
    // The covariances.
    lemma_scaled_difference(unit, k, one, a, c, d, mxy, mwy, mty, 1100 * g);
    // The variances.
    lemma_dot_commutes(ux, uw);
    lemma_dot_commutes(t, uw);
    lemma_dot_commutes(t, ux);
    let (oo, aa) = (one * one, a * a);
    let (mxw, mtw) = (moment(ux, uw), moment(t, uw));
    let extra = 2 * (a * mtx) + mtt;
    assert(oo * mww == aa * mxx + extra) by {
        assert(oo * mww == a * (one * mxw) + one * mtw) by (nonlinear_arith)
            requires
                one * mww == a * mxw + mtw,
                oo == one * one,
        ;
        assert(a * (a * mxx + mtx) == aa * mxx + a * mtx) by (nonlinear_arith)
            requires
                aa == a * a,
        ;
    }
    let bound = 2200 * (a * v) + unit;
    assert(abs(extra) <= unit * bound) by {
        let (av, most) = (a * v, unit * (1100 * v));
        assert(abs(a * mtx) <= a * most) by (nonlinear_arith)
            requires
                abs(mtx) <= most,
                a >= 0,
        ;
        assert(a * most == unit * (1100 * av)) by (nonlinear_arith)
            requires
                most == unit * (1100 * v),
                av == a * v,
        ;
        assert(unit * (2200 * av + unit) == 2 * (unit * (1100 * av)) + unit * unit)
            by (nonlinear_arith);
    }
    assert(oo >= 0 && aa >= 0) by (nonlinear_arith)
        requires
            oo == one * one,
            aa == a * a,
    ;
    lemma_scaled_difference(unit, k, oo, aa, v, vw, mxx, mww, extra, bound);
    Nearby { n, factor: a, c, d, v, w: vw, u, g, h, m }
}

/// Multiplying each value of a sample by the same factor, one or more, and raising it by the same
/// amount keeps its correlations up to rounding. Where neither sample varies by less than `m` units,
/// and `m` is at least a millionth of one for each value, rounding moves a correlation by at most
/// four times as many units as there are values and one more, over `m` in ones, and three
/// billionths; so by less than a hundred-thousandth.
pub proof fn law_rescaling_keeps_correlations(
    x: Seq<Fixed>,
    y: Seq<Fixed>,
    factor: Fixed,
    gain: Fixed,
    m: int,
)
    requires
        is_moderate(x),
        is_moderate(y),
        is_moderate(rescaled(x, factor, gain)),
        x.len() == y.len(),
        x.len() >= 2,
        ONE <= factor@ <= MODERATE,
        abs(gain@) <= MODERATE,
        m <= variation(x)@,
        m <= variation(y)@,
        x.len() * ONE <= 1_000_000 * m,
    ensures
        pearson_of(x, y) is Some,
        pearson_of(rescaled(x, factor, gain), y) is Some,
        abs(pearson_of(rescaled(x, factor, gain), y)->0@ - pearson_of(x, y)->0@) * m <= 4 * ((x.len()
            + 1) * ONE) + 3000 * m,
        abs(pearson_of(rescaled(x, factor, gain), y)->0@ - pearson_of(x, y)->0@) < 10_000_000,
{
    let w = rescaled(x, factor, gain);
    let (v, u, vw) = (variation(x)@, variation(y)@, variation(w)@);
    lemma_variation_is_not_negative(w);
    assert(v * u >= 0 && vw * u >= 0) by (nonlinear_arith)
        requires
            v >= 0,
            u >= 0,
            vw >= 0,
    ;
    let g = lemma_floor_root_exists((v * u) as nat);
    let h = lemma_floor_root_exists((vw * u) as nat);
    let k = lemma_rescaled_is_nearby(x, y, factor, gain, m, g, h);
    lemma_nearby_quotients(k);
    assert(vw > 0) by (nonlinear_arith)
        requires
            h * h <= vw * u,
            h > 0,
            u > 0,
            vw >= 0,
    ;
    lemma_correlation_in_units(x, y, g);
    lemma_correlation_in_units(w, y, h);
    let (p, q) = (quot(k.c * ONE, g), quot(k.d * ONE, h));
    let (i, j) = (abs(within_one(q) - within_one(p)), abs(q - p));
    assert(i <= j);
    assert(i * m <= j * m) by (nonlinear_arith)
        requires
            i <= j,
            m >= 0,
    ;
    assert(i < 10_000_000) by (nonlinear_arith)
        requires
            i * m <= 4 * ((k.n + 1) * ONE) + 3000 * m,
            k.n * ONE <= 1_000_000 * m,
            k.n >= 1,
            m > 0,
    ;
}

/// Samples whose values are all the same have no correlation.
pub proof fn law_constant_samples_have_no_correlation(x: Seq<Fixed>, y: Seq<Fixed>, value: Fixed)
    requires
        is_moderate(x),
        forall|i: int| 0 <= i < x.len() ==> #[trigger] x[i] == value,
    ensures
        pearson_of(x, y) is None,
        pearson_of(y, x) is None,
{
    if x.len() == y.len() && x.len() >= 2 {
        let n = x.len() as int;
        let c = value@;
        lemma_literal_units();
        reveal_with_fuel(ten_to, 14);
        assert(Fixed::lit(1, 12)@ == 1);
        lemma_moderate_mean(x);
        lemma_sum_of_units(x);
        let u = units_of(x);
        assert forall|i: int| 0 <= i < u.len() implies #[trigger] u[i] == c by {
            assert(x[i] == value);
        }
        lemma_moment_of_constant(u, c, u);
        let m = mean_of(x)@;
        assert(m == c) by (nonlinear_arith)
            requires
                abs(n * c - n * m) < n,
                n > 0,
        ;
        let p = deviation_products(x, x);
        lemma_rounded_co_moment(x, x);
        assert forall|i: int| 0 <= i < p.len() implies abs((#[trigger] p[i])@) <= 0 by {
            assert(x[i] == value);
            let d = x[i].sub(mean_of(x))@;
            assert(d == 0);
            assert(d * d == 0) by (nonlinear_arith)
                requires
                    d == 0,
            ;
            lemma_quot_exact(0, ONE as int);
            assert(p[i] == x[i].sub(mean_of(x)).mul(x[i].sub(mean_of(x))));
        }
        lemma_sizes_at_most(p, 0);
        lemma_sum_within_sizes(p);
        assert(n * 0 == 0) by (nonlinear_arith);
    }
}

/// Samples of one length, at least two, have a correlation where neither varies by less than a unit
/// for each value and two more. The moment of a sample with itself is its exact variation, times
/// the number of its values.
pub proof fn law_varied_samples_have_a_correlation(x: Seq<Fixed>, y: Seq<Fixed>)
    requires
        is_moderate(x),
        is_moderate(y),
        x.len() == y.len(),
        x.len() >= 2,
        moment(units_of(x), units_of(x)) >= (x.len() * ONE) * (x.len() + 2),
        moment(units_of(y), units_of(y)) >= (y.len() * ONE) * (y.len() + 2),
    ensures
        pearson_of(x, y) is Some,
{
    let n = x.len() as int;
    let one = ONE as int;
    lemma_literal_units();
    reveal_with_fuel(ten_to, 14);
    assert(Fixed::lit(1, 12)@ == 1);
    lemma_rounded_co_moment(x, x);
    lemma_rounded_co_moment(y, y);
    let (mx, my) = (moment(units_of(x), units_of(x)), moment(units_of(y), units_of(y)));
    let (v, u) = (variation(x)@, variation(y)@);
    lemma_moment_in_units(mx, n, v);
    lemma_moment_in_units(my, n, u);
    let unit = n * one;
    assert(v >= 1 && u >= 1) by (nonlinear_arith)
        requires
            abs(unit * v - mx) <= unit * (n + 1),
            abs(unit * u - my) <= unit * (n + 1),
            mx >= unit * (n + 2),
            my >= unit * (n + 2),
            unit > 0,
    ;
}

/// The values of a function at each of a sequence, added up.
spec fn sum_over<A>(s: Seq<A>, f: spec_fn(A) -> int) -> int
    decreases s.len(),
{
    if s.len() == 0 {
        0
    } else {
        sum_over(s.drop_last(), f) + f(s.last())
    }
}

proof fn lemma_sum_without<A>(s: Seq<A>, f: spec_fn(A) -> int, j: int)
    requires
        0 <= j < s.len(),
    ensures
        sum_over(s, f) == sum_over(s.remove(j), f) + f(s[j]),
    decreases s.len(),
{
    if j == s.len() - 1 {
        assert(s.remove(j) =~= s.drop_last());
    } else {
        lemma_sum_without(s.drop_last(), f, j);
        assert(s.remove(j).drop_last() =~= s.drop_last().remove(j));
        assert(s.remove(j).last() == s.last());
    }
}

proof fn lemma_sum_ignores_order<A>(s: Seq<A>, t: Seq<A>, f: spec_fn(A) -> int)
    requires
        s.to_multiset() == t.to_multiset(),
    ensures
        s.len() == t.len(),
        sum_over(s, f) == sum_over(t, f),
    decreases s.len(),
{
    broadcast use vstd::seq_lib::group_to_multiset_ensures;

    assert(s.len() == s.to_multiset().len());
    assert(t.len() == t.to_multiset().len());
    if s.len() > 0 {
        let a = s.last();
        assert(s.contains(a));
        assert(t.contains(a)) by {
            assert(s.to_multiset().count(a) > 0);
        }
        let j = t.index_of(a);
        assert(s.drop_last() =~= s.remove(s.len() - 1));
        assert(t.remove(j).to_multiset() =~= s.drop_last().to_multiset());
        lemma_sum_ignores_order(s.drop_last(), t.remove(j), f);
        lemma_sum_without(t, f, j);
    }
}

proof fn lemma_sum_of_mapped<A>(s: Seq<A>, f: spec_fn(A) -> Fixed)
    ensures
        sum_units(s.map_values(f)) == sum_over(s, |a: A| f(a)@),
    decreases s.len(),
{
    if s.len() > 0 {
        lemma_sum_of_mapped(s.drop_last(), f);
        assert(s.map_values(f).drop_last() =~= s.drop_last().map_values(f));
    }
}

/// The units of a function at each of a sequence add up to the same in any order.
proof fn lemma_mapped_sum_ignores_order<A>(s: Seq<A>, t: Seq<A>, f: spec_fn(A) -> Fixed)
    requires
        s.to_multiset() == t.to_multiset(),
    ensures
        sum_units(s.map_values(f)) == sum_units(t.map_values(f)),
{
    lemma_sum_of_mapped(s, f);
    lemma_sum_of_mapped(t, f);
    lemma_sum_ignores_order(s, t, |a: A| f(a)@);
}

/// The first values of a sequence of pairs.
pub open spec fn firsts(z: Seq<(Fixed, Fixed)>) -> Seq<Fixed> {
    z.map_values(|p: (Fixed, Fixed)| p.0)
}

/// The second values of a sequence of pairs.
pub open spec fn seconds(z: Seq<(Fixed, Fixed)>) -> Seq<Fixed> {
    z.map_values(|p: (Fixed, Fixed)| p.1)
}

proof fn lemma_reordered_is_moderate(s: Seq<(Fixed, Fixed)>, t: Seq<(Fixed, Fixed)>)
    requires
        s.to_multiset() == t.to_multiset(),
        is_moderate(firsts(s)),
        is_moderate(seconds(s)),
    ensures
        s.len() == t.len(),
        is_moderate(firsts(t)),
        is_moderate(seconds(t)),
{
    broadcast use vstd::seq_lib::group_to_multiset_ensures;

    assert(s.len() == s.to_multiset().len());
    assert(t.len() == t.to_multiset().len());
    assert forall|i: int| 0 <= i < t.len() implies abs((#[trigger] t[i]).0@) <= MODERATE && abs(
        t[i].1@,
    ) <= MODERATE by {
        assert(t.contains(t[i]));
        assert(t.to_multiset().count(t[i]) > 0);
        assert(s.contains(t[i]));
        let j = s.index_of(t[i]);
        assert(abs(firsts(s)[j]@) <= MODERATE);
        assert(abs(seconds(s)[j]@) <= MODERATE);
    }
}

proof fn lemma_mean_ignores_order(x: Seq<Fixed>, y: Seq<Fixed>)
    requires
        is_moderate(x),
        is_moderate(y),
        x.len() == y.len(),
        sum_units(x) == sum_units(y),
    ensures
        mean_of(x) == mean_of(y),
{
    let most = MODERATE as int;
    let n = x.len() as int;
    lemma_sizes_at_most(x, most);
    lemma_sizes_at_most(y, most);
    assert(n * most <= LIMIT) by (nonlinear_arith)
        requires
            0 <= n <= 1_000_000,
            most == 100_000_000_000_000_000_000,
            LIMIT == 1_000_000_000_000_000_000_000_000_000_000_000_000,
    ;
    law_small_totals_are_exact(x);
    law_small_totals_are_exact(y);
    law_same_units_same_number(total(x), total(y));
}

/// Taking the pairs of two samples in another order keeps their correlation.
pub proof fn law_correlations_ignore_order(s: Seq<(Fixed, Fixed)>, t: Seq<(Fixed, Fixed)>)
    requires
        s.to_multiset() == t.to_multiset(),
        is_moderate(firsts(s)),
        is_moderate(seconds(s)),
    ensures
        pearson_of(firsts(s), seconds(s)) == pearson_of(firsts(t), seconds(t)),
{
    lemma_reordered_is_moderate(s, t);
    let (x, y, v, w) = (firsts(s), seconds(s), firsts(t), seconds(t));
    if s.len() >= 2 {
        lemma_mapped_sum_ignores_order(s, t, |p: (Fixed, Fixed)| p.0);
        lemma_mapped_sum_ignores_order(s, t, |p: (Fixed, Fixed)| p.1);
        lemma_mean_ignores_order(x, v);
        lemma_mean_ignores_order(y, w);
        let (mx, my) = (mean_of(x), mean_of(y));
        let xy = |p: (Fixed, Fixed)| p.0.sub(mx).mul(p.1.sub(my));
        let xx = |p: (Fixed, Fixed)| p.0.sub(mx).mul(p.0.sub(mx));
        let yy = |p: (Fixed, Fixed)| p.1.sub(my).mul(p.1.sub(my));
        lemma_mapped_sum_ignores_order(s, t, xy);
        lemma_mapped_sum_ignores_order(s, t, xx);
        lemma_mapped_sum_ignores_order(s, t, yy);
        assert(deviation_products(x, y) =~= s.map_values(xy));
        assert(deviation_products(v, w) =~= t.map_values(xy));
        assert(deviation_products(x, x) =~= s.map_values(xx));
        assert(deviation_products(v, v) =~= t.map_values(xx));
        assert(deviation_products(y, y) =~= s.map_values(yy));
        assert(deviation_products(w, w) =~= t.map_values(yy));
        lemma_rounded_co_moment(x, y);
        lemma_rounded_co_moment(v, w);
        lemma_rounded_co_moment(x, x);
        lemma_rounded_co_moment(v, v);
        lemma_rounded_co_moment(y, y);
        lemma_rounded_co_moment(w, w);
        law_same_units_same_number(covariation(x, y), covariation(v, w));
        law_same_units_same_number(variation(x), variation(v));
        law_same_units_same_number(variation(y), variation(w));
    }
}

} // verus!
