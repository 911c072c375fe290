//! What the demonstration clients learn, in exact numbers.
use vstd::prelude::*;
use vstd::arithmetic::mul::*;
use vstd::arithmetic::power2::*;
use crate::federation::demo::{descended, linear, logistic_slope, squared_error_slope, Gradient, Logistic, Point};
use crate::float::binary32::Binary32;
use crate::float::binary64::Binary64;
use crate::float::drift::{ceiling, drift, far, lemma_far_product, lemma_minus_drift, lemma_over_drift, lemma_plus_drift, lemma_running_products, lemma_times_drift, lemma_val, pairs, total, unity, val, weight};
use crate::float::slip::{lemma_product_bounds32, lemma_quotient_bounds32, lemma_sizes32, size32};
use crate::laws::averaging::lemma_number;
use crate::laws::moments::lemma_within;
use crate::robust::coordinate::two;

verus! {

/// Whether a number is finite and at most 2^30 from zero.
pub open spec fn is_small(x: Binary32) -> bool {
    x.finite() && size32(x) <= pow2(179)
}

/// Whether the features of a sample are.
pub open spec fn is_small_point(x: Point) -> bool {
    is_small(x.x0) && is_small(x.x1) && is_small(x.x2)
}

/// A product of small numbers.
proof fn lemma_small_product(x: Binary32, y: Binary32)
    requires
        is_small(x),
        is_small(y),
    ensures
        x.times(y).finite(),
        size32(x.times(y)) <= pow2(209),
        far(val(x) * val(y)) == size32(x) * size32(y),
        0x100_0000 * far(val(x.times(y)) * unity() - val(x) * val(y)) <= far(val(x) * val(y))
            + 0x80_0000 * unity(),
{
    lemma_val(x);
    lemma_val(y);
    lemma_within(size32(x), size32(y), 179, 179);
    lemma_pow2_adds(209, 149);
    lemma_product_bounds32(x, y, 209);
    lemma_far_product(val(x), val(y));
    lemma_pow2_pos(253);
    lemma_pow2_adds(253, 149);
    lemma_pow2_strictly_increases(358, 402);
    assert(ceiling() * unity() >= pow2(253) * unity()) by {
        lemma_mul_inequality(pow2(253) as int, ceiling() as int, unity() as int);
    }
    lemma_times_drift(x, y);
}

/// A sum of numbers that are not too large.
proof fn lemma_small_sum(x: Binary32, y: Binary32, e: nat)
    requires
        x.finite(),
        y.finite(),
        size32(x) <= pow2(e),
        size32(y) <= pow2(e),
        e <= 240,
    ensures
        x.plus(y).finite(),
        size32(x.plus(y)) <= pow2(e + 2),
        0x100_0000 * far(val(x.plus(y)) - (val(x) + val(y))) <= far(val(x)) + far(val(y)),
{
    lemma_val(x);
    lemma_val(y);
    lemma_pow2_unfold(e + 1);
    lemma_pow2_unfold(e + 2);
    lemma_pow2_pos(253);
    lemma_pow2_strictly_increases(e + 1, 253);
    lemma_plus_drift(x, y);
    lemma_val(x.plus(y));
}

/// The linear model gives each feature times its coefficient, and the
/// intercept, added up, but for roundings.
pub proof fn models_are_linear(w: Seq<Binary32>, x: Point)
    requires
        w.len() >= 4,
        is_small(w[0]),
        is_small(w[1]),
        is_small(w[2]),
        is_small(w[3]),
        is_small_point(x),
    ensures
        linear(w, x).finite(),
        ({
            let (a, b, c) = (val(w[0]) * val(x.x0), val(w[1]) * val(x.x1), val(w[2]) * val(x.x2));
            let d = val(w[3]) * unity();
            0x10_0000 * far(val(linear(w, x)) * unity() - (a + b + c + d)) <= far(a) + far(b) + far(
                c,
            ) + far(d) + 0x100_0000 * unity()
        }),
{
    let u = unity();
    let (p0, p1, p2) = (w[0].times(x.x0), w[1].times(x.x1), w[2].times(x.x2));
    lemma_small_product(w[0], x.x0);
    lemma_small_product(w[1], x.x1);
    lemma_small_product(w[2], x.x2);
    lemma_small_sum(p0, p1, 209);
    let s1 = p0.plus(p1);
    lemma_pow2_strictly_increases(209, 211);
    lemma_small_sum(s1, p2, 211);
    let s2 = s1.plus(p2);
    lemma_pow2_strictly_increases(179, 213);
    lemma_small_sum(s2, w[3], 213);
    let s3 = s2.plus(w[3]);
    lemma_linear(
        val(p0),
        val(p1),
        val(p2),
        val(w[3]),
        val(s1),
        val(s2),
        val(s3),
        val(w[0]) * val(x.x0),
        val(w[1]) * val(x.x1),
        val(w[2]) * val(x.x2),
        u,
    );
}

/// The roundings of a linear model, put together.
proof fn lemma_linear(
    p0: int,
    p1: int,
    p2: int,
    b: int,
    s1: int,
    s2: int,
    s3: int,
    e0: int,
    e1: int,
    e2: int,
    u: nat,
)
    requires
        0x100_0000 * far(p0 * u - e0) <= far(e0) + 0x80_0000 * u,
        0x100_0000 * far(p1 * u - e1) <= far(e1) + 0x80_0000 * u,
        0x100_0000 * far(p2 * u - e2) <= far(e2) + 0x80_0000 * u,
        0x100_0000 * far(s1 - (p0 + p1)) <= far(p0) + far(p1),
        0x100_0000 * far(s2 - (s1 + p2)) <= far(s1) + far(p2),
        0x100_0000 * far(s3 - (s2 + b)) <= far(s2) + far(b),
    ensures
        0x10_0000 * far(s3 * u - (e0 + e1 + e2 + b * u)) <= far(e0) + far(e1) + far(e2) + far(b * u)
            + 0x100_0000 * u,
{
    let d = (s1 - (p0 + p1)) + (s2 - (s1 + p2)) + (s3 - (s2 + b));
    assert(s3 * u - (e0 + e1 + e2 + b * u) == d * u + (p0 * u - e0) + (p1 * u - e1) + (p2 * u - e2))
        by (nonlinear_arith)
        requires
            d == (s1 - (p0 + p1)) + (s2 - (s1 + p2)) + (s3 - (s2 + b)),
    ;
    let (f0, f1, f2, fb, fd) = (far(p0), far(p1), far(p2), far(b), far(d));
    lemma_three_roundings(p0, p1, p2, b, s1, s2, s3);
    lemma_far_product(d, u as int);
    lemma_far_product(p0, u as int);
    lemma_far_product(p1, u as int);
    lemma_far_product(p2, u as int);
    lemma_far_product(b, u as int);
    let (x0, x1, x2, xb, xd) = (f0 * u, f1 * u, f2 * u, fb * u, fd * u);
    assert(0x100_0000 * xd <= 8 * (x0 + x1 + x2 + xb)) by (nonlinear_arith)
        requires
            0x100_0000 * fd <= 8 * (f0 + f1 + f2 + fb),
            x0 == f0 * u,
            x1 == f1 * u,
            x2 == f2 * u,
            xb == fb * u,
            xd == fd * u,
    ;
    let (g0, g1, g2) = (far(p0 * u - e0), far(p1 * u - e1), far(p2 * u - e2));
    let all = far(s3 * u - (e0 + e1 + e2 + b * u));
    assert(all <= xd + g0 + g1 + g2);
    lemma_linear_sizes(all, xd, xb, x0, x1, x2, g0, g1, g2, far(e0), far(e1), far(e2), u);
}

proof fn lemma_linear_sizes(
    all: nat,
    d: nat,
    b: nat,
    x0: nat,
    x1: nat,
    x2: nat,
    g0: nat,
    g1: nat,
    g2: nat,
    e0: nat,
    e1: nat,
    e2: nat,
    u: nat,
)
    requires
        all <= d + g0 + g1 + g2,
        0x100_0000 * d <= 8 * (x0 + x1 + x2 + b),
        0x100_0000 * g0 <= e0 + 0x80_0000 * u,
        0x100_0000 * g1 <= e1 + 0x80_0000 * u,
        0x100_0000 * g2 <= e2 + 0x80_0000 * u,
        x0 <= e0 + g0,
        x1 <= e1 + g1,
        x2 <= e2 + g2,
    ensures
        0x10_0000 * all <= e0 + e1 + e2 + b + 0x100_0000 * u,
{
    assert(x0 <= 2 * e0 + u);
    assert(x1 <= 2 * e1 + u);
    assert(x2 <= 2 * e2 + u);
    assert(0x100_0000 * d <= 16 * (e0 + e1 + e2) + 8 * b + 24 * u);
}

proof fn lemma_three_roundings(p0: int, p1: int, p2: int, b: int, s1: int, s2: int, s3: int)
    requires
        0x100_0000 * far(s1 - (p0 + p1)) <= far(p0) + far(p1),
        0x100_0000 * far(s2 - (s1 + p2)) <= far(s1) + far(p2),
        0x100_0000 * far(s3 - (s2 + b)) <= far(s2) + far(b),
    ensures
        0x100_0000 * far((s1 - (p0 + p1)) + (s2 - (s1 + p2)) + (s3 - (s2 + b))) <= 8 * (far(p0)
            + far(p1) + far(p2) + far(b)),
{
    let (n1, n2, n3) = (far(s1 - (p0 + p1)), far(s2 - (s1 + p2)), far(s3 - (s2 + b)));
    let s = far(p0) + far(p1);
    assert(n1 <= s);
    assert(far(s1) <= 2 * s);
    let r = 2 * s + far(p2);
    assert(n2 <= r);
    assert(far(s2) <= 2 * r);
    assert(0x100_0000 * (n1 + n2 + n3) <= s + r + 2 * r + far(b));
}

/// Twice the error of the linear model on each sample.
pub open spec fn twice_the_errors(w: Seq<Binary32>, xs: Seq<Point>, ys: Seq<Binary32>) -> Seq<
    Binary32,
> {
    Seq::new(xs.len(), |k: int| two().times(linear(w, xs[k]).minus(ys[k])))
}

/// The error of the logistic model on each sample: the probability it gives
/// less the class.
pub open spec fn class_errors<E: Fn(Binary64) -> Binary64, L: Fn(Binary32) -> Binary32>(
    f: Logistic<E, L>,
    w: Seq<Binary32>,
    xs: Seq<Point>,
    ys: Seq<Binary32>,
) -> Seq<Binary32> {
    Seq::new(xs.len(), |k: int| f.squashed(linear(w, xs[k])).minus(ys[k]))
}

/// Feature `i` of each sample.
pub open spec fn feature(xs: Seq<Point>, i: int) -> Seq<Binary32> {
    Seq::new(
        xs.len(),
        |k: int|
            if i == 0 {
                xs[k].x0
            } else if i == 1 {
                xs[k].x1
            } else {
                xs[k].x2
            },
    )
}

/// Coefficient `i` of a slope.
pub open spec fn slope_at(g: Gradient, i: int) -> Binary32 {
    if i == 0 {
        g.x0
    } else if i == 1 {
        g.x1
    } else {
        g.x2
    }
}

/// Whether `x` is the products of `a` and `b` added up, but for roundings.
pub open spec fn is_inner_product(x: Binary32, a: Seq<Binary32>, b: Seq<Binary32>) -> bool {
    0x100_0000 * far(val(x) * unity() - total(pairs(a, b))) <= drift(a.len(), weight(pairs(a, b)))
}

/// The slope of the squared error in a coefficient is twice the errors times
/// the feature, added up over the samples, but for roundings.
pub proof fn slopes_are_errors_times_features(
    w: Seq<Binary32>,
    xs: Seq<Point>,
    ys: Seq<Binary32>,
    i: int,
)
    requires
        0 <= i < 3,
        xs.len() <= 0x10_0000,
        forall|k: int|
            0 <= k < xs.len() ==> (#[trigger] twice_the_errors(w, xs, ys)[k]).finite() && feature(
                xs,
                i,
            )[k].finite(),
        weight(pairs(twice_the_errors(w, xs, ys), feature(xs, i))) <= pow2(400),
    ensures
        is_inner_product(
            slope_at(squared_error_slope(w, xs, ys, xs.len()), i),
            twice_the_errors(w, xs, ys),
            feature(xs, i),
        ),
{
    let n = xs.len();
    let (a, b) = (twice_the_errors(w, xs, ys), feature(xs, i));
    let p = Seq::new(n, |k: int| a[k].times(b[k]));
    let acc = Seq::new(
        n + 1,
        |k: int| slope_at(squared_error_slope(w, xs, ys, k as nat), i),
    );
    Binary32::nothing().zeros();
    lemma_val(Binary32::nothing());
    lemma_sizes32(Binary32::nothing(), Binary32::nothing());
    assert forall|k: int| 0 <= k < p.len() implies #[trigger] acc[k + 1] == acc[k].plus(p[k]) by {}
    assert forall|k: int| 0 <= k < n implies (#[trigger] a[k]).finite() && b[k].finite() && p[k]
        == a[k].times(b[k]) by {}
    lemma_running_products(a, b, p, acc);
}

/// The slope of the logistic loss in a coefficient is the errors times the
/// feature, added up over the samples, but for roundings.
pub proof fn logistic_slopes_are_errors_times_features<
    E: Fn(Binary64) -> Binary64,
    L: Fn(Binary32) -> Binary32,
>(f: Logistic<E, L>, w: Seq<Binary32>, xs: Seq<Point>, ys: Seq<Binary32>, i: int)
    requires
        0 <= i < 3,
        xs.len() <= 0x10_0000,
        forall|k: int|
            0 <= k < xs.len() ==> (#[trigger] class_errors(f, w, xs, ys)[k]).finite() && feature(
                xs,
                i,
            )[k].finite(),
        weight(pairs(class_errors(f, w, xs, ys), feature(xs, i))) <= pow2(400),
    ensures
        is_inner_product(
            slope_at(logistic_slope(f, w, xs, ys, xs.len()).0, i),
            class_errors(f, w, xs, ys),
            feature(xs, i),
        ),
{
    let n = xs.len();
    let (a, b) = (class_errors(f, w, xs, ys), feature(xs, i));
    let p = Seq::new(n, |k: int| a[k].times(b[k]));
    let acc = Seq::new(
        n + 1,
        |k: int| slope_at(logistic_slope(f, w, xs, ys, k as nat).0, i),
    );
    Binary32::nothing().zeros();
    lemma_val(Binary32::nothing());
    lemma_sizes32(Binary32::nothing(), Binary32::nothing());
    assert forall|k: int| 0 <= k < p.len() implies #[trigger] acc[k + 1] == acc[k].plus(p[k]) by {}
    assert forall|k: int| 0 <= k < n implies (#[trigger] a[k]).finite() && b[k].finite() && p[k]
        == a[k].times(b[k]) by {}
    lemma_running_products(a, b, p, acc);
}

/// The slope in the coefficient or intercept `i`.
pub open spec fn whole_slope(g: Gradient, i: int) -> Binary32 {
    if i == 3 {
        g.intercept
    } else {
        slope_at(g, i)
    }
}

/// A step of training moves every weight against its slope, by the rate times
/// the slope over the number of samples, but for roundings.
pub proof fn training_descends_the_slope(
    w: Seq<Binary32>,
    g: Gradient,
    rate: Binary32,
    n: Binary32,
    i: int,
)
    requires
        w.len() >= 4,
        0 <= i < 4,
        is_small(w[i]),
        is_small(whole_slope(g, i)),
        is_small(rate),
        n.finite(),
        0 < n.rank(),
        pow2(149) <= size32(n) <= pow2(179),
    ensures
        descended(w, g, rate, n).len() == w.len(),
        descended(w, g, rate, n)[i].finite(),
        ({
            let e = val(rate) * val(whole_slope(g, i));
            0x10_0000 * far((val(descended(w, g, rate, n)[i]) - val(w[i])) * size32(n) + e) <= far(
                val(w[i]),
            ) * size32(n) + 4 * far(e) + 0x100_0000 * (size32(n) + unity())
        }),
        forall|k: int| 4 <= k < w.len() ==> #[trigger] descended(w, g, rate, n)[k] == w[k],
{
    let s = whole_slope(g, i);
    let u = unity();
    let c = size32(n);
    let t = rate.times(s);
    lemma_small_product(rate, s);
    lemma_pow2_pos(149);
    lemma_number(n);
    lemma_pow2_adds(209, 149);
    lemma_mul_inequality(u as int, c as int, pow2(209) as int);
    lemma_mul_is_commutative(u as int, pow2(209) as int);
    lemma_mul_is_commutative(c as int, pow2(209) as int);
    lemma_mul_inequality(size32(t) as int, pow2(209) as int, u as int);
    lemma_quotient_bounds32(t, n, 209);
    assert(size32(t) * u <= ceiling() * c) by {
        lemma_pow2_strictly_increases(209, 253);
        lemma_pow2_pos(253);
        lemma_mul_inequality(pow2(209) as int, ceiling() as int, c as int);
    }
    lemma_over_drift(t, n);
    let q = t.over(n);
    lemma_val(q);
    lemma_val(w[i]);
    lemma_val(t);
    assert(far(val(w[i]) - val(q)) <= ceiling()) by {
        lemma_pow2_strictly_increases(179, 209);
        lemma_pow2_unfold(210);
        lemma_pow2_strictly_increases(210, 253);
        lemma_pow2_pos(253);
    }
    lemma_minus_drift(w[i], q);
    let out = descended(w, g, rate, n);
    assert(out[i] == w[i].minus(q));
    lemma_descent(val(out[i]), val(w[i]), val(q), val(t), val(rate) * val(s), c, u);
}

/// The roundings of a step, put together.
proof fn lemma_descent(out: int, w: int, q: int, t: int, e: int, c: nat, u: nat)
    requires
        0x100_0000 * far(t * u - e) <= far(e) + 0x80_0000 * u,
        0x100_0000 * far(q * c - t * u) <= far(t) * u + 0x80_0000 * c,
        0x100_0000 * far(out - (w - q)) <= far(w - q),
    ensures
        0x10_0000 * far((out - w) * c + e) <= far(w) * c + 4 * far(e) + 0x100_0000 * (c + u),
{
    let d = out - (w - q);
    assert((out - w) * c + e == d * c - (q * c - t * u) - (t * u - e)) by (nonlinear_arith)
        requires
            d == out - (w - q),
    ;
    lemma_far_product(d, c as int);
    lemma_far_product(q, c as int);
    lemma_far_product(t, u as int);
    let (fd, fw, fq) = (far(d), far(w), far(q));
    let (dc, wc, qc, tu) = (fd * c, fw * c, fq * c, far(t) * u);
    assert(0x100_0000 * dc <= wc + qc) by (nonlinear_arith)
        requires
            0x100_0000 * fd <= fw + fq,
            dc == fd * c,
            wc == fw * c,
            qc == fq * c,
    ;
    assert(tu <= 2 * far(e) + u);
    assert(qc <= 2 * tu + c);
    let (g1, g2) = (far(q * c - t * u), far(t * u - e));
    assert(far((out - w) * c + e) <= dc + g1 + g2);
}

} // verus!
