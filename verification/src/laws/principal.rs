//! Where power iteration leads.
use vstd::prelude::*;
use vstd::arithmetic::div_mod::lemma_small_mod;
use vstd::arithmetic::mul::*;
use vstd::arithmetic::power2::*;
use crate::float::binary32::Binary32;
use crate::float::drift::{ceiling, drift, far, lemma_dot_drift, lemma_far_product, lemma_minus_drift, lemma_over_drift, lemma_running_products, lemma_total_within, lemma_val, pairs, total, unity, val, vals, weight};
use crate::float::format::Format;
use crate::float::laws::lemma_sizes;
use crate::float::slip::{lemma_product_bounds32, lemma_root_bounds32, lemma_sizes32, power, size32};
use crate::laws::accuracy::{run, scaled};
use crate::laws::averaging::lemma_number;
use crate::laws::finite::is_length;
use crate::laws::nearest::lemma_terms_within;
use crate::linear::{dot32, products32};
use crate::robust::coordinate::column;
use crate::robust::divide::{centered, combined_rows, power_iterated, power_product, projections, scaled_down, smallest_direction};
use crate::weights::is_matrix;

verus! {

/// The inner product of a row and a direction, exactly.
pub open spec fn along(row: Seq<Binary32>, v: Seq<Binary32>) -> int {
    total(pairs(row, v))
}

/// The inner products of the rows with a direction, exactly, each times the
/// entry of the row in column `c`.
pub open spec fn moments(m: Seq<Seq<Binary32>>, v: Seq<Binary32>, c: int) -> Seq<int> {
    Seq::new(m.len(), |i: int| along(m[i], v) * val(m[i][c]))
}

/// Coordinate `c` of the direction in which the variance of the rows along
/// `v` grows fastest: half its derivative.
pub open spec fn ascent(m: Seq<Seq<Binary32>>, v: Seq<Binary32>, c: int) -> int {
    total(moments(m, v, c))
}

/// The same as `moments`, with no sign in the inner products.
pub open spec fn efforts(m: Seq<Seq<Binary32>>, v: Seq<Binary32>, c: int) -> Seq<int> {
    Seq::new(m.len(), |i: int| weight(pairs(m[i], v)) * val(m[i][c]))
}

/// How far rounding can take coordinate `c` of a step off, 2^24 times over.
pub open spec fn slack(m: Seq<Seq<Binary32>>, v: Seq<Binary32>, c: int) -> nat {
    (8 * (m.len() + v.len() + 1)) * weight(efforts(m, v, c)) + (0x200_0000 * unity()) * (v.len()
        * weight(vals(column(m, c))) + m.len() * unity()) + pow2(373)
}

/// Whether nothing overflows in a step from `v`: rows and columns that come to
/// at most 2^18 without their signs, and coordinates of at most two.
pub open spec fn is_calm(m: Seq<Seq<Binary32>>, v: Seq<Binary32>) -> bool {
    &&& 0 < m.len() <= 0x10_0000
    &&& 0 < v.len() <= 0x10_0000
    &&& is_matrix(m, v.len())
    &&& forall|i: int, c: int|
        0 <= i < m.len() && 0 <= c < v.len() ==> (#[trigger] m[i][c]).finite()
    &&& forall|c: int|
        0 <= c < v.len() ==> (#[trigger] v[c]).finite() && size32(v[c]) <= pow2(150)
    &&& forall|i: int| 0 <= i < m.len() ==> weight(vals(#[trigger] m[i])) <= pow2(167)
    &&& forall|c: int| 0 <= c < v.len() ==> weight(vals(#[trigger] column(m, c))) <= pow2(167)
}

/// One step more is one step from where the others led.
pub proof fn lemma_last_step(m: Seq<Seq<Binary32>>, v: Seq<Binary32>, k: nat)
    ensures
        power_iterated(m, v, k + 1) == power_iterated(m, power_iterated(m, v, k), 1),
    decreases k,
{
    reveal_with_fuel(power_iterated, 2);
    if k > 0 {
        let next = power_product(m, v);
        let norm = dot32(next, next).root();
        if smallest_direction().below(norm) {
            lemma_last_step(m, scaled_down(next, norm), (k - 1) as nat);
        }
    }
}

/// Sizes bounded term by term are bounded together.
pub proof fn lemma_weights_within(
    x: Seq<int>,
    s: Seq<int>,
    a: Seq<int>,
    k: nat,
    p: nat,
    q: nat,
)
    requires
        x.len() == s.len() == a.len(),
        forall|i: int|
            0 <= i < x.len() ==> k * far(#[trigger] x[i]) <= p * far(s[i]) + q * far(a[i]),
    ensures
        k * weight(x) <= p * weight(s) + q * weight(a),
    decreases x.len(),
{
    if x.len() == 0 {
        assert(k * 0 == 0 && p * 0 == 0 && q * 0 == 0);
    } else {
        let (x0, s0, a0) = (x.drop_last(), s.drop_last(), a.drop_last());
        assert forall|i: int| 0 <= i < x0.len() implies k * far(#[trigger] x0[i]) <= p * far(s0[i])
            + q * far(a0[i]) by {
            assert(k * far(x[i]) <= p * far(s[i]) + q * far(a[i]));
        }
        lemma_weights_within(x0, s0, a0, k, p, q);
        let l = x.len() - 1;
        assert(k * far(x[l]) <= p * far(s[l]) + q * far(a[l]));
        lemma_mul_is_distributive_add(k as int, weight(x0) as int, far(x[l]) as int);
        lemma_mul_is_distributive_add(p as int, weight(s0) as int, far(s[l]) as int);
        lemma_mul_is_distributive_add(q as int, weight(a0) as int, far(a[l]) as int);
    }
}

/// The difference of two sums is the sum of the differences.
pub proof fn lemma_totals_differ(x: Seq<int>, y: Seq<int>)
    requires
        x.len() == y.len(),
    ensures
        total(x) - total(y) == total(Seq::new(x.len(), |i: int| x[i] - y[i])),
    decreases x.len(),
{
    let z = Seq::new(x.len(), |i: int| x[i] - y[i]);
    if x.len() > 0 {
        lemma_totals_differ(x.drop_last(), y.drop_last());
        assert(z.drop_last() =~= Seq::new(
            x.drop_last().len(),
            |i: int| x.drop_last()[i] - y.drop_last()[i],
        ));
    }
}

/// A sum of multiples.
pub proof fn lemma_total_scaled(x: Seq<int>, k: int)
    ensures
        total(Seq::new(x.len(), |i: int| x[i] * k)) == total(x) * k,
    decreases x.len(),
{
    let z = Seq::new(x.len(), |i: int| x[i] * k);
    if x.len() == 0 {
        assert(0 * k == 0);
    } else {
        let y = x.drop_last();
        lemma_total_scaled(y, k);
        assert(z.drop_last() =~= Seq::new(y.len(), |i: int| y[i] * k));
        lemma_mul_is_distributive_add_other_way(k, total(y), x.last());
    }
}

/// What is known of an inner product of a row with a direction.
proof fn lemma_projected(row: Seq<Binary32>, v: Seq<Binary32>)
    requires
        row.len() == v.len() <= 0x10_0000,
        forall|c: int| 0 <= c < v.len() ==> (#[trigger] row[c]).finite(),
        forall|c: int|
            0 <= c < v.len() ==> (#[trigger] v[c]).finite() && size32(v[c]) <= pow2(150),
        weight(vals(row)) <= pow2(167),
    ensures
        dot32(row, v).finite(),
        0x100_0000 * far(val(dot32(row, v)) * unity() - along(row, v)) <= drift(
            v.len(),
            weight(pairs(row, v)),
        ),
        size32(dot32(row, v)) * unity() <= 2 * weight(pairs(row, v)) + v.len() * unity(),
        size32(dot32(row, v)) <= pow2(170),
{
    let u = unity();
    let w = weight(pairs(row, v));
    let d = v.len();
    let p = dot32(row, v);
    lemma_pow2_pos(149);
    assert(w <= pow2(317)) by {
        assert forall|i: int| 0 <= i < pairs(row, v).len() implies 1 * far(
            #[trigger] pairs(row, v)[i],
        ) <= pow2(150) * far(vals(row)[i]) + 0 * far(vals(row)[i]) by {
            lemma_far_product(val(row[i]), val(v[i]));
            lemma_val(v[i]);
            assert(v[i].finite());
            lemma_mul_inequality(
                far(val(v[i])) as int,
                pow2(150) as int,
                far(val(row[i])) as int,
            );
            lemma_mul_is_commutative(far(val(v[i])) as int, far(val(row[i])) as int);
        }
        lemma_weights_within(pairs(row, v), vals(row), vals(row), 1, pow2(150), 0);
        lemma_pow2_adds(150, 167);
        lemma_mul_inequality(weight(vals(row)) as int, pow2(167) as int, pow2(150) as int);
        lemma_mul_is_commutative(weight(vals(row)) as int, pow2(150) as int);
        lemma_mul_is_commutative(pow2(167) as int, pow2(150) as int);
    }
    lemma_pow2_strictly_increases(317, 400);
    assert forall|i: int| 0 <= i < row.len() implies (#[trigger] row[i]).finite()
        && v[i].finite() by {}
    lemma_dot_drift(row, v);
    lemma_val(p);
    lemma_far_product(val(p), u as int);
    lemma_total_within(pairs(row, v));
    assert((4 * d + 1) * w <= 0x100_0000 * w) by (nonlinear_arith)
        requires
            4 * d + 1 <= 0x100_0000,
    ;
    assert((0x100_0000 * d) * u == 0x100_0000 * (d * u)) by (nonlinear_arith);
    assert(size32(p) * u <= 2 * w + d * u);
    assert(size32(p) <= pow2(170)) by {
        lemma_narrow(size32(p), w, d, 317);
    }
}

/// A size that times one is at most twice `w` and `d` ones.
proof fn lemma_narrow(s: nat, w: nat, d: nat, e: nat)
    requires
        s * unity() <= 2 * w + d * unity(),
        w <= pow2(e),
        d <= 0x10_0000,
        200 <= e,
    ensures
        s <= pow2((e - 147) as nat),
{
    let u = unity();
    let p = pow2((e - 147) as nat);
    lemma_pow2_pos(149);
    lemma2_to64();
    lemma_pow2_adds((e - 147) as nat, 149);
    lemma_pow2_adds(2, e);
    lemma_pow2_adds(20, 149);
    lemma_pow2_strictly_increases(169, e);
    lemma_mul_inequality(d as int, pow2(20) as int, u as int);
    if s > p {
        lemma_mul_strict_inequality(p as int, s as int, u as int);
    }
}

/// What is known of one coordinate of a step before it is scaled.
proof fn lemma_product_coordinate(m: Seq<Seq<Binary32>>, v: Seq<Binary32>, c: int)
    requires
        is_calm(m, v),
        0 <= c < v.len(),
    ensures
        power_product(m, v).len() == v.len(),
        power_product(m, v)[c].finite(),
        size32(power_product(m, v)[c]) <= pow2(190),
        0x100_0000 * far(val(power_product(m, v)[c]) * (unity() * unity()) - ascent(m, v, c))
            + size32(power_product(m, v)[c]) * (unity() * unity()) + pow2(373) <= slack(m, v, c),
{
    let u = unity();
    let n = m.len();
    let d = v.len();
    let p = projections(m, v);
    let a = column(m, c);
    let next = power_product(m, v)[c];
    lemma_pow2_pos(149);
    assert forall|i: int| 0 <= i < n implies is_projected(m[i], v, #[trigger] p[i]) by {
        assert(m[i].len() == d);
        assert forall|k: int| 0 <= k < d implies (#[trigger] m[i][k]).finite() by {}
        lemma_projected(m[i], v);
    }
    let (es, av, ap) = (efforts(m, v, c), vals(a), pairs(a, p));
    let (s, w, q) = (weight(es), weight(av), weight(ap));
    assert forall|i: int| 0 <= i < n implies facts(m, v, c, p, i) by {
        assert(is_projected(m[i], v, p[i]));
        lemma_facts(m, v, c, p, i);
    }
    // the products are moderate
    assert(u * q <= 2 * s + (d * u) * w) by {
        assert forall|i: int| 0 <= i < ap.len() implies u * far(#[trigger] ap[i]) <= 2 * far(es[i])
            + (d * u) * far(av[i]) by {
            assert(facts(m, v, c, p, i));
        }
        lemma_weights_within(ap, es, av, u, 2, d * u);
    }
    assert(q <= pow2(337)) by {
        assert forall|i: int| 0 <= i < ap.len() implies 1 * far(#[trigger] ap[i]) <= pow2(170)
            * far(av[i]) + 0 * far(av[i]) by {
            assert(facts(m, v, c, p, i));
        }
        lemma_weights_within(ap, av, av, 1, pow2(170), 0);
        lemma_pow2_adds(170, 167);
        assert(weight(vals(column(m, c))) <= pow2(167));
        lemma_mul_upper_bound(pow2(170) as int, pow2(170) as int, w as int, pow2(167) as int);
    }
    lemma_pow2_strictly_increases(337, 400);
    // their sum
    assert forall|i: int| 0 <= i < n implies (#[trigger] a[i]).finite() && p[i].finite() by {
        assert(m[i][c].finite());
        assert(is_projected(m[i], v, p[i]));
    }
    lemma_combined_drift(m, p, d, c);
    lemma_val(next);
    lemma_total_within(ap);
    lemma_far_product(val(next), u as int);
    assert((4 * n + 1) * q <= 0x100_0000 * q) by (nonlinear_arith)
        requires
            4 * n + 1 <= 0x100_0000,
    ;
    assert((0x100_0000 * n) * u == 0x100_0000 * (n * u)) by (nonlinear_arith);
    assert(size32(next) * u <= 2 * q + n * u);
    lemma_narrow(size32(next), q, n, 337);
    // and how far it is from the exact one
    let x = Seq::new(n, |i: int| ap[i] * u);
    lemma_total_scaled(ap, u as int);
    let ms = moments(m, v, c);
    let z = Seq::new(n, |i: int| x[i] - ms[i]);
    lemma_totals_differ(x, ms);
    lemma_total_within(z);
    let k = (0x100_0000 * d) * u;
    assert(0x100_0000 * weight(z) <= (4 * d + 1) * s + k * w) by {
        assert forall|i: int| 0 <= i < z.len() implies 0x100_0000 * far(#[trigger] z[i]) <= (4 * d
            + 1) * far(es[i]) + k * far(av[i]) by {
            assert(facts(m, v, c, p, i));
        }
        lemma_weights_within(z, es, av, 0x100_0000, 4 * d + 1, k);
    }
    lemma_gathered(val(next), total(ap), ascent(m, v, c), q, s, w, n, d);
}

spec fn is_projected(row: Seq<Binary32>, v: Seq<Binary32>, p: Binary32) -> bool {
    &&& p.finite()
    &&& 0x100_0000 * far(val(p) * unity() - along(row, v)) <= drift(
        v.len(),
        weight(pairs(row, v)),
    )
    &&& size32(p) * unity() <= 2 * weight(pairs(row, v)) + v.len() * unity()
    &&& size32(p) <= pow2(170)
}

/// What follows for the product of an entry with the inner product of its row.
spec fn facts(m: Seq<Seq<Binary32>>, v: Seq<Binary32>, c: int, p: Seq<Binary32>, i: int) -> bool {
    let a = column(m, c);
    let (x, e, b) = (pairs(a, p)[i], efforts(m, v, c)[i], vals(a)[i]);
    &&& unity() * far(x) <= 2 * far(e) + (v.len() * unity()) * far(b)
    &&& 1 * far(x) <= pow2(170) * far(b) + 0 * far(b)
    &&& 0x100_0000 * far(x * unity() - moments(m, v, c)[i]) <= (4 * v.len() + 1) * far(e) + ((
    0x100_0000 * v.len()) * unity()) * far(b)
}

proof fn lemma_facts(
    m: Seq<Seq<Binary32>>,
    v: Seq<Binary32>,
    c: int,
    p: Seq<Binary32>,
    i: int,
)
    requires
        0 <= i < m.len(),
        p.len() == m.len(),
        is_projected(m[i], v, p[i]),
    ensures
        facts(m, v, c, p, i),
{
    let u = unity();
    let d = v.len();
    let a = column(m, c);
    let (x, e, b) = (pairs(a, p)[i], efforts(m, v, c)[i], vals(a)[i]);
    let w = weight(pairs(m[i], v));
    let z = val(p[i]);
    let f = far(b);
    lemma_val(p[i]);
    lemma_far_product(b, z);
    lemma_far_product(w as int, b);
    assert(x == b * z);
    assert(e == w * b);
    let s = far(z);
    assert(u * (f * s) <= 2 * (w * f) + (d * u) * f) by (nonlinear_arith)
        requires
            s * u <= 2 * w + d * u,
    ;
    assert(f * s <= pow2(170) * f) by (nonlinear_arith)
        requires
            s <= pow2(170),
    ;
    let g = z * u - along(m[i], v);
    assert(x * u - moments(m, v, c)[i] == b * g) by (nonlinear_arith)
        requires
            x == b * z,
            moments(m, v, c)[i] == along(m[i], v) * b,
            g == z * u - along(m[i], v),
    ;
    lemma_far_product(b, g);
    let (k, t) = (4 * d + 1, (0x100_0000 * d) * u);
    let h = far(g);
    assert(0x100_0000 * (f * h) <= k * (w * f) + t * f) by (nonlinear_arith)
        requires
            0x100_0000 * h <= k * w + t,
    ;
}

proof fn lemma_combined_drift(m: Seq<Seq<Binary32>>, p: Seq<Binary32>, d: nat, c: int)
    requires
        0 <= c < d,
        p.len() == m.len(),
        m.len() <= 0x10_0000,
        forall|i: int|
            0 <= i < m.len() ==> (#[trigger] column(m, c)[i]).finite() && p[i].finite(),
        weight(pairs(column(m, c), p)) <= pow2(400),
    ensures
        combined_rows(m, p, d, m.len()).len() == d,
        combined_rows(m, p, d, m.len())[c].finite(),
        0x100_0000 * far(
            val(combined_rows(m, p, d, m.len())[c]) * unity() - total(pairs(column(m, c), p)),
        ) <= drift(m.len(), weight(pairs(column(m, c), p))),
{
    let a = column(m, c);
    let t = scaled(m, p, c);
    let acc = Seq::new(m.len() + 1, |k: int| run(t, k as nat));
    Binary32::nothing().zeros();
    lemma_val(Binary32::nothing());
    lemma_sizes32(Binary32::nothing(), Binary32::nothing());
    assert forall|i: int| 0 <= i < a.len() implies (#[trigger] a[i]).finite() && p[i].finite()
        && t[i] == a[i].times(p[i]) by {
        assert(column(m, c)[i].finite() && p[i].finite());
    }
    assert forall|k: int| 0 <= k < t.len() implies #[trigger] acc[k + 1] == acc[k].plus(t[k]) by {}
    lemma_running_products(a, p, t, acc);
    lemma_combined_run(m, p, d, c, m.len());
}

proof fn lemma_combined_run(
    m: Seq<Seq<Binary32>>,
    p: Seq<Binary32>,
    d: nat,
    c: int,
    k: nat,
)
    requires
        0 <= c < d,
        k <= m.len(),
    ensures
        combined_rows(m, p, d, k).len() == d,
        combined_rows(m, p, d, k)[c] == run(scaled(m, p, c), k),
    decreases k,
{
    if k > 0 {
        lemma_combined_run(m, p, d, c, (k - 1) as nat);
    }
}

/// The roundings of a coordinate, put together.
proof fn lemma_gathered(x: int, t: int, a: int, q: nat, s: nat, w: nat, n: nat, d: nat)
    requires
        n <= 0x10_0000,
        0x100_0000 * far(x * unity() - t) <= drift(n, q),
        0x100_0000 * far(t * unity() - a) <= (4 * d + 1) * s + ((0x100_0000 * d) * unity()) * w,
        unity() * q <= 2 * s + (d * unity()) * w,
        far(x) * unity() <= 2 * q + n * unity(),
    ensures
        0x100_0000 * far(x * (unity() * unity()) - a) + far(x) * (unity() * unity()) <= (8 * (n + d
            + 1)) * s + (0x200_0000 * unity()) * (d * w + n * unity()),
{
    let u = unity();
    let (g, h) = (x * u - t, t * u - a);
    assert(x * (u * u) - a == g * u + h) by (nonlinear_arith)
        requires
            g == x * u - t,
            h == t * u - a,
    ;
    lemma_far_product(g, u as int);
    let (fg, fh, fx) = (far(g), far(h), far(x));
    assert(far(x * (u * u) - a) <= fg * u + fh);
    let uu = u * u;
    let e = (d * u) * w;
    // the drift of the sum
    assert(0x100_0000 * (fg * u) <= (4 * n + 1) * (u * q) + (0x100_0000 * n) * uu)
        by (nonlinear_arith)
        requires
            0x100_0000 * fg <= (4 * n + 1) * q + (0x100_0000 * n) * u,
            uu == u * u,
    ;
    assert((4 * n + 1) * (u * q) <= (4 * n + 1) * (2 * s + e)) by (nonlinear_arith)
        requires
            u * q <= 2 * s + e,
    ;
    assert((4 * n + 1) * (2 * s + e) == (8 * n + 2) * s + (4 * n + 1) * e) by (nonlinear_arith);
    assert((4 * n + 1) * e <= 0x80_0000 * e) by (nonlinear_arith)
        requires
            4 * n + 1 <= 0x80_0000,
    ;
    assert(fx * uu == (fx * u) * u) by (nonlinear_arith)
        requires
            uu == u * u,
    ;
    assert((fx * u) * u <= 2 * (u * q) + n * uu) by (nonlinear_arith)
        requires
            fx * u <= 2 * q + n * u,
            uu == u * u,
    ;
    assert(((0x100_0000 * d) * u) * w == 0x100_0000 * e) by (nonlinear_arith)
        requires
            e == (d * u) * w,
    ;
    assert((0x100_0000 * n) * uu == 0x100_0000 * (n * uu)) by (nonlinear_arith);
    assert((8 * (n + d + 1)) * s == (8 * n + 2) * s + (4 * d + 1) * s + 4 * s + (4 * d + 1) * s)
        by (nonlinear_arith);
    assert((0x200_0000 * u) * (d * w + n * u) == 0x200_0000 * e + 0x200_0000 * (n * uu))
        by (nonlinear_arith)
        requires
            e == (d * u) * w,
            uu == u * u,
    ;
}

proof fn lemma_smallest()
    ensures
        smallest_direction().finite(),
        0 < smallest_direction().rank(),
        size32(smallest_direction()) < pow2(110),
{
    smallest_direction().unsigned_patterns();
    lemma_sizes(Format::Single);
    lemma2_to64();
    lemma2_to64_rest();
    assert(size32(smallest_direction()) == 0x8c_bccc * pow2(86)) by {
        lemma_small_mod(0x2b8c_bccc, Format::Single.sign_weight());
        reveal(Format::units);
    }
    lemma_pow2_adds(24, 86);
    lemma_pow2_pos(86);
}

/// Terms that are each at most `b` come to at most so many times it.
pub proof fn lemma_weight_flat(x: Seq<int>, b: nat)
    requires
        forall|i: int| 0 <= i < x.len() ==> far(#[trigger] x[i]) <= b,
    ensures
        weight(x) <= x.len() * b,
    decreases x.len(),
{
    if x.len() == 0 {
        assert(0 * b == 0);
    } else {
        let y = x.drop_last();
        assert forall|i: int| 0 <= i < y.len() implies far(#[trigger] y[i]) <= b by {
            assert(far(x[i]) <= b);
        }
        lemma_weight_flat(y, b);
        assert(far(x[x.len() - 1]) <= b);
        let n = y.len();
        assert((n + 1) * b == n * b + b) by (nonlinear_arith);
    }
}

/// The length of a moderate vector, one coordinate of which is not tiny.
proof fn lemma_norm(x: Seq<Binary32>, c: int)
    requires
        0 <= c < x.len() <= 0x10_0000,
        forall|i: int| 0 <= i < x.len() ==> (#[trigger] x[i]).finite() && size32(x[i]) <= pow2(190),
        size32(x[c]) >= pow2(110),
    ensures
        dot32(x, x).root().finite(),
        0 < dot32(x, x).root().rank(),
        pow2(110) <= size32(dot32(x, x).root()) <= pow2(201),
{
    let d = x.len();
    let q = dot32(x, x);
    let t = products32(x, x);
    lemma2_to64();
    lemma_pow2_adds(190, 190);
    lemma_pow2_adds(20, 380);
    assert(weight(pairs(x, x)) <= pow2(400)) by {
        assert forall|i: int| 0 <= i < x.len() implies far(#[trigger] pairs(x, x)[i]) <= pow2(
            380,
        ) by {
            assert(x[i].finite());
            lemma_val(x[i]);
            lemma_far_product(val(x[i]), val(x[i]));
            lemma_mul_upper_bound(
                size32(x[i]) as int,
                pow2(190) as int,
                size32(x[i]) as int,
                pow2(190) as int,
            );
        }
        lemma_weight_flat(pairs(x, x), pow2(380));
        lemma_mul_inequality(d as int, pow2(20) as int, pow2(380) as int);
    }
    assert forall|i: int| 0 <= i < x.len() implies (#[trigger] x[i]).finite() && x[i].finite() by {}
    lemma_dot_drift(x, x);
    let (u, w) = (unity(), weight(pairs(x, x)));
    lemma_val(q);
    lemma_total_within(pairs(x, x));
    lemma_far_product(val(q), u as int);
    assert((4 * d + 1) * w <= 0x100_0000 * w) by (nonlinear_arith)
        requires
            4 * d + 1 <= 0x100_0000,
    ;
    assert((0x100_0000 * d) * u == 0x100_0000 * (d * u)) by (nonlinear_arith);
    assert(size32(q) * u <= 2 * w + d * u);
    lemma_narrow(size32(q), w, d, 400);
    // no less than one of its terms
    assert forall|i: int| 0 <= i < t.len() implies is_length(#[trigger] t[i]) && t[i].finite() by {
        assert(x[i].finite());
        lemma_number(x[i]);
        x[i].square_is_not_negative();
        lemma_pow2_adds(231, 149);
        lemma_mul_upper_bound(
            size32(x[i]) as int,
            pow2(190) as int,
            size32(x[i]) as int,
            pow2(190) as int,
        );
        lemma_product_bounds32(x[i], x[i], 231);
    }
    lemma_terms_within(t, c);
    lemma_pow2_adds(110, 110);
    lemma_pow2_adds(71, 149);
    lemma_mul_upper_bound(
        pow2(110) as int,
        size32(x[c]) as int,
        pow2(110) as int,
        size32(x[c]) as int,
    );
    assert(t[c].finite());
    lemma_product_bounds32(x[c], x[c], 71);
    lemma_pow2_pos(71);
    lemma_pow2_pos(110);
    lemma_sizes32(t[c], q);
    lemma_number(t[c]);
    lemma_number(q);
    lemma_pow2_adds(253, 149);
    lemma_pow2_adds(201, 201);
    lemma_pow2_pos(149);
    lemma_mul_inequality(size32(q) as int, pow2(253) as int, u as int);
    lemma_mul_inequality(pow2(71) as int, size32(q) as int, u as int);
    lemma_root_bounds32(q, 201);
    lemma_root_bounds32(q, 110);
    lemma_sizes32(q.root(), q.root());
}

/// Whether the ascent from `v` can be felt in coordinate `c`: it is at least
/// 2^-38, and rounding takes it off by at most half of what it is.
pub open spec fn is_felt(m: Seq<Seq<Binary32>>, v: Seq<Binary32>, c: int) -> bool {
    &&& 0 <= c < v.len()
    &&& pow2(409) <= far(ascent(m, v, c))
    &&& slack(m, v, c) <= 0x80_0000 * far(ascent(m, v, c))
}

/// Whether `t` points where the variance of the rows along `v` grows fastest:
/// all its coordinates are those of the ascent, in one proportion.
pub open spec fn ascends(m: Seq<Seq<Binary32>>, v: Seq<Binary32>, t: Seq<Binary32>) -> bool {
    exists|scale: nat| scale > 0 && #[trigger] ascends_by(m, v, t, scale)
}

/// Whether `t`, times `scale`, is the ascent from `v`.
pub open spec fn ascends_by(
    m: Seq<Seq<Binary32>>,
    v: Seq<Binary32>,
    t: Seq<Binary32>,
    scale: nat,
) -> bool {
    &&& t.len() == v.len()
    &&& forall|c: int|
        0 <= c < v.len() ==> (#[trigger] t[c]).finite() && 0x100_0000 * far(
            val(t[c]) * scale - ascent(m, v, c),
        ) <= slack(m, v, c)
}

/// Every step of the power iteration turns to where the variance of the rows
/// grows fastest, wherever that can be felt at all.
pub proof fn each_step_ascends(m: Seq<Seq<Binary32>>, start: Seq<Binary32>, k: nat)
    requires
        is_calm(m, power_iterated(m, start, k)),
        exists|c: int| is_felt(m, power_iterated(m, start, k), c),
    ensures
        ascends(m, power_iterated(m, start, k), power_iterated(m, start, k + 1)),
{
    let v = power_iterated(m, start, k);
    let t = power_iterated(m, start, k + 1);
    let at = choose|c: int| is_felt(m, v, c);
    lemma_last_step(m, start, k);
    reveal_with_fuel(power_iterated, 2);
    let next = power_product(m, v);
    let norm = dot32(next, next).root();
    let u = unity();
    let uu = u * u;
    lemma_pow2_pos(149);
    lemma2_to64();
    lemma_pow2_adds(149, 149);
    lemma_pow2_pos(298);
    lemma_product_coordinate(m, v, at);
    assert forall|i: int| 0 <= i < next.len() implies (#[trigger] next[i]).finite() && size32(
        next[i],
    ) <= pow2(190) by {
        lemma_product_coordinate(m, v, i);
    }
    assert(size32(next[at]) >= pow2(110)) by {
        lemma_val(next[at]);
        lemma_far_product(val(next[at]), uu as int);
        lemma_pow2_unfold(409);
        lemma_pow2_adds(110, 298);
        if size32(next[at]) < pow2(110) {
            lemma_mul_strict_inequality(size32(next[at]) as int, pow2(110) as int, uu as int);
        }
    }
    lemma_norm(next, at);
    lemma_smallest();
    lemma_number(norm);
    lemma_number(smallest_direction());
    lemma_sizes32(norm, smallest_direction());
    assert(smallest_direction().below(norm));
    assert(t == scaled_down(next, norm));
    let n = size32(norm);
    let scale = n * u;
    assert(scale > 0) by {
        lemma_pow2_pos(110);
        lemma_mul_strictly_positive(n as int, u as int);
    }
    assert forall|c: int| 0 <= c < v.len() implies (#[trigger] t[c]).finite() && 0x100_0000 * far(
        val(t[c]) * scale - ascent(m, v, c),
    ) <= slack(m, v, c) by {
        lemma_product_coordinate(m, v, c);
        let x = next[c];
        let a = ascent(m, v, c);
        lemma_val(x);
        lemma_pow2_adds(190, 149);
        lemma_pow2_adds(253, 110);
        lemma_pow2_strictly_increases(339, 363);
        assert(size32(x) * u <= ceiling() * n) by {
            lemma_mul_inequality(size32(x) as int, pow2(190) as int, u as int);
            lemma_mul_upper_bound(pow2(253) as int, ceiling() as int, pow2(110) as int, n as int);
        }
        lemma_over_drift(x, norm);
        let g = val(t[c]) * n - val(x) * u;
        lemma_far_product(g, u as int);
        assert(g * u == val(t[c]) * scale - val(x) * uu) by (nonlinear_arith)
            requires
                g == val(t[c]) * n - val(x) * u,
                scale == n * u,
                uu == u * u,
        ;
        let (fg, fx) = (far(g), size32(x));
        assert(0x100_0000 * (fg * u) <= fx * uu + 0x80_0000 * scale) by (nonlinear_arith)
            requires
                0x100_0000 * fg <= fx * u + 0x80_0000 * n,
                uu == u * u,
                scale == n * u,
        ;
        assert(0x80_0000 * scale <= pow2(373)) by {
            lemma_pow2_adds(201, 149);
            lemma_pow2_adds(23, 350);
            lemma_mul_inequality(n as int, pow2(201) as int, u as int);
        }
    }
    assert(ascends_by(m, v, t, scale));
}

/// The inner product of two lists.
pub open spec fn product(a: Seq<int>, b: Seq<int>) -> int
    decreases a.len(),
{
    if a.len() == 0 {
        0
    } else {
        product(a.drop_last(), b.drop_last()) + a.last() * b.last()
    }
}

/// The inner products of the rows with a direction.
pub open spec fn shadows(m: Seq<Seq<Binary32>>, v: Seq<Binary32>) -> Seq<int> {
    Seq::new(m.len(), |i: int| product(vals(m[i]), vals(v)))
}

/// The variance of the rows along a direction, as often as there are rows and
/// as the direction is long.
pub open spec fn variance(m: Seq<Seq<Binary32>>, v: Seq<Binary32>) -> int {
    product(shadows(m, v), shadows(m, v))
}

/// The square of the length of a direction.
pub open spec fn length_squared(v: Seq<Binary32>) -> int {
    product(vals(v), vals(v))
}

/// The ascent from `v` in all coordinates.
pub open spec fn ascents(m: Seq<Seq<Binary32>>, v: Seq<Binary32>) -> Seq<int> {
    Seq::new(v.len(), |c: int| ascent(m, v, c))
}

/// The slacks in all coordinates.
pub open spec fn slacks(m: Seq<Seq<Binary32>>, v: Seq<Binary32>) -> Seq<int> {
    Seq::new(v.len(), |c: int| slack(m, v, c) as int)
}

proof fn lemma_product_squares(a: Seq<int>)
    ensures
        product(a, a) >= 0,
    decreases a.len(),
{
    if a.len() > 0 {
        lemma_product_squares(a.drop_last());
        let x = a.last();
        assert(x * x >= 0) by (nonlinear_arith);
    }
}

/// Of two numbers that are not negative, the one with the larger square is no
/// less.
proof fn lemma_roots_ordered(x: int, y: int)
    requires
        x * x <= y * y,
        0 <= y,
    ensures
        -y <= x <= y,
{
    if x > y {
        assert(x * x > y * y) by (nonlinear_arith)
            requires
                x > y >= 0,
        ;
    }
    if x < -y {
        assert(x * x > y * y) by (nonlinear_arith)
            requires
                x < -y,
                y >= 0,
        ;
    }
}

/// The inequality of Cauchy and Schwarz.
proof fn lemma_cauchy(a: Seq<int>, b: Seq<int>)
    requires
        a.len() == b.len(),
    ensures
        product(a, b) * product(a, b) <= product(a, a) * product(b, b),
    decreases a.len(),
{
    if a.len() == 0 {
        assert(0 * 0 == 0);
    } else {
        let (a0, b0) = (a.drop_last(), b.drop_last());
        lemma_cauchy(a0, b0);
        lemma_product_squares(a0);
        lemma_product_squares(b0);
        let (s, p, q) = (product(a0, b0), product(a0, a0), product(b0, b0));
        let (x, y) = (a.last(), b.last());
        lemma_one_more(s, p, q, x, y);
    }
}

proof fn lemma_one_more(s: int, p: int, q: int, x: int, y: int)
    requires
        s * s <= p * q,
        0 <= p,
        0 <= q,
    ensures
        (s + x * y) * (s + x * y) <= (p + x * x) * (q + y * y),
{
    // 2 s x y <= p y y + q x x, since the squares are so ordered
    let (l, r) = (2 * (s * (x * y)), p * (y * y) + q * (x * x));
    let (xx, yy, xy) = (x * x, y * y, x * y);
    assert(xx >= 0 && yy >= 0) by (nonlinear_arith)
        requires
            xx == x * x,
            yy == y * y,
    ;
    assert(xy * xy == xx * yy) by (nonlinear_arith)
        requires
            xx == x * x,
            yy == y * y,
            xy == x * y,
    ;
    let (c, d) = (p * yy, q * xx);
    assert(c >= 0) by (nonlinear_arith)
        requires
            p >= 0,
            yy >= 0,
            c == p * yy,
    ;
    assert(d >= 0) by (nonlinear_arith)
        requires
            q >= 0,
            xx >= 0,
            d == q * xx,
    ;
    let z = xx * yy;
    assert(z >= 0) by (nonlinear_arith)
        requires
            xx >= 0,
            yy >= 0,
            z == xx * yy,
    ;
    assert(l * l == 4 * ((s * s) * z)) by (nonlinear_arith)
        requires
            l == 2 * (s * xy),
            xy * xy == z,
    ;
    assert((s * s) * z <= (p * q) * z) by (nonlinear_arith)
        requires
            s * s <= p * q,
            z >= 0,
    ;
    assert((p * q) * z == c * d) by (nonlinear_arith)
        requires
            c == p * yy,
            d == q * xx,
            z == xx * yy,
    ;
    assert(4 * (c * d) <= (c + d) * (c + d)) by (nonlinear_arith);
    lemma_roots_ordered(l, r);
    assert((s + xy) * (s + xy) == s * s + 2 * (s * xy) + xy * xy) by (nonlinear_arith);
    assert((p + xx) * (q + yy) == p * q + p * yy + q * xx + xx * yy) by (nonlinear_arith);
}

/// Inner products add up.
proof fn lemma_product_adds(a: Seq<int>, b: Seq<int>, c: Seq<int>, k: int)
    requires
        a.len() == b.len() == c.len(),
    ensures
        product(a, Seq::new(b.len(), |i: int| b[i] + k * c[i])) == product(a, b) + k * product(
            a,
            c,
        ),
        product(a, b) == product(b, a),
    decreases a.len(),
{
    let z = Seq::new(b.len(), |i: int| b[i] + k * c[i]);
    if a.len() == 0 {
        assert(k * 0 == 0);
    } else {
        let (a0, b0, c0) = (a.drop_last(), b.drop_last(), c.drop_last());
        lemma_product_adds(a0, b0, c0, k);
        assert(z.drop_last() =~= Seq::new(b0.len(), |i: int| b0[i] + k * c0[i]));
        let (x, y, w, s) = (a.last(), b.last(), c.last(), product(a0, c0));
        assert(x * (y + k * w) == x * y + k * (x * w)) by (nonlinear_arith);
        assert(k * (s + x * w) == k * s + k * (x * w)) by (nonlinear_arith);
        assert(x * y == y * x) by (nonlinear_arith);
    }
}

proof fn lemma_along(row: Seq<Binary32>, v: Seq<Binary32>)
    requires
        row.len() == v.len(),
    ensures
        along(row, v) == product(vals(row), vals(v)),
    decreases row.len(),
{
    if row.len() > 0 {
        let (r0, v0) = (row.drop_last(), v.drop_last());
        lemma_along(r0, v0);
        assert(pairs(row, v).drop_last() =~= pairs(r0, v0));
        assert(vals(row).drop_last() =~= vals(r0));
        assert(vals(v).drop_last() =~= vals(v0));
    }
}

/// The ascent along any list is what the inner products with `v` and with the
/// list come to.
proof fn lemma_exchanged(m: Seq<Seq<Binary32>>, v: Seq<Binary32>, x: Seq<int>)
    requires
        is_matrix(m, v.len()),
        x.len() == v.len(),
    ensures
        product(x, ascents(m, v)) == product(
            shadows(m, v),
            Seq::new(m.len(), |i: int| product(x, vals(m[i]))),
        ),
    decreases m.len(),
{
    let y = Seq::new(m.len(), |i: int| product(x, vals(m[i])));
    let w = ascents(m, v);
    if m.len() == 0 {
        assert forall|c: int| 0 <= c < w.len() implies #[trigger] w[c] == 0 by {
            assert(moments(m, v, c).len() == 0);
        }
        lemma_product_zero(x, w);
    } else {
        let m0 = m.drop_last();
        let row = m.last();
        assert forall|i: int| 0 <= i < m0.len() implies (#[trigger] m0[i]).len() == v.len() by {
            assert(m[i].len() == v.len());
        }
        lemma_exchanged(m0, v, x);
        assert(shadows(m, v).drop_last() =~= shadows(m0, v));
        assert(y.drop_last() =~= Seq::new(m0.len(), |i: int| product(x, vals(m0[i]))));
        assert(m[m.len() - 1].len() == v.len());
        lemma_along(row, v);
        let p = along(row, v);
        let w0 = ascents(m0, v);
        let r = vals(row);
        assert(w =~= Seq::new(w0.len(), |c: int| w0[c] + p * r[c])) by {
            assert forall|c: int| 0 <= c < w.len() implies w[c] == w0[c] + p * r[c] by {
                assert(moments(m, v, c).drop_last() =~= moments(m0, v, c));
            }
        }
        lemma_product_adds(x, w0, r, p);
    }
}

proof fn lemma_product_zero(a: Seq<int>, b: Seq<int>)
    requires
        a.len() == b.len(),
        forall|i: int| 0 <= i < b.len() ==> #[trigger] b[i] == 0,
    ensures
        product(a, b) == 0,
    decreases a.len(),
{
    if a.len() > 0 {
        let b0 = b.drop_last();
        assert forall|i: int| 0 <= i < b0.len() implies #[trigger] b0[i] == 0 by {
            assert(b[i] == 0);
        }
        lemma_product_zero(a.drop_last(), b0);
        assert(b[b.len() - 1] == 0);
        let x = a.last();
        assert(x * 0 == 0);
    }
}

proof fn lemma_product_scaled(a: Seq<int>, b: Seq<int>, k: int)
    requires
        a.len() == b.len(),
    ensures
        product(a, Seq::new(b.len(), |i: int| b[i] * k)) == product(a, b) * k,
        product(Seq::new(b.len(), |i: int| b[i] * k), Seq::new(b.len(), |i: int| b[i] * k))
            == product(b, b) * (k * k),
    decreases a.len(),
{
    let z = Seq::new(b.len(), |i: int| b[i] * k);
    if a.len() == 0 {
        assert(0 * k == 0 && 0 * (k * k) == 0);
    } else {
        let (a0, b0) = (a.drop_last(), b.drop_last());
        lemma_product_scaled(a0, b0, k);
        assert(z.drop_last() =~= Seq::new(b0.len(), |i: int| b0[i] * k));
        let (x, y, s, t) = (a.last(), b.last(), product(a0, b0), product(b0, b0));
        assert(x * (y * k) == (x * y) * k) by (nonlinear_arith);
        assert((s + x * y) * k == s * k + (x * y) * k) by (nonlinear_arith);
        assert((y * k) * (y * k) == (y * y) * (k * k)) by (nonlinear_arith);
        assert((t + y * y) * (k * k) == t * (k * k) + (y * y) * (k * k)) by (nonlinear_arith);
    }
}

/// Squares bounded term by term are bounded together.
proof fn lemma_squares_within(a: Seq<int>, b: Seq<int>, k: int)
    requires
        a.len() == b.len(),
        forall|i: int| 0 <= i < a.len() ==> k * far(#[trigger] a[i]) <= b[i],
        k > 0,
    ensures
        (k * k) * product(a, a) <= product(b, b),
    decreases a.len(),
{
    if a.len() == 0 {
        assert((k * k) * 0 == 0);
    } else {
        let (a0, b0) = (a.drop_last(), b.drop_last());
        assert forall|i: int| 0 <= i < a0.len() implies k * far(#[trigger] a0[i]) <= b0[i] by {
            assert(k * far(a[i]) <= b[i]);
        }
        lemma_squares_within(a0, b0, k);
        let l = a.len() - 1;
        assert(k * far(a[l]) <= b[l]);
        let (x, y, s) = (far(a[l]) as int, b[l], product(a0, a0));
        assert(a[l] * a[l] == x * x) by {
            lemma_far_product(a[l], a[l]);
            let e = a[l];
            assert(e * e >= 0) by (nonlinear_arith);
        }
        assert(k * x >= 0) by (nonlinear_arith)
            requires
                k > 0,
                x >= 0,
        ;
        assert((k * x) * (k * x) <= y * y) by (nonlinear_arith)
            requires
                0 <= k * x <= y,
        ;
        assert((k * x) * (k * x) == (k * k) * (x * x)) by (nonlinear_arith);
        assert((k * k) * (s + x * x) == (k * k) * s + (k * k) * (x * x)) by (nonlinear_arith);
    }
}

/// A step of the power iteration does not lose variance: where rounding takes
/// the ascent off by at most one part in `r`, the variance of the rows along
/// the new direction, over the square of its length, is no less than along the
/// old one, but for some parts in `r`.
pub proof fn no_step_loses_variance(
    m: Seq<Seq<Binary32>>,
    start: Seq<Binary32>,
    k: nat,
    r: nat,
)
    requires
        r > 0,
        is_calm(m, power_iterated(m, start, k)),
        exists|c: int| is_felt(m, power_iterated(m, start, k), c),
        (r * r) * product(
            slacks(m, power_iterated(m, start, k)),
            slacks(m, power_iterated(m, start, k)),
        ) <= 0x1_0000_0000_0000 * product(
            ascents(m, power_iterated(m, start, k)),
            ascents(m, power_iterated(m, start, k)),
        ),
    ensures
        ((r - 1) * (r - 1)) * (variance(m, power_iterated(m, start, k)) * length_squared(
            power_iterated(m, start, k + 1),
        )) <= ((r + 1) * (r + 1)) * (variance(m, power_iterated(m, start, k + 1)) * length_squared(
            power_iterated(m, start, k),
        )),
{
    let v = power_iterated(m, start, k);
    let t = power_iterated(m, start, k + 1);
    each_step_ascends(m, start, k);
    let scale = choose|scale: nat| scale > 0 && #[trigger] ascends_by(m, v, t, scale);
    let n = scale as int;
    let w = ascents(m, v);
    let z = Seq::new(t.len(), |c: int| vals(t)[c] * n);
    let e = Seq::new(t.len(), |c: int| z[c] - w[c]);
    // the inner products that matter
    let (ww, we, ee) = (product(w, w), product(w, e), product(e, e));
    assert(z =~= Seq::new(w.len(), |c: int| w[c] + 1 * e[c]));
    lemma_product_adds(w, w, e, 1);
    lemma_product_adds(e, w, e, 1);
    lemma_product_adds(z, w, e, 1);
    lemma_product_adds(z, e, e, 0);
    let (wz, zz) = (product(w, z), product(z, z));
    assert(wz == ww + we);
    assert(zz == ww + 2 * we + ee);
    assert forall|c: int| 0 <= c < e.len() implies 0x100_0000 * far(#[trigger] e[c]) <= slacks(
        m,
        v,
    )[c] by {
        assert(t[c].finite());
    }
    lemma_squares_within(e, slacks(m, v), 0x100_0000);
    let ss = product(slacks(m, v), slacks(m, v));
    let rr = (r * r) as int;
    assert(rr * ee <= ww) by (nonlinear_arith)
        requires
            0x1_0000_0000_0000 * ee <= ss,
            rr * ss <= 0x1_0000_0000_0000 * ww,
            rr >= 0,
    ;
    lemma_cauchy(w, e);
    lemma_product_squares(w);
    lemma_product_squares(e);
    // the variance along both
    let sv = shadows(m, v);
    let st = shadows(m, t);
    let y = Seq::new(m.len(), |i: int| product(z, vals(m[i])));
    lemma_exchanged(m, v, z);
    lemma_product_adds(z, w, w, 0);
    assert(y =~= Seq::new(st.len(), |i: int| st[i] * n)) by {
        assert forall|i: int| 0 <= i < y.len() implies y[i] == st[i] * n by {
            assert(m[i].len() == v.len());
            lemma_product_scaled(vals(m[i]), vals(t), n);
            lemma_product_adds(z, vals(m[i]), vals(m[i]), 0);
            assert(z =~= Seq::new(vals(t).len(), |i: int| vals(t)[i] * n));
        }
    }
    lemma_product_scaled(st, st, n);
    lemma_cauchy(sv, y);
    let x = vals(v);
    let yv = Seq::new(m.len(), |i: int| product(x, vals(m[i])));
    lemma_exchanged(m, v, x);
    assert(yv =~= sv) by {
        assert forall|i: int| 0 <= i < yv.len() implies yv[i] == sv[i] by {
            assert(m[i].len() == v.len());
            lemma_product_adds(x, vals(m[i]), vals(m[i]), 0);
        }
    }
    lemma_cauchy(x, w);
    lemma_product_squares(sv);
    lemma_product_squares(st);
    lemma_product_squares(x);
    lemma_product_scaled(vals(t), vals(t), n);
    assert(z =~= Seq::new(vals(t).len(), |i: int| vals(t)[i] * n));
    lemma_variances(
        ww,
        we,
        ee,
        product(sv, sv),
        product(st, st),
        product(x, x),
        product(vals(t), vals(t)),
        n,
        r as int,
    );
}

/// The arithmetic behind it.
proof fn lemma_variances(
    ww: int,
    we: int,
    ee: int,
    old_variance: int,
    new_variance: int,
    old_length: int,
    new_length: int,
    n: int,
    r: int,
)
    requires
        r > 0,
        n > 0,
        ww >= 0,
        ee >= 0,
        old_variance >= 0,
        new_variance >= 0,
        old_length >= 0,
        we * we <= ww * ee,
        (r * r) * ee <= ww,
        (ww + we) * (ww + we) <= old_variance * (new_variance * (n * n)),
        ww + 2 * we + ee == new_length * (n * n),
        old_variance * old_variance <= old_length * ww,
    ensures
        ((r - 1) * (r - 1)) * (old_variance * new_length) <= ((r + 1) * (r + 1)) * (new_variance
            * old_length),
{
    let nn = n * n;
    assert(nn > 0) by (nonlinear_arith)
        requires
            n > 0,
            nn == n * n,
    ;
    // r |we| <= ww
    let rr = r * r;
    assert(rr * (we * we) <= rr * (ww * ee)) by (nonlinear_arith)
        requires
            we * we <= ww * ee,
            rr == r * r,
    ;
    assert((r * we) * (r * we) == rr * (we * we)) by (nonlinear_arith)
        requires
            rr == r * r,
    ;
    assert(rr * (ww * ee) == ww * (rr * ee)) by (nonlinear_arith);
    assert(ww * (rr * ee) <= ww * ww) by (nonlinear_arith)
        requires
            rr * ee <= ww,
            ww >= 0,
    ;
    lemma_roots_ordered(r * we, ww);
    // (r - 1) ww <= r (ww + we), and rr z <= (r + 1)^2 ww
    let wz = ww + we;
    let z = ww + 2 * we + ee;
    assert((r - 1) * ww <= r * wz) by (nonlinear_arith)
        requires
            -ww <= r * we,
            wz == ww + we,
    ;
    assert(rr * z <= ((r + 1) * (r + 1)) * ww) by (nonlinear_arith)
        requires
            z == ww + 2 * we + ee,
            rr * ee <= ww,
            rr == r * r,
            r * we <= ww,
            r > 0,
    ;
    let (a, b) = ((r - 1) * ww, r * wz);
    assert(a >= 0) by (nonlinear_arith)
        requires
            r >= 1,
            ww >= 0,
            a == (r - 1) * ww,
    ;
    assert(a * a <= b * b) by (nonlinear_arith)
        requires
            0 <= a <= b,
    ;
    let q = (r - 1) * (r - 1);
    assert(a * a == q * (ww * ww)) by (nonlinear_arith)
        requires
            a == (r - 1) * ww,
            q == (r - 1) * (r - 1),
    ;
    assert(b * b == rr * (wz * wz)) by (nonlinear_arith)
        requires
            b == r * wz,
            rr == r * r,
    ;
    let (vo, vn, lo, ln) = (old_variance, new_variance, old_length, new_length);
    let vn2 = vn * nn;
    assert(rr * (wz * wz) <= rr * (vo * vn2)) by (nonlinear_arith)
        requires
            wz * wz <= vo * vn2,
            rr == r * r,
    ;
    // q ww ww <= rr vo vn2
    if vo == 0 {
        assert(q * (0 * ln) == 0);
        let p = (r + 1) * (r + 1);
        assert(p * (vn * lo) >= 0) by (nonlinear_arith)
            requires
                vn >= 0,
                lo >= 0,
                p == (r + 1) * (r + 1),
        ;
    } else {
        lemma_variances_apart(ww, vo, vn2, lo, q, rr);
        // q ww vo <= rr vn2 lo
        let p = (r + 1) * (r + 1);
        let pw = p * ww;
        let qv = q * vo;
        assert(qv >= 0) by (nonlinear_arith)
            requires
                vo >= 0,
                qv == q * vo,
                q == (r - 1) * (r - 1),
        ;
        assert(qv * (rr * z) <= qv * pw) by (nonlinear_arith)
            requires
                rr * z <= pw,
                qv >= 0,
        ;
        assert(qv * pw == p * (q * (ww * vo))) by (nonlinear_arith)
            requires
                qv == q * vo,
                pw == p * ww,
        ;
        assert(p >= 0) by (nonlinear_arith)
            requires
                p == (r + 1) * (r + 1),
        ;
        assert(p * (q * (ww * vo)) <= p * (rr * (vn2 * lo))) by (nonlinear_arith)
            requires
                q * (ww * vo) <= rr * (vn2 * lo),
                p >= 0,
        ;
        // qv rr ln nn <= p rr vn nn lo
        let c = rr * nn;
        assert(c > 0) by (nonlinear_arith)
            requires
                rr == r * r,
                r > 0,
                nn > 0,
                c == rr * nn,
        ;
        assert(qv * (rr * z) == (q * (vo * ln)) * c) by (nonlinear_arith)
            requires
                z == ln * nn,
                qv == q * vo,
                c == rr * nn,
        ;
        assert(p * (rr * (vn2 * lo)) == (p * (vn * lo)) * c) by (nonlinear_arith)
            requires
                vn2 == vn * nn,
                c == rr * nn,
        ;
        let (left, right) = (q * (vo * ln), p * (vn * lo));
        if left > right {
            lemma_mul_strict_inequality(right, left, c);
        }
    }
}

proof fn lemma_variances_apart(ww: int, vo: int, vn2: int, lo: int, q: int, rr: int)
    requires
        vo > 0,
        lo >= 0,
        q >= 0,
        ww >= 0,
        q * (ww * ww) <= rr * (vo * vn2),
        vo * vo <= lo * ww,
    ensures
        q * (ww * vo) <= rr * (vn2 * lo),
{
    // q ww vo vo <= q ww lo ww <= rr vo vn2 lo
    let a = q * ww;
    assert(a >= 0) by (nonlinear_arith)
        requires
            q >= 0,
            ww >= 0,
            a == q * ww,
    ;
    assert(a * (vo * vo) <= a * (lo * ww)) by (nonlinear_arith)
        requires
            vo * vo <= lo * ww,
            a >= 0,
    ;
    assert(a * (lo * ww) == lo * (q * (ww * ww))) by (nonlinear_arith)
        requires
            a == q * ww,
    ;
    assert(lo * (q * (ww * ww)) <= lo * (rr * (vo * vn2))) by (nonlinear_arith)
        requires
            q * (ww * ww) <= rr * (vo * vn2),
            lo >= 0,
    ;
    let (left, right) = (q * (ww * vo), rr * (vn2 * lo));
    assert(a * (vo * vo) == left * vo) by (nonlinear_arith)
        requires
            a == q * ww,
            left == q * (ww * vo),
    ;
    assert(lo * (rr * (vo * vn2)) == right * vo) by (nonlinear_arith)
        requires
            right == rr * (vn2 * lo),
    ;
    if left > right {
        lemma_mul_strict_inequality(right, left, vo);
    }
}

/// Whether a step from `v` is felt, and rounding takes it off by at most one
/// part in `r`.
pub open spec fn is_clear(m: Seq<Seq<Binary32>>, v: Seq<Binary32>, r: nat) -> bool {
    &&& is_calm(m, v)
    &&& length_squared(v) > 0
    &&& exists|c: int| is_felt(m, v, c)
    &&& (r * r) * product(slacks(m, v), slacks(m, v)) <= 0x1_0000_0000_0000 * product(
        ascents(m, v),
        ascents(m, v),
    )
}

/// The direction that the power iteration returns has no less variance along
/// it than the one it starts from, but for some parts in `r` at every step.
pub proof fn the_iteration_does_not_lose_variance(
    m: Seq<Seq<Binary32>>,
    start: Seq<Binary32>,
    k: nat,
    r: nat,
)
    requires
        r > 0,
        forall|j: nat| j < k ==> is_clear(m, #[trigger] power_iterated(m, start, j), r),
    ensures
        power(((r - 1) * (r - 1)) as nat, k) * (variance(m, start) * length_squared(
            power_iterated(m, start, k),
        )) <= power(((r + 1) * (r + 1)) as nat, k) * (variance(m, power_iterated(m, start, k))
            * length_squared(start)),
    decreases k,
{
    if k > 0 {
        let h = (k - 1) as nat;
        the_iteration_does_not_lose_variance(m, start, h, r);
        let (v, t) = (power_iterated(m, start, h), power_iterated(m, start, k));
        assert(is_clear(m, v, r));
        no_step_loses_variance(m, start, h, r);
        let (q, p) = (((r - 1) * (r - 1)) as nat, ((r + 1) * (r + 1)) as nat);
        assert((r - 1) * (r - 1) >= 0) by (nonlinear_arith);
        lemma_product_squares(shadows(m, start));
        lemma_product_squares(shadows(m, v));
        lemma_product_squares(shadows(m, t));
        lemma_product_squares(vals(start));
        lemma_product_squares(vals(t));
        lemma_two_steps(
            power(q, h) as int,
            power(p, h) as int,
            q as int,
            p as int,
            variance(m, start),
            variance(m, v),
            variance(m, t),
            length_squared(start),
            length_squared(v),
            length_squared(t),
        );
    }
}

/// The arithmetic of one step more.
proof fn lemma_two_steps(
    qs: int,
    ps: int,
    q: int,
    p: int,
    v0: int,
    v1: int,
    v2: int,
    l0: int,
    l1: int,
    l2: int,
)
    requires
        qs >= 0,
        ps >= 0,
        q >= 0,
        p >= 0,
        v0 >= 0,
        v1 >= 0,
        v2 >= 0,
        l0 >= 0,
        l1 > 0,
        l2 >= 0,
        qs * (v0 * l1) <= ps * (v1 * l0),
        q * (v1 * l2) <= p * (v2 * l1),
    ensures
        (q * qs) * (v0 * l2) <= (p * ps) * (v2 * l0),
{
    let (a, b) = (q * l2, ps * l0);
    lemma_mul_nonnegative(q, l2);
    lemma_mul_nonnegative(ps, l0);
    lemma_mul_inequality(qs * (v0 * l1), ps * (v1 * l0), a);
    lemma_mul_inequality(q * (v1 * l2), p * (v2 * l1), b);
    let (left, right) = ((q * qs) * (v0 * l2), (p * ps) * (v2 * l0));
    assert((qs * (v0 * l1)) * a == left * l1) by (nonlinear_arith)
        requires
            a == q * l2,
            left == (q * qs) * (v0 * l2),
    ;
    assert((ps * (v1 * l0)) * a == (q * (v1 * l2)) * b) by (nonlinear_arith)
        requires
            a == q * l2,
            b == ps * l0,
    ;
    assert((p * (v2 * l1)) * b == right * l1) by (nonlinear_arith)
        requires
            b == ps * l0,
            right == (p * ps) * (v2 * l0),
    ;
    if left > right {
        lemma_mul_strict_inequality(right, left, l1);
    }
}

/// A centered row holds the deviations of the row from the center, but for one
/// rounding each.
pub proof fn centered_rows_are_deviations(
    m: Seq<Seq<Binary32>>,
    center: Seq<Binary32>,
    i: int,
    c: int,
)
    requires
        0 <= i < m.len(),
        0 <= c < m[i].len(),
        m[i][c].finite(),
        center[c].finite(),
        far(val(m[i][c]) - val(center[c])) <= ceiling(),
    ensures
        centered(m, center).len() == m.len(),
        centered(m, center)[i].len() == m[i].len(),
        centered(m, center)[i][c].finite(),
        0x100_0000 * far(
            val(centered(m, center)[i][c]) - (val(m[i][c]) - val(center[c])),
        ) <= far(val(m[i][c]) - val(center[c])),
{
    lemma_minus_drift(m[i][c], center[c]);
}

} // verus!
