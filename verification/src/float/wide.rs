//! How far signed numbers in double precision are from the exact ones.
use vstd::prelude::*;
use vstd::arithmetic::div_mod::*;
use vstd::arithmetic::mul::*;
use vstd::arithmetic::power2::*;
use crate::float::binary32::Binary32;
use crate::float::binary64::Binary64;
use crate::float::drift::{far, lemma_any_round, lemma_far_product, lemma_total_within, lemma_val, lemma_weight_grows, total, val, weight};
use crate::float::format::{bit_len, nearest_even, Format};
use crate::float::ieee::{lemma_round_zero, lemma_units_zero};
use crate::float::laws::{lemma_converted, lemma_pack, lemma_product_parts, lemma_round_at_most, lemma_round_band, lemma_sizes, lemma_unpack, sums_round_once};
use crate::float::magnitude::lemma_hidden;
use crate::float::round::lemma_bit_len_bounds;
use crate::float::slip::{grain, lemma_grid_units, lemma_nearest_error, lemma_round_error};

verus! {

/// The number itself, in units of 2^-1074.
pub open spec fn val64(x: Binary64) -> int {
    Format::Double.value(x.bits as nat)
}

/// Whether `v` is `e`, but for `i` parts in 2^50 of `w`.
pub open spec fn rough(v: int, e: int, w: nat, i: nat) -> bool {
    &&& far(e) <= w
    &&& 0x4_0000_0000_0000 * far(v - e) <= i * w
}

/// A power of two is a number.
proof fn lemma_power64(e: nat) -> (mag: nat)
    requires
        52 <= e <= 2097,
    ensures
        mag < Format::Double.inf(),
        Format::Double.units(mag) == pow2(e),
{
    let d = Format::Double;
    let h = d.hidden();
    lemma_sizes(d);
    lemma2_to64();
    lemma2_to64_rest();
    reveal(Format::units);
    let mag = ((e - 51) * h) as nat;
    lemma_fundamental_div_mod_converse(mag as int, h as int, e - 51, 0);
    lemma_pow2_adds(52, (e - 52) as nat);
    mag
}

/// Rounding is off by at most one part in 2^53 or half a unit.
proof fn lemma_any_round64(n: nat, d: nat)
    requires
        d > 0,
        Format::Double.round(n, d) < Format::Double.inf(),
    ensures
        0x20_0000_0000_0000 * (Format::Double.units(Format::Double.round(n, d)) * d - n) <= n
            + 0x10_0000_0000_0000 * d,
        0x20_0000_0000_0000 * (n - Format::Double.units(Format::Double.round(n, d)) * d) <= n
            + 0x10_0000_0000_0000 * d,
{
    let f = Format::Double;
    lemma_sizes(f);
    lemma_hidden(f);
    lemma2_to64();
    lemma2_to64_rest();
    assert(grain(f) == 0x20_0000_0000_0000);
    if n / d >= grain(f) {
        lemma_round_error(f, n, d);
    } else {
        let q = n / d;
        lemma_bit_len_bounds(q);
        if bit_len(q) > 53 {
            if bit_len(q) > 54 {
                lemma_pow2_strictly_increases(53, (bit_len(q) - 1) as nat);
            }
        }
        assert(f.spacing(q) == 0);
        assert(d * pow2(0) == d) by (nonlinear_arith)
            requires
                pow2(0) == 1,
        ;
        let k = nearest_even(n, d);
        lemma_round_band(f, n, d);
        assert(f.round(n, d) == k) by {
            reveal(Format::round);
            assert(0 * f.hidden() == 0);
        }
        lemma_grid_units(f, 0, k);
        assert(0 * f.hidden() == 0);
        assert(k * 1 == k);
        lemma_nearest_error(n, d);
    }
}

/// A sum that is not too large is finite and off by one part in 2^53.
pub proof fn lemma_wide_sum(x: Binary64, y: Binary64)
    requires
        x.finite(),
        y.finite(),
        far(val64(x) + val64(y)) <= pow2(2090),
    ensures
        x.plus(y).finite(),
        0x20_0000_0000_0000 * far(val64(x.plus(y)) - (val64(x) + val64(y))) <= far(
            val64(x) + val64(y),
        ),
{
    let f = Format::Double;
    reveal(Binary64::finite);
    reveal(Binary64::plus);
    lemma_sizes(f);
    lemma_units_zero(f);
    lemma_round_zero(f, 1);
    let top = lemma_power64(2090);
    let (a, b) = (x.bits as nat, y.bits as nat);
    sums_round_once(f, a, b);
    let z = f.value(a) + f.value(b);
    let n = far(z);
    lemma_round_at_most(f, n, 1, top);
    lemma_pack(f, true, f.round(n, 1));
    lemma_pack(f, false, f.round(n, 1));
    lemma_pack(f, true, 0);
    lemma_pack(f, false, 0);
    lemma_round_error(f, n, 1);
    let u = f.units(f.round(n, 1));
    assert(u * 1 == u);
    assert(grain(f) == 0x20_0000_0000_0000);
    let w = val64(x.plus(y));
    if z < 0 {
        assert(w == -u);
    } else if z > 0 {
        assert(w == u);
    } else {
        assert(w == 0);
    }
}

/// A product that is not too large is finite and off by one part in 2^53, or
/// half a unit.
pub proof fn lemma_wide_product(x: Binary64, y: Binary64)
    requires
        x.finite(),
        y.finite(),
        far(val64(x)) * far(val64(y)) <= pow2(2090) * pow2(1074),
    ensures
        x.times(y).finite(),
        0x20_0000_0000_0000 * far(val64(x.times(y)) * pow2(1074) - val64(x) * val64(y)) <= far(
            val64(x),
        ) * far(val64(y)) + 0x10_0000_0000_0000 * pow2(1074),
{
    let f = Format::Double;
    reveal(Binary64::finite);
    reveal(Binary64::times);
    lemma_sizes(f);
    lemma_units_zero(f);
    let top = lemma_power64(2090);
    let (a, b) = (x.bits as nat, y.bits as nat);
    lemma_product_parts(f, a, b);
    let (sx, sy) = (f.units(f.magnitude(a)) as int, f.units(f.magnitude(b)) as int);
    assert(far(val64(x)) == sx && far(val64(y)) == sy);
    let (n, d) = ((sx * sy) as nat, pow2(1074));
    lemma_pow2_pos(1074);
    lemma_round_at_most(f, n, d, top);
    let m = f.round(n, d);
    let u = f.units(m);
    let p = f.product(a, b);
    assert(f.magnitude(p) == m);
    let negative = f.negative(a) != f.negative(b);
    assert(val64(x) * val64(y) == if negative { -(n as int) } else { n as int })
        by (nonlinear_arith)
        requires
            val64(x) == (if f.negative(a) { -sx } else { sx }),
            val64(y) == (if f.negative(b) { -sy } else { sy }),
            n == sx * sy,
            negative == (f.negative(a) != f.negative(b)),
    ;
    let w = val64(x.times(y));
    assert(w == if negative { -(u as int) } else { u as int });
    assert(-(u as int) * d == -((u * d) as int)) by (nonlinear_arith);
    let gap = u * d - n;
    lemma_any_round64(n, d);
    assert(far(w * d - val64(x) * val64(y)) == far(gap));
}

/// The opposite of a number.
pub proof fn lemma_wide_negated(x: Binary64)
    requires
        x.finite(),
    ensures
        x.negated().finite(),
        val64(x.negated()) == -val64(x),
{
    let f = Format::Double;
    reveal(Binary64::finite);
    reveal(Binary64::negated);
    lemma_sizes(f);
    lemma_units_zero(f);
    let b = x.bits as nat;
    lemma_unpack(f, b);
    lemma_pack(f, !f.negative(b), f.magnitude(b));
}

/// A number in single precision is the same number in double precision.
pub proof fn lemma_wide(x: Binary32)
    requires
        x.finite(),
    ensures
        x.as_binary64().finite(),
        val64(x.as_binary64()) == val(x) * pow2(925),
        rough(val64(x.as_binary64()), val(x) * pow2(925), far(val(x)) * pow2(925), 0),
{
    x.widening_is_exact();
    lemma_far_product(val(x), pow2(925) as int);
}

/// What is nearly so is also so with more to spare.
pub proof fn lemma_rough_more(v: int, e: int, w: nat, i: nat, j: nat)
    requires
        rough(v, e, w, i),
        i <= j,
    ensures
        rough(v, e, w, j),
{
    lemma_mul_inequality(i as int, j as int, w as int);
}

/// Sums of numbers that are nearly so.
pub proof fn lemma_rough_plus(
    x: Binary64,
    y: Binary64,
    e: int,
    g: int,
    a: nat,
    b: nat,
    i: nat,
)
    requires
        x.finite(),
        y.finite(),
        rough(val64(x), e, a, i),
        rough(val64(y), g, b, i),
        i <= 0x10_0000,
        a + b <= pow2(2080),
    ensures
        x.plus(y).finite(),
        rough(val64(x.plus(y)), e + g, a + b, i + 1),
{
    let (vx, vy) = (val64(x), val64(y));
    let w = a + b;
    assert(i * a + i * b == i * w) by (nonlinear_arith)
        requires
            w == a + b,
    ;
    assert(i * w <= 0x10_0000 * w) by (nonlinear_arith)
        requires
            i <= 0x10_0000,
    ;
    lemma_pow2_strictly_increases(2080, 2090);
    assert(far(vx + vy) <= 2 * w);
    assert(2 * pow2(2080) <= pow2(2090)) by {
        lemma_pow2_unfold(2081);
        lemma_pow2_strictly_increases(2081, 2090);
    }
    lemma_wide_sum(x, y);
    assert((i + 1) * w == i * w + w) by (nonlinear_arith);
}

/// Differences of numbers that are nearly so.
pub proof fn lemma_rough_minus(
    x: Binary64,
    y: Binary64,
    e: int,
    g: int,
    a: nat,
    b: nat,
    i: nat,
)
    requires
        x.finite(),
        y.finite(),
        rough(val64(x), e, a, i),
        rough(val64(y), g, b, i),
        i <= 0x10_0000,
        a + b <= pow2(2080),
    ensures
        x.minus(y).finite(),
        rough(val64(x.minus(y)), e - g, a + b, i + 1),
{
    lemma_wide_negated(y);
    lemma_rough_plus(x, y.negated(), e, -g, a, b, i);
}

/// A difference of exact numbers is off by little of itself.
pub proof fn lemma_rough_gap(x: Binary64, y: Binary64)
    requires
        x.finite(),
        y.finite(),
        far(val64(x) - val64(y)) <= pow2(2080),
    ensures
        x.minus(y).finite(),
        rough(val64(x.minus(y)), val64(x) - val64(y), far(val64(x) - val64(y)), 1),
{
    lemma_wide_negated(y);
    lemma_pow2_strictly_increases(2080, 2090);
    lemma_wide_sum(x, y.negated());
}

/// Products of numbers that are nearly so.
pub proof fn lemma_rough_times(
    x: Binary64,
    y: Binary64,
    e: int,
    g: int,
    a: nat,
    b: nat,
    i: nat,
    j: nat,
    p: int,
    w: nat,
)
    requires
        x.finite(),
        y.finite(),
        rough(val64(x), e, a, i),
        rough(val64(y), g, b, j),
        i <= 0x10_0000,
        j <= 0x10_0000,
        p * pow2(1074) == e * g,
        w * pow2(1074) == a * b,
        w == 0 || w >= pow2(49),
        w <= pow2(2080),
    ensures
        x.times(y).finite(),
        rough(val64(x.times(y)), p, w, 2 * i + j + 2),
{
    let u = pow2(1074);
    lemma_pow2_pos(1074);
    let (vx, vy) = (val64(x), val64(y));
    let (fx, fy, dx, dy) = (far(vx), far(vy), far(vx - e), far(vy - g));
    let h = 0x4_0000_0000_0000nat;
    let ab = a * b;
    assert(i * a <= 0x10_0000 * a) by (nonlinear_arith)
        requires
            i <= 0x10_0000,
    ;
    assert(j * b <= 0x10_0000 * b) by (nonlinear_arith)
        requires
            j <= 0x10_0000,
    ;
    assert(fx <= 2 * a && fy <= 2 * b);
    assert(fx * fy <= 4 * ab) by (nonlinear_arith)
        requires
            fx <= 2 * a,
            fy <= 2 * b,
            ab == a * b,
    ;
    assert(4 * ab <= pow2(2090) * u) by {
        lemma_pow2_unfold(2081);
        lemma_pow2_unfold(2082);
        lemma_pow2_strictly_increases(2082, 2090);
        lemma_mul_inequality(w as int, pow2(2080) as int, u as int);
        lemma_mul_inequality((4 * pow2(2080)) as int, pow2(2090) as int, u as int);
        let t = pow2(2080);
        assert((4 * t) * u == 4 * (t * u)) by (nonlinear_arith);
    }
    lemma_wide_product(x, y);
    // the exact product
    let v = val64(x.times(y));
    let (q, z) = (vx * vy, e * g);
    assert(q - z == (vx - e) * vy + e * (vy - g)) by (nonlinear_arith)
        requires
            q == vx * vy,
            z == e * g,
    ;
    lemma_far_product(vx - e, vy);
    lemma_far_product(e, vy - g);
    lemma_far_product(e, g);
    lemma_far_product(vx, vy);
    let fe = far(e);
    assert(far(q - z) <= dx * fy + fe * dy);
    assert(h * (dx * fy) <= (2 * i) * ab) by (nonlinear_arith)
        requires
            h * dx <= i * a,
            fy <= 2 * b,
            ab == a * b,
    ;
    assert(h * (fe * dy) <= j * ab) by (nonlinear_arith)
        requires
            h * dy <= j * b,
            fe <= a,
            ab == a * b,
    ;
    assert((2 * i) * ab + j * ab == (2 * i + j) * ab) by (nonlinear_arith);
    assert(h * far(q - z) <= (2 * i + j) * ab);
    // and the rounding
    let r = far(v * u - q);
    assert(0x20_0000_0000_0000 * r <= 4 * ab + 0x10_0000_0000_0000 * u);
    assert(p * u == z);
    let d = far(v - p);
    assert(v * u - z == (v - p) * u) by (nonlinear_arith)
        requires
            p * u == z,
    ;
    lemma_far_product(v - p, u as int);
    assert(d * u <= r + far(q - z));
    if w == 0 {
        assert(ab == 0) by (nonlinear_arith)
            requires
                w * u == ab,
                w == 0,
        ;
        assert((2 * i + j) * 0 == 0);
        assert(q == 0) by {
            assert(fx * fy == 0);
        }
        assert(v == 0) by {
            if v != 0 {
                lemma_far_product(v, u as int);
                assert(far(v) * u >= u) by (nonlinear_arith)
                    requires
                        far(v) >= 1,
                        u > 0,
                ;
                assert(r == far(v) * u);
            }
        }
        assert(p == 0) by {
            assert(fe * far(g) == 0) by (nonlinear_arith)
                requires
                    fe <= a,
                    far(g) <= b,
                    a * b == 0,
            ;
            lemma_far_product(p, u as int);
            assert(far(p) * u == 0);
            assert(far(p) == 0) by (nonlinear_arith)
                requires
                    far(p) * u == 0,
                    u > 0,
            ;
        }
        assert((2 * i + j + 2) * 0 == 0);
    } else {
        lemma2_to64_rest();
        lemma_mul_inequality(pow2(49) as int, w as int, u as int);
        assert(0x2_0000_0000_0000 * u <= ab);
        assert(h * r <= 2 * ab);
        let c = 2 * i + j + 2;
        assert(c * ab == (2 * i + j) * ab + 2 * ab) by (nonlinear_arith)
            requires
                c == 2 * i + j + 2,
        ;
        assert(h * (d * u) <= c * ab);
        assert(c * ab == (c * w) * u) by (nonlinear_arith)
            requires
                w * u == ab,
        ;
        assert(h * (d * u) == (h * d) * u) by (nonlinear_arith);
        if h * d > c * w {
            lemma_mul_strict_inequality((c * w) as int, (h * d) as int, u as int);
        }
        assert(far(p) <= w) by {
            lemma_far_product(p, u as int);
            assert(far(p) * u <= w * u) by (nonlinear_arith)
                requires
                    far(p) * u == fe * far(g),
                    fe <= a,
                    far(g) <= b,
                    w * u == a * b,
            ;
            if far(p) > w {
                lemma_mul_strict_inequality(w as int, far(p) as int, u as int);
            }
        }
    }
}

/// A number narrowed to single precision is off by one part in 2^23, or one
/// unit there.
pub proof fn lemma_rough_narrowed(x: Binary64, e: int, a: nat, i: nat)
    requires
        x.finite(),
        x.as_binary32().finite(),
        rough(val64(x), e, a, i),
        i <= 0x10_0000,
    ensures
        0x80_0000 * far(val(x.as_binary32()) * pow2(925) - e) <= a + 0x80_0000 * pow2(925),
{
    lemma_narrowed_error(x);
    assert(i * a <= 0x10_0000 * a) by (nonlinear_arith)
        requires
            i <= 0x10_0000,
    ;
}

/// The numbers of a list.
pub open spec fn vals64(t: Seq<Binary64>) -> Seq<int> {
    Seq::new(t.len(), |i: int| val64(t[i]))
}

/// The exact products of two lists.
pub open spec fn pairs64(a: Seq<Binary64>, b: Seq<Binary64>) -> Seq<int> {
    Seq::new(a.len(), |i: int| val64(a[i]) * val64(b[i]))
}

/// Whether `acc` are the running sums of the products of `a` and `b`, from
/// zero on; where a factor of `a` is zero nothing need be added.
pub open spec fn are_running64(acc: Seq<Binary64>, a: Seq<Binary64>, b: Seq<Binary64>) -> bool {
    &&& a.len() == b.len()
    &&& acc.len() == a.len() + 1
    &&& acc[0].finite()
    &&& val64(acc[0]) == 0
    &&& forall|k: int|
        0 <= k < a.len() ==> #[trigger] acc[k + 1] == acc[k].plus(a[k].times(b[k])) || (val64(a[k])
            == 0 && acc[k + 1] == acc[k])
}

/// Running sums of products, in exact numbers.
pub proof fn lemma_wide_running(acc: Seq<Binary64>, a: Seq<Binary64>, b: Seq<Binary64>, k: nat)
    requires
        are_running64(acc, a, b),
        k <= a.len() <= 0x10_0000,
        forall|i: int| 0 <= i < a.len() ==> (#[trigger] a[i]).finite() && b[i].finite(),
        weight(pairs64(a, b)) <= pow2(2070) * pow2(1074),
    ensures
        acc[k as int].finite(),
        weight(pairs64(a, b).take(k as int)) <= weight(pairs64(a, b)),
        0x20_0000_0000_0000 * far(
            val64(acc[k as int]) * pow2(1074) - total(pairs64(a, b).take(k as int)),
        ) <= (4 * k) * weight(pairs64(a, b).take(k as int)) + (k * 0x20_0000_0000_0000) * pow2(1074),
    decreases k,
{
    let u = pow2(1074);
    lemma_pow2_pos(1074);
    let p = pairs64(a, b);
    lemma_weight_grows(p, k as int);
    if k == 0 {
        assert(p.take(0) =~= Seq::empty());
        assert(0 * u == 0);
    } else {
        let h = (k - 1) as nat;
        lemma_wide_running(acc, a, b, h);
        let (x, y, z) = (acc[h as int], a[h as int], b[h as int]);
        assert(a[h as int].finite());
        assert(p.take(k as int).drop_last() =~= p.take(h as int));
        assert(p.take(k as int).last() == val64(y) * val64(z));
        let (w0, w1) = (weight(p.take(h as int)), weight(p.take(k as int)));
        let (t0, t1) = (total(p.take(h as int)), total(p.take(k as int)));
        let e = val64(y) * val64(z);
        lemma_far_product(val64(y), val64(z));
        lemma_total_within(p.take(h as int));
        lemma_total_within(p.take(k as int));
        let f = far(e);
        assert(f <= w1);
        lemma_pow2_strictly_increases(2070, 2090);
        lemma_mul_inequality(pow2(2070) as int, pow2(2090) as int, u as int);
        lemma_wide_product(y, z);
        let v = val64(y.times(z));
        lemma_both_terms(val64(x), v, e, t0, w0, w1, h, u);
        let fs = far(val64(x) + v);
        assert(fs <= pow2(2090)) by {
            lemma_room64(fs, w1, h);
        }
        lemma_wide_sum(x, y.times(z));
        if acc[h as int + 1] == x.plus(y.times(z)) {
            lemma_one_more_product(val64(x), v, val64(acc[k as int]), e, t0, w0, w1, h, u);
        } else {
            assert(e == 0) by {
                assert(0 * val64(z) == 0);
            }
            assert((4 * h) * w0 <= (4 * k) * w0) by (nonlinear_arith)
                requires
                    h <= k,
            ;
            assert((h * 0x20_0000_0000_0000) * u <= (k * 0x20_0000_0000_0000) * u)
                by (nonlinear_arith)
                requires
                    h <= k,
            ;
        }
    }
}

/// How large a running sum and another product are.
proof fn lemma_both_terms(x: int, v: int, e: int, t0: int, w0: nat, w1: nat, h: nat, u: nat)
    requires
        u > 0,
        h <= 0x10_0000,
        0x20_0000_0000_0000 * far(x * u - t0) <= (4 * h) * w0 + (h * 0x20_0000_0000_0000) * u,
        0x20_0000_0000_0000 * far(v * u - e) <= far(e) + 0x10_0000_0000_0000 * u,
        far(t0) <= w0,
        w1 == w0 + far(e),
    ensures
        far(x + v) * u <= 2 * w1 + (h + 1) * u,
{
    let s = x + v;
    assert(s * u == x * u + v * u) by (nonlinear_arith)
        requires
            s == x + v,
    ;
    lemma_far_product(s, u as int);
    assert((4 * h) * w0 <= 0x40_0000 * w0) by (nonlinear_arith)
        requires
            4 * h <= 0x40_0000,
    ;
    let hu = h * u;
    assert((h * 0x20_0000_0000_0000) * u == 0x20_0000_0000_0000 * hu) by (nonlinear_arith)
        requires
            hu == h * u,
    ;
    assert((h + 1) * u == hu + u) by (nonlinear_arith)
        requires
            hu == h * u,
    ;
}

/// That it fits.
proof fn lemma_room64(s: nat, w: nat, h: nat)
    requires
        s * pow2(1074) <= 2 * w + (h + 1) * pow2(1074),
        h < 0x10_0000,
        w <= pow2(2070) * pow2(1074),
    ensures
        s <= pow2(2090),
{
    let (u, t) = (pow2(1074), pow2(2070));
    lemma2_to64();
    lemma_pow2_pos(1074);
    lemma_pow2_unfold(2071);
    lemma_pow2_unfold(2072);
    lemma_pow2_strictly_increases(2072, 2090);
    lemma_pow2_strictly_increases(25, 2070);
    assert(2 * (t * u) + (h + 1) * u <= (4 * t) * u) by (nonlinear_arith)
        requires
            t >= h + 1,
    ;
    if s > 4 * t {
        lemma_mul_strict_inequality((4 * t) as int, s as int, u as int);
    }
}

/// What another product does to how far a running sum is off.
proof fn lemma_one_more_product(
    x: int,
    v: int,
    q: int,
    e: int,
    t0: int,
    w0: nat,
    w1: nat,
    h: nat,
    u: nat,
)
    requires
        u > 0,
        h <= 0x10_0000,
        0x20_0000_0000_0000 * far(x * u - t0) <= (4 * h) * w0 + (h * 0x20_0000_0000_0000) * u,
        0x20_0000_0000_0000 * far(v * u - e) <= far(e) + 0x10_0000_0000_0000 * u,
        0x20_0000_0000_0000 * far(q - (x + v)) <= far(x + v),
        far(t0) <= w0,
        w1 == w0 + far(e),
    ensures
        0x20_0000_0000_0000 * far(q * u - (t0 + e)) <= (4 * (h + 1)) * w1 + ((h + 1)
            * 0x20_0000_0000_0000) * u,
{
    lemma_both_terms(x, v, e, t0, w0, w1, h, u);
    let s = x + v;
    let d = q - s;
    assert(q * u - (t0 + e) == d * u + (x * u - t0) + (v * u - e)) by (nonlinear_arith)
        requires
            d == q - s,
            s == x + v,
    ;
    lemma_far_product(d, u as int);
    let (fd, fs) = (far(d), far(s));
    assert(0x20_0000_0000_0000 * (fd * u) <= fs * u) by (nonlinear_arith)
        requires
            0x20_0000_0000_0000 * fd <= fs,
    ;
    assert((4 * h) * w0 <= (4 * h) * w1) by (nonlinear_arith)
        requires
            w0 <= w1,
    ;
    assert((4 * (h + 1)) * w1 == (4 * h) * w1 + 4 * w1) by (nonlinear_arith);
    let (hu, c) = (h * u, h * 0x20_0000_0000_0000);
    assert(((h + 1) * 0x20_0000_0000_0000) * u == c * u + 0x20_0000_0000_0000 * u)
        by (nonlinear_arith)
        requires
            c == h * 0x20_0000_0000_0000,
    ;
    assert((h + 1) * u == hu + u) by (nonlinear_arith)
        requires
            hu == h * u,
    ;
    assert(hu <= 0x10_0000 * u) by (nonlinear_arith)
        requires
            h <= 0x10_0000,
            hu == h * u,
    ;
}

/// A quotient that is not too large is finite and off by one part in 2^53, or
/// half a unit.
pub proof fn lemma_wide_quotient(x: Binary64, y: Binary64)
    requires
        x.finite(),
        y.finite(),
        0 < val64(y),
        far(val64(x)) * pow2(1074) <= pow2(2090) * val64(y),
    ensures
        x.over(y).finite(),
        0x20_0000_0000_0000 * far(val64(x.over(y)) * val64(y) - val64(x) * pow2(1074)) <= far(
            val64(x),
        ) * pow2(1074) + 0x10_0000_0000_0000 * val64(y),
{
    let f = Format::Double;
    reveal(Binary64::finite);
    reveal(Binary64::over);
    lemma_sizes(f);
    lemma_units_zero(f);
    let top = lemma_power64(2090);
    let (a, b) = (x.bits as nat, y.bits as nat);
    lemma_unpack(f, a);
    lemma_unpack(f, b);
    let s = f.units(f.magnitude(a)) as int;
    let one = pow2(1074) as int;
    let (n, d) = ((s * one) as nat, val64(y) as nat);
    lemma_mul_nonnegative(s, one);
    assert(far(val64(x)) == s);
    lemma_round_at_most(f, n, d, top);
    lemma_pack(f, f.negative(a), f.round(n, d));
    let u = f.units(f.round(n, d));
    let w = val64(x.over(y));
    assert(w == if f.negative(a) { -(u as int) } else { u as int });
    assert(-(u as int) * d == -((u * d) as int)) by (nonlinear_arith);
    assert(-s * one == -(s * one)) by (nonlinear_arith);
    lemma_any_round64(n, d);
    let gap = u * d - n;
    assert(far(w * d - val64(x) * pow2(1074)) == far(gap));
}

/// Whether `out` is `base` and the products of `by` and `g`, added up and over
/// `t`, but for roundings.
pub open spec fn is_moved(
    out: Binary32,
    base: Binary32,
    by: Seq<Binary64>,
    g: Seq<Binary64>,
    t: int,
) -> bool {
    0x40_0000 * far(((val(out) - val(base)) * pow2(925)) * t - total(pairs64(by, g))) <= (far(
        val(base),
    ) * pow2(925)) * t + 2 * weight(pairs64(by, g)) + 0x100_0000 * (pow2(925) * t) + (0x100_0000
        * by.len()) * pow2(1074)
}

/// A number moved by running sums of products over a divisor.
pub proof fn lemma_moved(
    base: Binary32,
    by: Seq<Binary64>,
    g: Seq<Binary64>,
    acc: Seq<Binary64>,
    divisor: Binary64,
)
    requires
        base.finite(),
        are_running64(acc, by, g),
        by.len() <= 0x10_0000,
        forall|i: int| 0 <= i < by.len() ==> (#[trigger] by[i]).finite() && g[i].finite(),
        weight(pairs64(by, g)) <= pow2(2070) * pow2(1074),
        divisor.finite(),
        0 < val64(divisor),
        2 * weight(pairs64(by, g)) + (by.len() + 1) * pow2(1074) <= pow2(2080) * val64(divisor),
        base.as_binary64().plus(acc.last().over(divisor)).as_binary32().finite(),
    ensures
        is_moved(
            base.as_binary64().plus(acc.last().over(divisor)).as_binary32(),
            base,
            by,
            g,
            val64(divisor),
        ),
{
    let (u, k) = (pow2(1074), pow2(925));
    let t = val64(divisor) as nat;
    let n = by.len();
    let (w, e) = (weight(pairs64(by, g)), total(pairs64(by, g)));
    let x = acc.last();
    lemma_pow2_pos(1074);
    lemma_pow2_pos(925);
    lemma_wide_running(acc, by, g, n);
    assert(pairs64(by, g).take(n as int) =~= pairs64(by, g));
    assert(acc[n as int] == x);
    lemma_total_within(pairs64(by, g));
    lemma_quotient_room(val64(x), e, w, n, u, t);
    lemma_wide_quotient(x, divisor);
    let q = x.over(divisor);
    let vq = val64(q);
    lemma_wide(base);
    let b = val(base) * k;
    lemma_far_product(val(base), k as int);
    lemma_val(base);
    assert(far(b) <= pow2(1202)) by {
        lemma2_to64();
        lemma_pow2_adds(24, 253);
        lemma_pow2_adds(277, 925);
        lemma_pow2_pos(253);
        lemma_mul_inequality(far(val(base)) as int, pow2(277) as int, k as int);
    }
    lemma_quotient_size(vq, val64(x), e, w, n, u, t);
    assert(far(b + vq) <= pow2(2090)) by {
        lemma_pow2_strictly_increases(1202, 2082);
        lemma_pow2_unfold(2083);
        lemma_pow2_strictly_increases(2083, 2090);
    }
    lemma_wide_sum(base.as_binary64(), q);
    let z = base.as_binary64().plus(q);
    lemma_narrowed_error(z);
    let r = val(z.as_binary32());
    lemma_put_together(r * k, b, val64(z), vq, val64(x), e, w, n, u, t, k);
    assert(((r - val(base)) * k) * t == (r * k) * t - b * t) by (nonlinear_arith)
        requires
            b == val(base) * k,
    ;
}

/// A sum of products, as the numerator of a quotient.
proof fn lemma_quotient_room(x: int, e: int, w: nat, n: nat, u: nat, t: nat)
    requires
        n <= 0x10_0000,
        0x20_0000_0000_0000 * far(x * u - e) <= (4 * n) * w + (n * 0x20_0000_0000_0000) * u,
        far(e) <= w,
    ensures
        far(x) * u <= 2 * w + n * u,
        2 * w + (n + 1) * u <= pow2(2080) * t ==> far(x) * u <= pow2(2090) * t,
        far(x * u - e) <= w + n * u,
        0x80_0000 * far(x * u - e) <= w + 0x80_0000 * (n * u),
{
    let nu = n * u;
    assert((n * 0x20_0000_0000_0000) * u == 0x20_0000_0000_0000 * nu) by (nonlinear_arith)
        requires
            nu == n * u,
    ;
    assert((4 * n) * w <= 0x40_0000 * w) by (nonlinear_arith)
        requires
            4 * n <= 0x40_0000,
    ;
    lemma_far_product(x, u as int);
    assert((n + 1) * u == nu + u) by (nonlinear_arith)
        requires
            nu == n * u,
    ;
    lemma_pow2_strictly_increases(2080, 2090);
    lemma_mul_inequality(pow2(2080) as int, pow2(2090) as int, t as int);
}

/// How large the quotient is.
proof fn lemma_quotient_size(q: int, x: int, e: int, w: nat, n: nat, u: nat, t: nat)
    requires
        t > 0,
        far(x) * u <= 2 * w + n * u,
        2 * w + (n + 1) * u <= pow2(2080) * t,
        0x20_0000_0000_0000 * far(q * t - x * u) <= far(x) * u + 0x10_0000_0000_0000 * t,
    ensures
        far(q) * t <= 4 * w + 2 * (n * u) + t,
        far(q) <= pow2(2082),
{
    let nu = n * u;
    lemma_far_product(q, t as int);
    lemma_far_product(x, u as int);
    let fq = far(q);
    assert((n + 1) * u == nu + u) by (nonlinear_arith)
        requires
            nu == n * u,
    ;
    let p = pow2(2080);
    lemma_pow2_pos(2080);
    lemma_pow2_unfold(2081);
    lemma_pow2_unfold(2082);
    assert((4 * p) * t == 4 * (p * t)) by (nonlinear_arith);
    assert(t <= p * t) by (nonlinear_arith)
        requires
            p >= 1,
    ;
    if fq > 4 * p {
        lemma_mul_strict_inequality((4 * p) as int, fq as int, t as int);
    }
}

/// The roundings of a move, put together.
proof fn lemma_put_together(
    r: int,
    b: int,
    z: int,
    q: int,
    x: int,
    e: int,
    w: nat,
    n: nat,
    u: nat,
    t: nat,
    k: nat,
)
    requires
        k > 0,
        far(x) * u <= 2 * w + n * u,
        0x80_0000 * far(x * u - e) <= w + 0x80_0000 * (n * u),
        0x20_0000_0000_0000 * far(q * t - x * u) <= far(x) * u + 0x10_0000_0000_0000 * t,
        far(q) * t <= 4 * w + 2 * (n * u) + t,
        0x20_0000_0000_0000 * far(z - (b + q)) <= far(b + q),
        0x100_0000 * far(r - z) <= far(z) + 0x80_0000 * k,
    ensures
        0x40_0000 * far(r * t - b * t - e) <= far(b) * t + 2 * w + 0x100_0000 * (k * t) + (
        0x100_0000 * n) * u,
{
    let s = b + q;
    let nu = n * u;
    let (d1, d2, d3) = (r - z, z - s, q * t - e);
    assert(r * t - b * t - e == d1 * t + d2 * t + d3) by (nonlinear_arith)
        requires
            d1 == r - z,
            d2 == z - s,
            s == b + q,
            d3 == q * t - e,
    ;
    lemma_far_product(d1, t as int);
    lemma_far_product(d2, t as int);
    let (f1, f2, fs, fz, fb, fq) = (far(d1), far(d2), far(s), far(z), far(b), far(q));
    let (kt, bt, qt) = (k * t, fb * t, fq * t);
    let (st, t1, t2, zt) = (fs * t, f1 * t, f2 * t, fz * t);
    assert(st <= bt + qt) by (nonlinear_arith)
        requires
            fs <= fb + fq,
            bt == fb * t,
            qt == fq * t,
            st == fs * t,
    ;
    assert(0x20_0000_0000_0000 * t2 <= st) by (nonlinear_arith)
        requires
            0x20_0000_0000_0000 * f2 <= fs,
            t2 == f2 * t,
            st == fs * t,
    ;
    assert(zt <= st + t2) by (nonlinear_arith)
        requires
            fz <= fs + f2,
            zt == fz * t,
            st == fs * t,
            t2 == f2 * t,
    ;
    assert(0x100_0000 * t1 <= zt + 0x80_0000 * kt) by (nonlinear_arith)
        requires
            0x100_0000 * f1 <= fz + 0x80_0000 * k,
            kt == k * t,
            t1 == f1 * t,
            zt == fz * t,
    ;
    assert(t <= kt) by (nonlinear_arith)
        requires
            k >= 1,
            kt == k * t,
    ;
    let (g1, g2) = (far(q * t - x * u), far(x * u - e));
    assert(far(d3) <= g1 + g2);
    assert((0x100_0000 * n) * u == 0x100_0000 * nu) by (nonlinear_arith)
        requires
            nu == n * u,
    ;
    let fx = far(x) * u;
    assert(0x20_0000_0000_0000 * g1 <= 2 * w + nu + 0x10_0000_0000_0000 * t);
    let all = far(r * t - b * t - e);
    assert(all <= t1 + t2 + g1 + g2);
    assert(0x40_0000 * all <= bt + 2 * w + 0x100_0000 * kt + 0x100_0000 * nu);
}

/// A number narrowed to single precision is off by one part in 2^24, or half a
/// unit there.
proof fn lemma_narrowed_error(x: Binary64)
    requires
        x.finite(),
        x.as_binary32().finite(),
    ensures
        0x100_0000 * far(val(x.as_binary32()) * pow2(925) - val64(x)) <= far(val64(x)) + 0x80_0000
            * pow2(925),
{
    let (s, d) = (Format::Single, Format::Double);
    let y = x.as_binary32();
    let k = pow2(925);
    lemma_pow2_pos(925);
    reveal(Binary64::finite);
    reveal(Binary32::finite);
    reveal(Binary64::as_binary32);
    lemma_sizes(s);
    lemma_sizes(d);
    lemma_converted(d, s, x.bits as nat);
    let b = x.bits as nat;
    let m = d.units(d.magnitude(b));
    let u = pow2(149);
    lemma_pow2_pos(149);
    lemma_pow2_pos(1074);
    lemma_pow2_adds(149, 925);
    let r = s.round(m * u, pow2(1074));
    assert(r < s.inf());
    lemma_any_round(m * u, pow2(1074));
    let t = s.units(r);
    // (t k u - m u) * 2^24 <= m u + 2^23 k u
    let gap = t * k - m;
    assert(t * pow2(1074) - m * u == gap * u) by (nonlinear_arith)
        requires
            pow2(1074) == u * k,
            gap == t * k - m,
    ;
    assert(0x80_0000 * pow2(1074) == (0x80_0000 * k) * u) by (nonlinear_arith)
        requires
            pow2(1074) == u * k,
    ;
    let c = m + 0x80_0000 * k;
    assert(c * u == m * u + (0x80_0000 * k) * u) by (nonlinear_arith)
        requires
            c == m + 0x80_0000 * k,
    ;
    assert(0x100_0000 * gap <= c && 0x100_0000 * (-gap) <= c) by {
        assert(0x100_0000 * (gap * u) == (0x100_0000 * gap) * u) by (nonlinear_arith);
        assert(0x100_0000 * (-(gap * u)) == (0x100_0000 * (-gap)) * u) by (nonlinear_arith);
        if 0x100_0000 * gap > c {
            lemma_mul_strict_inequality(c as int, 0x100_0000 * gap, u as int);
        }
        if 0x100_0000 * (-gap) > c {
            lemma_mul_strict_inequality(c as int, 0x100_0000 * (-gap), u as int);
        }
    }
    assert(far(val(y) * k - val64(x)) == far(gap)) by {
        assert(-(t as int) * k == -((t * k) as int)) by (nonlinear_arith);
    }
    assert(far(val64(x)) == m);
}

} // verus!
