//! How far sums of signed numbers can drift from the exact ones.
//!
//! Where numbers of both signs are added, a rounding is small against the
//! sizes of the terms, not against their sum. All numbers here are whole
//! multiples of the unit of single precision, and products of two of them are
//! multiples of its square.
use vstd::prelude::*;
use vstd::arithmetic::power2::*;
use vstd::arithmetic::div_mod::*;
use vstd::arithmetic::mul::*;
use crate::float::binary32::Binary32;
use crate::float::format::{bit_len, nearest_even, Format};
use crate::float::ieee::{lemma_round_zero, lemma_units_zero};
use crate::float::laws::{lemma_pack, lemma_product_parts, lemma_round_at_most, lemma_round_band, lemma_sizes, lemma_unpack, sums_round_once};
use crate::float::magnitude::{lemma_hidden, lemma_units_monotone, lemma_units_strictly_monotone};
use crate::float::round::lemma_bit_len_bounds;
use crate::float::slip::{grain, lemma_grid_units, lemma_nearest_error, lemma_round_error, lemma_sizes32, size32};
use crate::linear::{dot32, empty_sum32, products32, sum32};

verus! {

/// The number itself, in units of 2^-149.
pub open spec fn val(x: Binary32) -> int {
    Format::Single.value(x.bits as nat)
}

/// How far a whole number lies from zero.
pub open spec fn far(z: int) -> nat {
    (if z < 0 {
        -z
    } else {
        z
    }) as nat
}

/// One, in units.
pub open spec fn unity() -> nat {
    pow2(149)
}

/// How many units the largest numbers have at most.
pub open spec fn ceiling() -> nat {
    0xff_ffff * pow2(253)
}

/// A number and its size.
pub proof fn lemma_val(x: Binary32)
    ensures
        far(val(x)) == size32(x),
        x.finite() && 0 <= x.rank() ==> val(x) == size32(x),
        x.finite() && x.rank() <= 0 ==> val(x) == -size32(x),
        x.finite() ==> size32(x) <= ceiling(),
{
    let f = Format::Single;
    reveal(Binary32::rank);
    reveal(Binary32::finite);
    lemma_sizes(f);
    lemma_units_zero(f);
    lemma_unpack(f, x.bits as nat);
    if x.finite() {
        let top = 0x7f7f_ffffnat;
        lemma_units_monotone(f, f.magnitude(x.bits as nat), top);
        lemma_top();
    }
}

/// How many units the largest number has.
pub proof fn lemma_top()
    ensures
        Format::Single.units(0x7f7f_ffff) == ceiling(),
{
    let f = Format::Single;
    reveal(Format::units);
    lemma_fundamental_div_mod_converse(0x7f7f_ffff, f.hidden() as int, 254, 0x7f_ffff);
}

/// A sum that does not pass the largest number is finite, and off by at most
/// one part in 2^24.
pub proof fn lemma_plus_drift(x: Binary32, y: Binary32)
    requires
        x.finite(),
        y.finite(),
        far(val(x) + val(y)) <= ceiling(),
    ensures
        x.plus(y).finite(),
        0x100_0000 * far(val(x.plus(y)) - (val(x) + val(y))) <= far(val(x) + val(y)),
{
    let f = Format::Single;
    reveal(Binary32::finite);
    reveal(Binary32::plus);
    lemma_sizes(f);
    lemma_units_zero(f);
    lemma_round_zero(f, 1);
    lemma_top();
    let (a, b) = (x.bits as nat, y.bits as nat);
    sums_round_once(f, a, b);
    let z = f.value(a) + f.value(b);
    let n = far(z);
    lemma_round_at_most(f, n, 1, 0x7f7f_ffff);
    lemma_pack(f, true, f.round(n, 1));
    lemma_pack(f, false, f.round(n, 1));
    lemma_pack(f, true, 0);
    lemma_pack(f, false, 0);
    lemma_round_error(f, n, 1);
    let u = f.units(f.round(n, 1));
    assert(u * 1 == u);
    assert(grain(f) == 0x100_0000);
    let w = val(x.plus(y));
    if z < 0 {
        assert(w == -u);
    } else if z > 0 {
        assert(w == u);
    } else {
        assert(w == 0);
    }
}

/// A product that does not pass the largest number is finite, and off by at
/// most one part in 2^24 or half a unit.
pub proof fn lemma_times_drift(x: Binary32, y: Binary32)
    requires
        x.finite(),
        y.finite(),
        size32(x) * size32(y) <= ceiling() * unity(),
    ensures
        x.times(y).finite(),
        0x100_0000 * far(val(x.times(y)) * unity() - val(x) * val(y)) <= size32(x) * size32(y)
            + 0x80_0000 * unity(),
        far(val(x) * val(y)) == size32(x) * size32(y),
{
    let f = Format::Single;
    reveal(Binary32::finite);
    reveal(Binary32::times);
    lemma_sizes(f);
    lemma_top();
    let (a, b) = (x.bits as nat, y.bits as nat);
    lemma_product_parts(f, a, b);
    let (n, d) = (size32(x) * size32(y), unity());
    lemma_pow2_pos(149);
    lemma_round_at_most(f, n, d, 0x7f7f_ffff);
    let m = f.round(n, d);
    let u = f.units(m);
    let p = f.product(a, b);
    assert(f.magnitude(p) == m);
    let (sx, sy) = (size32(x) as int, size32(y) as int);
    // signs
    let negative = f.negative(a) != f.negative(b);
    assert(val(x) * val(y) == if negative { -(n as int) } else { n as int }) by (nonlinear_arith)
        requires
            val(x) == (if f.negative(a) { -sx } else { sx }),
            val(y) == (if f.negative(b) { -sy } else { sy }),
            n == sx * sy,
            negative == (f.negative(a) != f.negative(b)),
    ;
    let w = val(x.times(y));
    assert(w == if negative { -(u as int) } else { u as int });
    assert(-(u as int) * d == -((u * d) as int)) by (nonlinear_arith);
    let gap = u * d - n;
    assert(0x100_0000 * gap <= n + 0x80_0000 * d && 0x100_0000 * (-gap) <= n + 0x80_0000 * d) by {
        lemma_any_round(n, d);
    }
    assert(far(w * d - val(x) * val(y)) == far(gap));
}

/// Rounding is off by at most one part in 2^24 or half a unit.
pub proof fn lemma_any_round(n: nat, d: nat)
    requires
        d > 0,
        Format::Single.round(n, d) < Format::Single.inf(),
    ensures
        0x100_0000 * (Format::Single.units(Format::Single.round(n, d)) * d - n) <= n + 0x80_0000 * d,
        0x100_0000 * (n - Format::Single.units(Format::Single.round(n, d)) * d) <= n + 0x80_0000 * d,
{
    let f = Format::Single;
    lemma_sizes(f);
    lemma_hidden(f);
    lemma2_to64();
    assert(grain(f) == 0x100_0000);
    if n / d >= grain(f) {
        lemma_round_error(f, n, d);
    } else {
        let q = n / d;
        lemma_bit_len_bounds(q);
        if bit_len(q) > 24 {
            if bit_len(q) > 25 {
                lemma_pow2_strictly_increases(24, (bit_len(q) - 1) as nat);
            }
        }
        assert(f.spacing(q) == 0);
        assert(d * pow2(0) == d) by (nonlinear_arith)
            requires
                pow2(0) == 1,
        ;
        let k = nearest_even(n, d);
        lemma_round_band(f, n, d);
        assert(f.round(n, d) == k) by {
            reveal(Format::round);
            assert(0 * f.hidden() == 0);
        }
        lemma_grid_units(f, 0, k);
        assert(0 * f.hidden() == 0);
        assert(k * 1 == k);
        lemma_nearest_error(n, d);
    }
}

/// A quotient that does not pass the largest number is finite, and off by at
/// most one part in 2^24 or half a unit.
pub proof fn lemma_over_drift(x: Binary32, y: Binary32)
    requires
        x.finite(),
        y.finite(),
        0 < y.rank(),
        size32(x) * unity() <= ceiling() * size32(y),
    ensures
        x.over(y).finite(),
        0x100_0000 * far(val(x.over(y)) * size32(y) - val(x) * unity()) <= size32(x) * unity()
            + 0x80_0000 * size32(y),
{
    let f = Format::Single;
    reveal(Binary32::finite);
    reveal(Binary32::rank);
    reveal(Binary32::over);
    lemma_sizes(f);
    lemma_top();
    lemma_units_zero(f);
    let (a, b) = (x.bits as nat, y.bits as nat);
    lemma_unpack(f, a);
    lemma_unpack(f, b);
    lemma_units_strictly_monotone(f, 0, f.magnitude(b));
    let (n, d) = (size32(x) * unity(), size32(y));
    lemma_round_at_most(f, n, d, 0x7f7f_ffff);
    lemma_pack(f, f.negative(a), f.round(n, d));
    let u = f.units(f.round(n, d));
    let w = val(x.over(y));
    assert(w == if f.negative(a) { -(u as int) } else { u as int });
    assert(-(u as int) * d == -((u * d) as int)) by (nonlinear_arith);
    let s = size32(x) as int;
    let one = unity() as int;
    assert(-s * one == -(s * one)) by (nonlinear_arith);
    lemma_any_round(n, d);
    let gap = u * d - n;
    assert(far(w * d - val(x) * unity()) == far(gap));
}

/// A difference of numbers that is not too large is finite, and off by at most
/// one part in 2^24.
pub proof fn lemma_minus_drift(x: Binary32, y: Binary32)
    requires
        x.finite(),
        y.finite(),
        far(val(x) - val(y)) <= ceiling(),
    ensures
        x.minus(y).finite(),
        0x100_0000 * far(val(x.minus(y)) - (val(x) - val(y))) <= far(val(x) - val(y)),
{
    let f = Format::Single;
    assert(y.negated().finite() && val(y.negated()) == -val(y)) by {
        reveal(Binary32::finite);
        reveal(Binary32::negated);
        lemma_sizes(f);
        lemma_units_zero(f);
        let b = y.bits as nat;
        lemma_unpack(f, b);
        lemma_pack(f, !f.negative(b), f.magnitude(b));
    }
    lemma_plus_drift(x, y.negated());
}

/// The exact sum of terms.
pub open spec fn total(t: Seq<int>) -> int
    decreases t.len(),
{
    if t.len() == 0 {
        0
    } else {
        total(t.drop_last()) + t.last()
    }
}

/// The sizes of the terms, added up.
pub open spec fn weight(t: Seq<int>) -> nat
    decreases t.len(),
{
    if t.len() == 0 {
        0
    } else {
        weight(t.drop_last()) + far(t.last())
    }
}

/// A sum is no farther from zero than its terms together.
pub proof fn lemma_total_within(t: Seq<int>)
    ensures
        far(total(t)) <= weight(t),
    decreases t.len(),
{
    if t.len() > 0 {
        lemma_total_within(t.drop_last());
    }
}

/// Whether `acc` are the running sums of `t`, from zero on.
pub open spec fn are_running(acc: Seq<Binary32>, t: Seq<Binary32>) -> bool {
    &&& acc.len() == t.len() + 1
    &&& acc[0].finite()
    &&& val(acc[0]) == 0
    &&& forall|k: int| 0 <= k < t.len() ==> #[trigger] acc[k + 1] == acc[k].plus(t[k])
}

/// The numbers of a list.
pub open spec fn vals(t: Seq<Binary32>) -> Seq<int> {
    Seq::new(t.len(), |i: int| val(t[i]))
}

/// Running sums are finite, and off by at most two parts in 2^24 for each term
/// of what the terms come to without their signs.
pub proof fn lemma_running_drift(acc: Seq<Binary32>, t: Seq<Binary32>, k: nat)
    requires
        are_running(acc, t),
        k <= t.len(),
        t.len() <= 0x80_0000,
        2 * weight(vals(t)) <= ceiling(),
        forall|i: int| 0 <= i < t.len() ==> (#[trigger] t[i]).finite(),
    ensures
        acc[k as int].finite(),
        0x100_0000 * far(val(acc[k as int]) - total(vals(t).take(k as int))) <= (2 * k) * weight(
            vals(t).take(k as int),
        ),
        weight(vals(t).take(k as int)) <= weight(vals(t)),
    decreases k,
{
    let v = vals(t);
    lemma_weight_grows(v, k as int);
    if k == 0 {
        assert(v.take(0) =~= Seq::empty());
        assert(0 * weight(v.take(0)) == 0);
    } else {
        let h = (k - 1) as nat;
        lemma_running_drift(acc, t, h);
        let (a, x) = (acc[h as int], t[h as int]);
        assert(acc[h as int + 1] == a.plus(x));
        assert(v.take(k as int).drop_last() =~= v.take(h as int));
        assert(v.take(k as int).last() == val(x));
        lemma_total_within(v.take(h as int));
        lemma_total_within(v.take(k as int));
        let (w, w2) = (weight(v.take(h as int)), weight(v.take(k as int)));
        let e = far(val(a) - total(v.take(h as int)));
        assert((2 * h) * w <= 0x100_0000 * w) by (nonlinear_arith)
            requires
                2 * h <= 0x100_0000,
        ;
        assert(e <= w);
        assert(far(val(a) + val(x)) <= 2 * w2);
        lemma_plus_drift(a, x);
        assert((2 * h) * w <= (2 * h) * w2) by (nonlinear_arith)
            requires
                w <= w2,
        ;
        assert((2 * k) * w2 == (2 * h) * w2 + 2 * w2) by (nonlinear_arith)
            requires
                k == h + 1,
        ;
    }
}

/// The first terms come to no more than all of them.
pub proof fn lemma_weight_grows(t: Seq<int>, k: int)
    requires
        0 <= k <= t.len(),
    ensures
        weight(t.take(k)) <= weight(t),
    decreases t.len(),
{
    if k == t.len() {
        assert(t.take(k) =~= t);
    } else {
        lemma_weight_grows(t.drop_last(), k);
        assert(t.drop_last().take(k) =~= t.take(k));
    }
}

/// The running sums of `sum32`.
spec fn running32(t: Seq<Binary32>) -> Seq<Binary32> {
    Seq::new(t.len() + 1, |k: int| sum32(t.take(k)))
}

/// A sum is finite, and off by at most two parts in 2^24 for each term of what
/// the terms come to without their signs.
pub proof fn lemma_sum_drift(t: Seq<Binary32>)
    requires
        t.len() <= 0x80_0000,
        2 * weight(vals(t)) <= ceiling(),
        forall|i: int| 0 <= i < t.len() ==> (#[trigger] t[i]).finite(),
    ensures
        sum32(t).finite(),
        0x100_0000 * far(val(sum32(t)) - total(vals(t))) <= (2 * t.len()) * weight(vals(t)),
{
    let acc = running32(t);
    assert(sum32(t.take(0)) == empty_sum32()) by {
        assert(t.take(0) =~= Seq::empty());
    }
    assert(empty_sum32().finite() && val(empty_sum32()) == 0) by {
        assert(Binary32::nothing().negated() == empty_sum32()) by {
            reveal(Binary32::negated);
            assert(0nat % 0x8000_0000nat == 0);
        }
        empty_sum32().zeros();
        lemma_val(empty_sum32());
        lemma_sizes32(empty_sum32(), empty_sum32());
    }
    assert forall|k: int| 0 <= k < t.len() implies #[trigger] acc[k + 1] == acc[k].plus(t[k]) by {
        assert(t.take(k + 1).drop_last() =~= t.take(k));
    }
    lemma_running_drift(acc, t, t.len());
    assert(t.take(t.len() as int) =~= t);
    assert(vals(t).take(t.len() as int) =~= vals(t));
}

/// The exact products of two lists.
pub open spec fn pairs(a: Seq<Binary32>, b: Seq<Binary32>) -> Seq<int> {
    Seq::new(a.len(), |i: int| val(a[i]) * val(b[i]))
}

/// What rounding each product does to what they come to.
proof fn lemma_products_drift(a: Seq<Binary32>, b: Seq<Binary32>, p: Seq<Binary32>)
    requires
        a.len() == b.len(),
        p.len() == a.len(),
        forall|i: int|
            0 <= i < a.len() ==> (#[trigger] a[i]).finite() && b[i].finite() && p[i] == a[i].times(
                b[i],
            ),
        weight(pairs(a, b)) <= ceiling() * unity(),
    ensures
        forall|i: int| 0 <= i < p.len() ==> (#[trigger] p[i]).finite(),
        0x100_0000 * far(total(vals(p)) * unity() - total(pairs(a, b))) <= weight(pairs(a, b))
            + a.len() * (0x80_0000 * unity()),
        weight(vals(p)) * unity() <= 2 * weight(pairs(a, b)) + a.len() * unity(),
    decreases a.len(),
{
    let u = unity();
    lemma_pow2_pos(149);
    if a.len() == 0 {
        assert(0 * u == 0 && 0 * (0x80_0000 * u) == 0);
    } else {
        let n = (a.len() - 1) as nat;
        let (a0, b0, p0) = (a.drop_last(), b.drop_last(), p.drop_last());
        assert(pairs(a, b).drop_last() =~= pairs(a0, b0));
        assert(vals(p).drop_last() =~= vals(p0));
        assert forall|i: int| 0 <= i < a0.len() implies (#[trigger] a0[i]).finite() && b0[i].finite()
            && p0[i] == a0[i].times(b0[i]) by {
            assert(a[i].finite());
        }
        lemma_products_drift(a0, b0, p0);
        let (x, y, z) = (a.last(), b.last(), p.last());
        assert(a[a.len() - 1].finite());
        lemma_val(x);
        lemma_val(y);
        lemma_val(z);
        let s = size32(x) * size32(y);
        assert(far(val(x) * val(y)) == s) by {
            lemma_far_product(val(x), val(y));
        }
        lemma_times_drift(x, y);
        assert forall|i: int| 0 <= i < p.len() implies (#[trigger] p[i]).finite() by {
            if i < p0.len() {
                assert(p0[i].finite());
            }
        }
        let (t0, e0) = (total(vals(p0)), total(pairs(a0, b0)));
        assert((t0 + val(z)) * u == t0 * u + val(z) * u) by (nonlinear_arith);
        let c = 0x80_0000 * u;
        assert((n + 1) * c == n * c + c) by (nonlinear_arith);
        let w0 = weight(vals(p0));
        assert((w0 + far(val(z))) * u == w0 * u + far(val(z)) * u) by (nonlinear_arith);
        assert((n + 1) * u == n * u + u) by (nonlinear_arith);
        assert(far(val(z) * u) == far(val(z)) * u) by {
            lemma_far_product(val(z), u as int);
        }
    }
}

pub proof fn lemma_far_product(x: int, y: int)
    ensures
        far(x * y) == far(x) * far(y),
{
    assert(far(x * y) == far(x) * far(y)) by {
        if x < 0 && y < 0 {
            assert(x * y == (-x) * (-y)) by (nonlinear_arith);
            assert((-x) * (-y) >= 0) by (nonlinear_arith)
                requires
                    x < 0,
                    y < 0,
            ;
        } else if x < 0 {
            assert(x * y == -((-x) * y)) by (nonlinear_arith);
            assert((-x) * y >= 0) by (nonlinear_arith)
                requires
                    x < 0,
                    y >= 0,
            ;
        } else if y < 0 {
            assert(x * y == -(x * (-y))) by (nonlinear_arith);
            assert(x * (-y) >= 0) by (nonlinear_arith)
                requires
                    x >= 0,
                    y < 0,
            ;
        } else {
            assert(x * y >= 0) by (nonlinear_arith)
                requires
                    x >= 0,
                    y >= 0,
            ;
        }
    }
}

/// How far the sum of `n` rounded products can drift, 2^24 times over, where
/// the exact products come to `w` without their signs.
pub open spec fn drift(n: nat, w: nat) -> nat {
    (4 * n + 1) * w + (0x100_0000 * n) * unity()
}

/// Products added up from zero on are finite, and off by no more than the
/// drift.
pub proof fn lemma_running_products(
    a: Seq<Binary32>,
    b: Seq<Binary32>,
    p: Seq<Binary32>,
    acc: Seq<Binary32>,
)
    requires
        a.len() == b.len(),
        p.len() == a.len(),
        a.len() <= 0x10_0000,
        forall|i: int|
            0 <= i < a.len() ==> (#[trigger] a[i]).finite() && b[i].finite() && p[i] == a[i].times(
                b[i],
            ),
        are_running(acc, p),
        weight(pairs(a, b)) <= pow2(400),
    ensures
        forall|k: int| 0 <= k < acc.len() ==> (#[trigger] acc[k]).finite(),
        0x100_0000 * far(val(acc.last()) * unity() - total(pairs(a, b))) <= drift(
            a.len(),
            weight(pairs(a, b)),
        ),
{
    let (u, n, w) = (unity(), a.len(), weight(pairs(a, b)));
    lemma_pow2_pos(149);
    lemma_room();
    lemma_products_drift(a, b, p);
    let wp = weight(vals(p));
    assert(2 * wp <= ceiling()) by {
        assert(wp * u <= 2 * pow2(400) + 0x10_0000 * u) by (nonlinear_arith)
            requires
                wp * u <= 2 * w + n * u,
                w <= pow2(400),
                n <= 0x10_0000,
                u > 0,
        ;
        assert(2 * (wp * u) <= ceiling() * u);
        assert((2 * wp) * u == 2 * (wp * u)) by (nonlinear_arith);
        if 2 * wp > ceiling() {
            lemma_mul_strict_inequality(ceiling() as int, (2 * wp) as int, u as int);
        }
    }
    assert forall|k: int| 0 <= k < acc.len() implies (#[trigger] acc[k]).finite() by {
        lemma_running_drift(acc, p, k as nat);
    }
    lemma_running_drift(acc, p, n);
    assert(vals(p).take(n as int) =~= vals(p));
    let (s, t, e) = (val(acc.last()), total(vals(p)), total(pairs(a, b)));
    // (s - t) u and t u - e
    let g = far(s - t);
    assert(far((s - t) * u) == g * u) by {
        lemma_far_product(s - t, u as int);
    }
    assert((s - t) * u == s * u - t * u) by (nonlinear_arith);
    assert(0x100_0000 * (g * u) <= (2 * n) * (wp * u)) by (nonlinear_arith)
        requires
            0x100_0000 * g <= (2 * n) * wp,
            u >= 0,
    ;
    assert((2 * n) * (wp * u) <= (2 * n) * (2 * w + n * u)) by (nonlinear_arith)
        requires
            wp * u <= 2 * w + n * u,
    ;
    assert((2 * n) * (2 * w + n * u) == (4 * n) * w + (2 * n * n) * u) by (nonlinear_arith);
    assert((2 * n * n) * u <= (0x80_0000 * n) * u) by (nonlinear_arith)
        requires
            2 * n <= 0x80_0000,
            u >= 0,
    ;
    assert(n * (0x80_0000 * u) == (0x80_0000 * n) * u) by (nonlinear_arith);
    assert((0x100_0000 * n) * u == (0x80_0000 * n) * u + (0x80_0000 * n) * u) by (nonlinear_arith);
    assert((4 * n + 1) * w == (4 * n) * w + w) by (nonlinear_arith);
    assert(far(s * u - e) <= far(s * u - t * u) + far(t * u - e));
}

proof fn lemma_room()
    ensures
        2 * (2 * pow2(400) + 0x10_0000 * unity()) <= ceiling() * unity(),
        pow2(400) <= ceiling() * unity(),
{
    lemma2_to64();
    lemma_pow2_adds(253, 149);
    lemma_pow2_adds(2, 400);
    lemma_pow2_strictly_increases(149, 402);
    assert(ceiling() * unity() == 0xff_ffff * pow2(402)) by (nonlinear_arith)
        requires
            ceiling() == 0xff_ffff * pow2(253),
            pow2(253) * unity() == pow2(402),
    ;
}

/// An inner product is finite and right, but for the drift.
pub proof fn lemma_dot_drift(a: Seq<Binary32>, b: Seq<Binary32>)
    requires
        a.len() == b.len(),
        a.len() <= 0x10_0000,
        forall|i: int| 0 <= i < a.len() ==> (#[trigger] a[i]).finite() && b[i].finite(),
        weight(pairs(a, b)) <= pow2(400),
    ensures
        dot32(a, b).finite(),
        0x100_0000 * far(val(dot32(a, b)) * unity() - total(pairs(a, b))) <= drift(
            a.len(),
            weight(pairs(a, b)),
        ),
{
    let p = products32(a, b);
    let acc = running32(p);
    assert(p.take(0) =~= Seq::empty());
    assert(empty_sum32().finite() && val(empty_sum32()) == 0) by {
        assert(Binary32::nothing().negated() == empty_sum32()) by {
            reveal(Binary32::negated);
            assert(0nat % 0x8000_0000nat == 0);
        }
        empty_sum32().zeros();
        lemma_val(empty_sum32());
        lemma_sizes32(empty_sum32(), empty_sum32());
    }
    assert forall|k: int| 0 <= k < p.len() implies #[trigger] acc[k + 1] == acc[k].plus(p[k]) by {
        assert(p.take(k + 1).drop_last() =~= p.take(k));
    }
    lemma_running_products(a, b, p, acc);
    assert(p.take(p.len() as int) =~= p);
    assert(acc.last() == dot32(a, b));
}

} // verus!
