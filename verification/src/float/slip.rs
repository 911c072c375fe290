//! How far roundings can lead astray.
//!
//! Every rounding changes a number by at most one part in two to the
//! precision of its format. `nearly` compares two sizes but for so many
//! roundings, and says how such comparisons add, multiply and chain.
use vstd::prelude::*;
use vstd::arithmetic::power2::*;
use vstd::arithmetic::div_mod::*;
use vstd::arithmetic::mul::*;
use crate::float::binary32::Binary32;
use crate::float::binary64::Binary64;
use crate::float::format::{bit_len, nearest_even, Format};
use crate::float::ieee::{lemma_root_bounded, lemma_round_zero, lemma_units_zero};
use crate::float::laws::{lemma_converted, lemma_one, lemma_pack, lemma_product_parts, lemma_round_at_least, lemma_round_at_most, lemma_round_band, lemma_round_limit, lemma_sizes, lemma_unpack, one_magnitude, sums_round_once};
use crate::float::magnitude::{isqrt, lemma_hidden, lemma_isqrt, lemma_units_monotone, lemma_units_strictly_monotone};
use crate::float::round::lemma_bit_len_bounds;
use crate::float::scale::{lemma_rounds_up_to, size};

verus! {

/// Two to the precision: one rounding is off by at most one part in that many.
pub open spec fn grain(f: Format) -> nat {
    2 * f.hidden()
}

/// `b` times itself, `k` times.
pub open spec fn power(b: nat, k: nat) -> nat
    decreases k,
{
    if k == 0 {
        1
    } else {
        b * power(b, (k - 1) as nat)
    }
}

/// Whether `a` is at most `b`, but for `k` roundings: at most `b` times the
/// `k`-th power of one and one part in the grain.
#[verifier::opaque]
pub open spec fn nearly(f: Format, a: nat, b: nat, k: nat) -> bool {
    a * power(grain(f), k) <= b * power(grain(f) + 1, k)
}

proof fn lemma_power_adds(b: nat, j: nat, k: nat)
    ensures
        power(b, j + k) == power(b, j) * power(b, k),
    decreases j,
{
    if j > 0 {
        let i = (j - 1) as nat;
        lemma_power_adds(b, i, k);
        let (x, y) = (power(b, i), power(b, k));
        assert(power(b, j + k) == b * power(b, i + k));
        assert(b * (x * y) == (b * x) * y) by (nonlinear_arith);
    } else {
        let y = power(b, k);
        assert(1 * y == y);
    }
}

proof fn lemma_power_bounds(f: Format, k: nat)
    ensures
        0 < power(grain(f), k) <= power(grain(f) + 1, k),
    decreases k,
{
    if k > 0 {
        let i = (k - 1) as nat;
        lemma_power_bounds(f, i);
        let (p, x, y) = (grain(f), power(grain(f), i), power(grain(f) + 1, i));
        assert(p > 0);
        lemma_mul_upper_bound(p as int, (p + 1) as int, x as int, y as int);
        lemma_mul_strictly_positive(p as int, x as int);
    }
}

/// What is at most is nearly so.
pub proof fn lemma_nearly_at_most(f: Format, a: nat, b: nat, k: nat)
    requires
        a <= b,
    ensures
        nearly(f, a, b, k),
{
    reveal(nearly);
    lemma_power_bounds(f, k);
    lemma_mul_upper_bound(
        a as int,
        b as int,
        power(grain(f), k) as int,
        power(grain(f) + 1, k) as int,
    );
}

/// More roundings may be allowed for.
pub proof fn lemma_nearly_more(f: Format, a: nat, b: nat, k: nat, l: nat)
    requires
        nearly(f, a, b, k),
        k <= l,
    ensures
        nearly(f, a, b, l),
{
    lemma_nearly_at_most(f, b, b, (l - k) as nat);
    lemma_nearly_chain(f, a, b, b, k, (l - k) as nat);
}

/// Comparisons chain.
pub proof fn lemma_nearly_chain(f: Format, a: nat, b: nat, c: nat, k: nat, l: nat)
    requires
        nearly(f, a, b, k),
        nearly(f, b, c, l),
    ensures
        nearly(f, a, c, k + l),
{
    reveal(nearly);
    let (p, q) = (grain(f), grain(f) + 1);
    lemma_power_adds(p, k, l);
    lemma_power_adds(q, k, l);
    lemma_power_bounds(f, k);
    lemma_power_bounds(f, l);
    let (pk, pl, qk, ql) = (power(p, k), power(p, l), power(q, k), power(q, l));
    lemma_mul_inequality((a * pk) as int, (b * qk) as int, pl as int);
    lemma_mul_inequality((b * pl) as int, (c * ql) as int, qk as int);
    assert(a * (pk * pl) == (a * pk) * pl) by (nonlinear_arith);
    assert((b * qk) * pl == (b * pl) * qk) by (nonlinear_arith);
    assert((c * ql) * qk == c * (qk * ql)) by (nonlinear_arith);
}

/// Comparisons multiply.
pub proof fn lemma_nearly_product(
    f: Format,
    a: nat,
    b: nat,
    c: nat,
    d: nat,
    k: nat,
    l: nat,
)
    requires
        nearly(f, a, b, k),
        nearly(f, c, d, l),
    ensures
        nearly(f, a * c, b * d, k + l),
{
    reveal(nearly);
    let (p, q) = (grain(f), grain(f) + 1);
    lemma_power_adds(p, k, l);
    lemma_power_adds(q, k, l);
    let (pk, pl, qk, ql) = (power(p, k), power(p, l), power(q, k), power(q, l));
    lemma_mul_upper_bound(
        (a * pk) as int,
        (b * qk) as int,
        (c * pl) as int,
        (d * ql) as int,
    );
    assert((a * c) * (pk * pl) == (a * pk) * (c * pl)) by (nonlinear_arith);
    assert((b * d) * (qk * ql) == (b * qk) * (d * ql)) by (nonlinear_arith);
}

/// Both sides may be multiplied by the same number.
pub proof fn lemma_nearly_scaled(f: Format, a: nat, b: nat, c: nat, k: nat)
    requires
        nearly(f, a, b, k),
    ensures
        nearly(f, a * c, b * c, k),
        nearly(f, c * a, c * b, k),
{
    lemma_nearly_at_most(f, c, c, 0);
    lemma_nearly_product(f, a, b, c, c, k, 0);
    lemma_mul_is_commutative(a as int, c as int);
    lemma_mul_is_commutative(b as int, c as int);
}

/// A common factor may be left out.
pub proof fn lemma_nearly_cancelled(f: Format, a: nat, b: nat, c: nat, k: nat)
    requires
        c > 0,
        nearly(f, a * c, b * c, k),
    ensures
        nearly(f, a, b, k),
{
    reveal(nearly);
    let (pk, qk) = (power(grain(f), k), power(grain(f) + 1, k));
    assert((a * c) * pk == (a * pk) * c) by (nonlinear_arith);
    assert((b * c) * qk == (b * qk) * c) by (nonlinear_arith);
    if a * pk > b * qk {
        lemma_mul_strict_inequality((b * qk) as int, (a * pk) as int, c as int);
    }
}

/// Comparisons add up.
pub proof fn lemma_nearly_sum(f: Format, a: nat, b: nat, c: nat, d: nat, k: nat)
    requires
        nearly(f, a, b, k),
        nearly(f, c, d, k),
    ensures
        nearly(f, a + c, b + d, k),
{
    reveal(nearly);
    let (pk, qk) = (power(grain(f), k), power(grain(f) + 1, k));
    assert((a + c) * pk == a * pk + c * pk) by (nonlinear_arith);
    assert((b + d) * qk == b * qk + d * qk) by (nonlinear_arith);
}

/// What is nearly at most zero is zero.
pub proof fn lemma_nearly_zero(f: Format, a: nat, k: nat)
    requires
        nearly(f, a, 0, k),
    ensures
        a == 0,
{
    reveal(nearly);
    lemma_power_bounds(f, k);
    assert(0 * power(grain(f) + 1, k) == 0);
    if a > 0 {
        lemma_mul_strictly_positive(a as int, power(grain(f), k) as int);
    }
}

pub proof fn lemma_nearest_error(n: nat, w: nat)
    requires
        w > 0,
    ensures
        2 * (nearest_even(n, w) * w - n) <= w,
        2 * (n - nearest_even(n, w) * w) <= w,
{
    lemma_fundamental_div_mod(n as int, w as int);
    let (k, r) = (n / w, n % w);
    assert(k * w == w * k) by (nonlinear_arith);
    assert((k + 1) * w == w * k + w) by (nonlinear_arith);
}

/// How many units the magnitude with significand `c` and spacing `j` is.
pub proof fn lemma_grid_units(f: Format, j: nat, c: nat)
    requires
        c <= 2 * f.hidden(),
        j > 0 ==> f.hidden() <= c,
    ensures
        f.units(j * f.hidden() + c) == c * pow2(j),
{
    let h = f.hidden();
    lemma2_to64();
    reveal(Format::units);
    let mag = j * h + c;
    if c < h {
        lemma_fundamental_div_mod_converse(mag as int, h as int, 0, c as int);
        assert(0 * h == 0);
        assert(c * 1 == c);
    } else if c < 2 * h {
        assert(mag == (j + 1) * h + (c - h)) by (nonlinear_arith)
            requires
                mag == j * h + c,
        ;
        lemma_fundamental_div_mod_converse(mag as int, h as int, (j + 1) as int, c - h);
    } else {
        assert(mag == (j + 2) * h) by (nonlinear_arith)
            requires
                mag == j * h + c,
                c == 2 * h,
        ;
        lemma_fundamental_div_mod_converse(mag as int, h as int, (j + 2) as int, 0);
        lemma_pow2_unfold(j + 1);
        assert(h * pow2(j + 1) == (2 * h) * pow2(j)) by (nonlinear_arith)
            requires
                pow2(j + 1) == 2 * pow2(j),
        ;
    }
}

/// A fraction that is not too small is rounded by at most one part in the
/// grain.
pub proof fn lemma_round_error(f: Format, n: nat, d: nat)
    requires
        d > 0,
        n / d >= grain(f) || d == 1,
        f.round(n, d) < f.inf(),
    ensures
        grain(f) * (f.units(f.round(n, d)) * d - n) <= n,
        grain(f) * (n - f.units(f.round(n, d)) * d) <= n,
{
    let h = f.hidden();
    let pr = f.precision();
    lemma_sizes(f);
    lemma_hidden(f);
    lemma2_to64();
    let q = n / d;
    let j = f.spacing(q);
    lemma_pow2_pos(j);
    let w = d * pow2(j);
    lemma_mul_strictly_positive(d as int, pow2(j) as int);
    let c = nearest_even(n, w);
    lemma_round_band(f, n, d);
    assert(f.round(n, d) == j * h + c) by {
        reveal(Format::round);
    }
    lemma_grid_units(f, j, c);
    let u = c * pow2(j);
    lemma_nearest_error(n, w);
    assert(u * d == c * w) by (nonlinear_arith)
        requires
            u == c * pow2(j),
            w == d * pow2(j),
    ;
    lemma_bit_len_bounds(q);
    lemma_fundamental_div_mod(n as int, d as int);
    if bit_len(q) >= pr {
        lemma_pow2_adds((pr - 1) as nat, j);
        assert(q >= h * pow2(j));
        assert(n >= h * w) by (nonlinear_arith)
            requires
                n >= d * q,
                q >= h * pow2(j),
                w == d * pow2(j),
                d > 0,
        ;
        let e = u * d - n;
        let g = grain(f);
        assert(g * e <= n && g * (-e) <= n) by (nonlinear_arith)
            requires
                2 * e <= w,
                -2 * e <= w,
                n >= h * w,
                g == 2 * h,
                h > 0,
        ;
    } else {
        if q >= grain(f) {
            lemma_pow2_unfold(pr);
            lemma_pow2_strictly_increases(bit_len(q), pr);
        }
        assert(d == 1 && q == n);
        assert(j == 0 && w == 1);
        assert(n / 1 == n && n % 1 == 0);
        assert(u == n);
        assert(n * 1 == n);
        assert(grain(f) * 0 == 0);
    }
}

/// The same as a comparison.
pub proof fn lemma_round_slip(f: Format, n: nat, d: nat)
    requires
        d > 0,
        n / d >= grain(f) || d == 1,
        f.round(n, d) < f.inf(),
    ensures
        nearly(f, f.units(f.round(n, d)) * d, n, 1),
        nearly(f, n, f.units(f.round(n, d)) * d, 2),
{
    lemma_round_error(f, n, d);
    reveal(nearly);
    let (p, t) = (grain(f), f.units(f.round(n, d)) * d);
    let q = p + 1;
    reveal_with_fuel(power, 3);
    assert(p * 1 == p && q * 1 == q);
    assert(p * (t - n) == p * t - p * n && p * (n - t) == p * n - p * t) by (nonlinear_arith);
    assert(t * p == p * t && n * q == p * n + n) by (nonlinear_arith)
        requires
            q == p + 1,
    ;
    // n p^2 <= t q^2
    let m = p - 1;
    assert(m * n <= p * t) by (nonlinear_arith)
        requires
            p * n - p * t <= n,
            m == p - 1,
    ;
    assert(p * p >= p + 1) by (nonlinear_arith)
        requires
            p >= 2,
    ;
    assert(p * (p * p) <= m * (q * q)) by (nonlinear_arith)
        requires
            m == p - 1,
            q == p + 1,
            p * p >= p + 1,
    ;
    let (pp, qq) = (p * p, q * q);
    lemma_mul_inequality(m * n, (p * t) as int, pp as int);
    lemma_mul_inequality((p * pp) as int, m * qq, t as int);
    assert((p * t) * pp == (p * pp) * t) by (nonlinear_arith);
    assert((m * n) * pp == (n * pp) * m) by (nonlinear_arith);
    assert((m * qq) * t == (t * qq) * m) by (nonlinear_arith);
    if n * pp > t * qq {
        lemma_mul_strict_inequality((t * qq) as int, (n * pp) as int, m);
    }
}

/// How far a bit pattern lies from zero, in units.
pub open spec fn extent(f: Format, a: nat) -> nat {
    f.units(f.magnitude(a))
}

/// How far the exact sum of two numbers lies from zero, in units.
pub open spec fn exact_sum(f: Format, a: nat, b: nat) -> nat {
    let z = f.value(a) + f.value(b);
    (if z < 0 {
        -z
    } else {
        z
    }) as nat
}

/// A finite sum is off by one rounding.
pub proof fn lemma_sum_slip(f: Format, a: nat, b: nat)
    requires
        f.is_finite(a),
        f.is_finite(b),
        f.is_finite(f.sum(a, b)),
    ensures
        nearly(f, extent(f, f.sum(a, b)), exact_sum(f, a, b), 1),
        nearly(f, exact_sum(f, a, b), extent(f, f.sum(a, b)), 2),
        exact_sum(f, a, b) <= extent(f, a) + extent(f, b),
{
    lemma_sizes(f);
    let z = f.value(a) + f.value(b);
    let n = exact_sum(f, a, b);
    lemma_units_zero(f);
    lemma_round_zero(f, 1);
    lemma_round_limit(f, n, 1);
    lemma_pack(f, true, f.round(n, 1));
    lemma_pack(f, false, f.round(n, 1));
    lemma_pack(f, true, 0);
    lemma_pack(f, false, 0);
    lemma_round_slip(f, n, 1);
}

/// A finite product is off by one rounding, where it is zero or not too small.
pub proof fn lemma_product_slip(f: Format, a: nat, b: nat)
    requires
        f.is_finite(a),
        f.is_finite(b),
        f.is_finite(f.product(a, b)),
        extent(f, a) == 0 || extent(f, b) == 0 || extent(f, a) * extent(f, b) >= grain(f) * pow2(
            f.one_exp(),
        ),
    ensures
        nearly(
            f,
            extent(f, f.product(a, b)) * pow2(f.one_exp()),
            extent(f, a) * extent(f, b),
            1,
        ),
        nearly(
            f,
            extent(f, a) * extent(f, b),
            extent(f, f.product(a, b)) * pow2(f.one_exp()),
            2,
        ),
{
    lemma_sizes(f);
    lemma_product_parts(f, a, b);
    let (x, y) = (extent(f, a), extent(f, b));
    let (n, d) = (x * y, pow2(f.one_exp()));
    lemma_pow2_pos(f.one_exp());
    if x == 0 || y == 0 {
        assert(n == 0) by (nonlinear_arith)
            requires
                n == x * y,
                x == 0 || y == 0,
        ;
        lemma_round_zero(f, d);
        lemma_units_zero(f);
        assert(0 * d == 0);
        lemma_nearly_at_most(f, 0, 0, 1);
        lemma_nearly_at_most(f, 0, 0, 2);
    } else {
        lemma_div_is_ordered((grain(f) * d) as int, n as int, d as int);
        lemma_div_by_multiple(grain(f) as int, d as int);
        lemma_round_slip(f, n, d);
    }
}

/// A finite quotient is off by one rounding, where it is zero or not too
/// small.
pub proof fn lemma_quotient_slip(f: Format, a: nat, b: nat)
    requires
        f.is_finite(a),
        f.is_finite(b),
        extent(f, b) > 0,
        f.is_finite(f.quotient(a, b)),
        extent(f, a) == 0 || extent(f, a) * pow2(f.one_exp()) >= grain(f) * extent(f, b),
    ensures
        nearly(
            f,
            extent(f, f.quotient(a, b)) * extent(f, b),
            extent(f, a) * pow2(f.one_exp()),
            1,
        ),
        nearly(
            f,
            extent(f, a) * pow2(f.one_exp()),
            extent(f, f.quotient(a, b)) * extent(f, b),
            2,
        ),
{
    lemma_sizes(f);
    lemma_units_zero(f);
    let (x, d) = (extent(f, a), extent(f, b));
    let n = x * pow2(f.one_exp());
    lemma_round_limit(f, n, d);
    lemma_pack(f, f.negative(a) != f.negative(b), f.round(n, d));
    if x == 0 {
        assert(n == 0) by (nonlinear_arith)
            requires
                n == x * pow2(f.one_exp()),
                x == 0,
        ;
        lemma_round_zero(f, d);
        assert(0 * d == 0);
        lemma_nearly_at_most(f, 0, 0, 1);
        lemma_nearly_at_most(f, 0, 0, 2);
    } else {
        lemma_div_is_ordered((grain(f) * d) as int, n as int, d as int);
        lemma_div_by_multiple(grain(f) as int, d as int);
        lemma_round_slip(f, n, d);
    }
}

/// A quotient of finite numbers fits its format.
proof fn lemma_quotient_sized(f: Format, a: nat, b: nat)
    requires
        f.is_finite(a),
        f.is_finite(b),
        extent(f, b) > 0,
    ensures
        f.well_sized(f.quotient(a, b)),
{
    lemma_sizes(f);
    lemma_units_zero(f);
    let (n, d) = (extent(f, a) * pow2(f.one_exp()), extent(f, b));
    lemma_round_limit(f, n, d);
    lemma_pack(f, f.negative(a) != f.negative(b), f.round(n, d));
}

/// How far a single-precision number lies from zero, in units.
pub open spec fn size32(x: Binary32) -> nat {
    extent(Format::Single, x.bits as nat)
}

/// How far the exact sum of two numbers lies from zero, in units.
pub open spec fn sum_size(x: Binary64, y: Binary64) -> nat {
    exact_sum(Format::Double, x.bits as nat, y.bits as nat)
}

/// A finite sum is off by one rounding.
pub proof fn lemma_plus_slip(x: Binary64, y: Binary64)
    requires
        x.finite(),
        y.finite(),
        x.plus(y).finite(),
    ensures
        nearly(Format::Double, size(x.plus(y)), sum_size(x, y), 1),
        nearly(Format::Double, sum_size(x, y), size(x.plus(y)), 2),
        sum_size(x, y) <= size(x) + size(y),
        0 <= x.rank() && 0 <= y.rank() ==> sum_size(x, y) == size(x) + size(y),
{
    let f = Format::Double;
    reveal(Binary64::finite);
    reveal(Binary64::plus);
    reveal(Binary64::rank);
    lemma_sizes(f);
    lemma_units_zero(f);
    sums_round_once(f, x.bits as nat, y.bits as nat);
    lemma_sum_slip(f, x.bits as nat, y.bits as nat);
}

/// A finite product is off by one rounding, where it is zero or not too small.
pub proof fn lemma_times_slip(x: Binary64, y: Binary64)
    requires
        x.finite(),
        y.finite(),
        x.times(y).finite(),
        size(x) == 0 || size(y) == 0 || size(x) * size(y) >= pow2(1127),
    ensures
        nearly(Format::Double, size(x.times(y)) * pow2(1074), size(x) * size(y), 1),
        nearly(Format::Double, size(x) * size(y), size(x.times(y)) * pow2(1074), 2),
{
    let f = Format::Double;
    reveal(Binary64::finite);
    reveal(Binary64::times);
    lemma_sizes(f);
    lemma_pow2_adds(53, 1074);
    lemma2_to64_rest();
    lemma_product_parts(f, x.bits as nat, y.bits as nat);
    lemma_product_slip(f, x.bits as nat, y.bits as nat);
}

/// A finite quotient is off by one rounding, where it is zero or not too
/// small.
pub proof fn lemma_over_slip(x: Binary64, y: Binary64)
    requires
        x.finite(),
        y.finite(),
        size(y) > 0,
        x.over(y).finite(),
        size(x) == 0 || size(x) * pow2(1074) >= pow2(53) * size(y),
    ensures
        nearly(Format::Double, size(x.over(y)) * size(y), size(x) * pow2(1074), 1),
        nearly(Format::Double, size(x) * pow2(1074), size(x.over(y)) * size(y), 2),
{
    let f = Format::Double;
    reveal(Binary64::finite);
    reveal(Binary64::over);
    lemma_sizes(f);
    lemma2_to64_rest();
    lemma_quotient_sized(f, x.bits as nat, y.bits as nat);
    lemma_quotient_slip(f, x.bits as nat, y.bits as nat);
}

/// The square of a root falls short of the number by a few roundings.
proof fn lemma_root_slip(f: Format, a: nat)
    requires
        f.is_finite(a),
        !f.negative(a),
        f.well_sized(a),
        f.magnitude(a) > 0,
        f.is_finite(f.root(a)),
    ensures
        nearly(
            f,
            extent(f, a) * pow2(f.one_exp()),
            extent(f, f.root(a)) * extent(f, f.root(a)),
            5,
        ),
        nearly(
            f,
            extent(f, f.root(a)) * extent(f, f.root(a)),
            extent(f, a) * pow2(f.one_exp()),
            3,
        ),
{
    lemma_sizes(f);
    lemma2_to64();
    lemma2_to64_rest();
    lemma_unpack(f, a);
    lemma_units_zero(f);
    lemma_units_strictly_monotone(f, 0, a);
    let one = pow2(f.one_exp());
    let n = f.units(a) * one;
    let y = isqrt(n);
    lemma_isqrt(n);
    lemma_pow2_pos(f.one_exp());
    // the root has at least as many digits as the format keeps
    let g = grain(f);
    assert(g * g <= one) by {
        lemma_pow2_adds(24, 24);
        lemma_pow2_adds(53, 53);
        lemma_pow2_strictly_increases(48, 149);
        lemma_pow2_strictly_increases(106, 1074);
    }
    assert(one <= n) by (nonlinear_arith)
        requires
            n == f.units(a) * one,
            f.units(a) >= 1,
    ;
    assert(y >= g) by (nonlinear_arith)
        requires
            n < (y + 1) * (y + 1),
            n >= g * g,
    ;
    let s: nat = if y * y == n { 0 } else { 1 };
    let p = 2 * y + s;
    assert(p / 2 == y);
    lemma_root_bounded(f, f.units(a));
    lemma_small_mod(f.round_sqrt(f.units(a)), f.sign_weight());
    let r = extent(f, f.root(a));
    assert(r == f.units(f.round(p, 2)));
    lemma_round_slip(f, p, 2);
    lemma_nearly_product(f, p, r * 2, p, r * 2, 2, 2);
    assert((r * 2) * (r * 2) == (r * r) * 4) by (nonlinear_arith);
    assert(nearly(f, n * 4, p * p, 1)) by {
        reveal(nearly);
        reveal_with_fuel(power, 2);
        assert(g * 1 == g && (g + 1) * 1 == g + 1);
        if s == 0 {
            assert((n * 4) * g <= (p * p) * (g + 1)) by (nonlinear_arith)
                requires
                    p == 2 * y,
                    n == y * y,
            ;
        } else {
            assert(n <= y * y + 2 * y) by (nonlinear_arith)
                requires
                    n < (y + 1) * (y + 1),
            ;
            let yy = y * y;
            let yg = y * g;
            assert(yg <= yy) by (nonlinear_arith)
                requires
                    g <= y,
                    yg == y * g,
                    yy == y * y,
            ;
            assert(p * p == 4 * yy + 4 * y + 1) by (nonlinear_arith)
                requires
                    p == 2 * y + 1,
                    yy == y * y,
            ;
            assert((n * 4) * g <= (4 * yy + 8 * y) * g) by (nonlinear_arith)
                requires
                    n <= yy + 2 * y,
            ;
            assert((4 * yy + 8 * y) * g == (4 * yy) * g + 8 * yg) by (nonlinear_arith)
                requires
                    yg == y * g,
            ;
            assert((4 * yy + 4 * y + 1) * (g + 1) == (4 * yy) * g + 4 * yg + g + 4 * yy + 4 * y
                + 1) by (nonlinear_arith)
                requires
                    yg == y * g,
            ;
        }
    }
    lemma_nearly_chain(f, n * 4, p * p, (r * r) * 4, 1, 4);
    lemma_nearly_cancelled(f, n, r * r, 4, 5);
    assert(nearly(f, p * p, n * 4, 1)) by {
        reveal(nearly);
        reveal_with_fuel(power, 2);
        assert(g * 1 == g && (g + 1) * 1 == g + 1);
        let yy = y * y;
        if s == 0 {
            assert((p * p) * g <= (n * 4) * (g + 1)) by (nonlinear_arith)
                requires
                    p == 2 * y,
                    n == y * y,
            ;
        } else {
            let yg = y * g;
            assert(yg <= yy) by (nonlinear_arith)
                requires
                    g <= y,
                    yg == y * g,
                    yy == y * y,
            ;
            assert(p * p == 4 * yy + 4 * y + 1) by (nonlinear_arith)
                requires
                    p == 2 * y + 1,
                    yy == y * y,
            ;
            assert((4 * yy + 4 * y + 1) * g == (4 * yy) * g + 4 * yg + g) by (nonlinear_arith)
                requires
                    yg == y * g,
            ;
            assert((n * 4) * (g + 1) >= (4 * yy + 4) * (g + 1)) by (nonlinear_arith)
                requires
                    n >= yy + 1,
            ;
            assert((4 * yy + 4) * (g + 1) == (4 * yy) * g + 4 * g + 4 * yy + 4)
                by (nonlinear_arith);
        }
    }
    lemma_nearly_product(f, r * 2, p, r * 2, p, 1, 1);
    lemma_nearly_chain(f, (r * r) * 4, p * p, n * 4, 2, 1);
    lemma_nearly_cancelled(f, r * r, n, 4, 3);
}

/// The same of a double-precision number.
pub proof fn lemma_square_root_slip(x: Binary64)
    requires
        x.finite(),
        0 < x.rank(),
        x.root().finite(),
    ensures
        nearly(Format::Double, size(x) * pow2(1074), size(x.root()) * size(x.root()), 5),
        nearly(Format::Double, size(x.root()) * size(x.root()), size(x) * pow2(1074), 3),
{
    let f = Format::Double;
    reveal(Binary64::finite);
    reveal(Binary64::root);
    reveal(Binary64::rank);
    lemma_sizes(f);
    let a = x.bits as nat;
    lemma_unpack(f, a);
    lemma_root_bounded(f, f.units(a));
    lemma_root_slip(f, a);
}

/// How large a whole number is in double precision.
pub proof fn lemma_whole_slip(n: nat)
    requires
        0 < n <= u64::MAX,
    ensures
        Binary64::whole(n).finite(),
        0 < size(Binary64::whole(n)) <= pow2(1138),
        size(Binary64::whole(n)) >= pow2(1074),
        nearly(Format::Double, n * pow2(1074), size(Binary64::whole(n)), 2),
        nearly(Format::Double, size(Binary64::whole(n)), n * pow2(1074), 1),
{
    let f = Format::Double;
    Binary64::words_are_finite(n);
    reveal(Binary64::finite);
    reveal(Binary64::rank);
    lemma_sizes(f);
    lemma_one(f);
    let x = Binary64::whole(n);
    lemma_unpack(f, x.bits as nat);
    lemma_units_monotone(f, one_magnitude(f), f.magnitude(x.bits as nat));
    lemma_pow2_pos(1074);
    let m = n * pow2(1074);
    reveal(Binary64::whole);
    lemma_round_limit(f, m, 1);
    lemma_small_mod(f.round(m, 1), f.sign_weight());
    lemma_round_slip(f, m, 1);
    let u = f.units(f.round(m, 1));
    assert(u * 1 == u);
    lemma2_to64();
    lemma2_to64_rest();
    lemma_pow2_adds(64, 1074);
    lemma_mul_inequality(n as int, pow2(64) as int, pow2(1074) as int);
    lemma_rounds_up_to(m, 1, 1138);
}

/// A finite sum in single precision is not much below the exact one.
pub proof fn lemma_plus_slip32(x: Binary32, y: Binary32)
    requires
        x.finite(),
        y.finite(),
        0 <= x.rank(),
        0 <= y.rank(),
        x.plus(y).finite(),
    ensures
        nearly(Format::Single, size32(x) + size32(y), size32(x.plus(y)), 2),
        nearly(Format::Single, size32(x.plus(y)), size32(x) + size32(y), 1),
{
    let f = Format::Single;
    reveal(Binary32::finite);
    reveal(Binary32::plus);
    reveal(Binary32::rank);
    lemma_sizes(f);
    lemma_units_zero(f);
    sums_round_once(f, x.bits as nat, y.bits as nat);
    lemma_sum_slip(f, x.bits as nat, y.bits as nat);
}

/// A finite product in single precision is off by one rounding, where it is
/// zero or not too small.
pub proof fn lemma_times_slip32(x: Binary32, y: Binary32)
    requires
        x.finite(),
        y.finite(),
        x.times(y).finite(),
        size32(x) == 0 || size32(y) == 0 || size32(x) * size32(y) >= pow2(173),
    ensures
        nearly(Format::Single, size32(x) * size32(y), size32(x.times(y)) * pow2(149), 2),
        nearly(Format::Single, size32(x.times(y)) * pow2(149), size32(x) * size32(y), 1),
{
    let f = Format::Single;
    reveal(Binary32::finite);
    reveal(Binary32::times);
    lemma_sizes(f);
    lemma_pow2_adds(24, 149);
    lemma2_to64();
    lemma_product_parts(f, x.bits as nat, y.bits as nat);
    lemma_product_slip(f, x.bits as nat, y.bits as nat);
}

/// One unit less.
pub open spec fn less_one(n: nat) -> nat {
    if n == 0 {
        0
    } else {
        (n - 1) as nat
    }
}

/// A finite product in single precision, less one unit, is at most the exact
/// one but for a rounding, however small.
pub proof fn lemma_any_times_slip32(x: Binary32, y: Binary32)
    requires
        x.finite(),
        y.finite(),
        x.times(y).finite(),
    ensures
        nearly(
            Format::Single,
            less_one(size32(x.times(y))) * pow2(149),
            size32(x) * size32(y),
            1,
        ),
{
    let f = Format::Single;
    reveal(Binary32::finite);
    reveal(Binary32::times);
    lemma_sizes(f);
    lemma_product_parts(f, x.bits as nat, y.bits as nat);
    let (n, d) = (size32(x) * size32(y), pow2(149));
    lemma_pow2_pos(149);
    let u = f.units(f.round(n, d));
    let c = less_one(u);
    lemma_mul_inequality(c as int, u as int, d as int);
    if n / d >= grain(f) {
        lemma_round_slip(f, n, d);
        lemma_nearly_at_most(f, c * d, u * d, 0);
        lemma_nearly_chain(f, c * d, u * d, n, 0, 1);
    } else {
        lemma_hidden(f);
        lemma2_to64();
        lemma_bit_len_bounds(n / d);
        let q = n / d;
        if bit_len(q) > 24 {
            if bit_len(q) > 25 {
                lemma_pow2_strictly_increases(24, (bit_len(q) - 1) as nat);
            }
        }
        assert(f.spacing(q) == 0);
        assert(d * pow2(0) == d) by (nonlinear_arith)
            requires
                pow2(0) == 1,
        ;
        let k = nearest_even(n, d);
        lemma_round_band(f, n, d);
        assert(f.round(n, d) == k) by {
            reveal(Format::round);
            assert(0 * f.hidden() == 0);
        }
        lemma_grid_units(f, 0, k);
        assert(0 * f.hidden() == 0);
        assert(k * 1 == k);
        lemma_nearest_error(n, d);
        if k > 0 {
            assert((k - 1) * d == k * d - d) by (nonlinear_arith);
        } else {
            assert(0 * d == 0);
        }
        lemma_nearly_at_most(f, c * d, n, 1);
    }
}

/// A finite quotient in single precision is off by one rounding, where it is
/// zero or not too small.
pub proof fn lemma_over_slip32(x: Binary32, y: Binary32)
    requires
        x.finite(),
        y.finite(),
        size32(y) > 0,
        x.over(y).finite(),
        size32(x) == 0 || size32(x) * pow2(149) >= pow2(24) * size32(y),
    ensures
        nearly(Format::Single, size32(x.over(y)) * size32(y), size32(x) * pow2(149), 1),
        nearly(Format::Single, size32(x) * pow2(149), size32(x.over(y)) * size32(y), 2),
{
    let f = Format::Single;
    reveal(Binary32::finite);
    reveal(Binary32::over);
    lemma_sizes(f);
    lemma2_to64();
    lemma_quotient_sized(f, x.bits as nat, y.bits as nat);
    lemma_quotient_slip(f, x.bits as nat, y.bits as nat);
}

/// The square of a root in single precision falls short of the number by a
/// few roundings.
pub proof fn lemma_square_root_slip32(x: Binary32)
    requires
        x.finite(),
        0 < x.rank(),
        x.root().finite(),
    ensures
        nearly(Format::Single, size32(x) * pow2(149), size32(x.root()) * size32(x.root()), 5),
        nearly(Format::Single, size32(x.root()) * size32(x.root()), size32(x) * pow2(149), 3),
{
    let f = Format::Single;
    reveal(Binary32::finite);
    reveal(Binary32::root);
    reveal(Binary32::rank);
    lemma_sizes(f);
    let a = x.bits as nat;
    lemma_unpack(f, a);
    lemma_root_bounded(f, f.units(a));
    lemma_root_slip(f, a);
}

/// A number is zero where its size is, and of two numbers that are not
/// negative the larger has the larger size.
pub proof fn lemma_sizes32(x: Binary32, y: Binary32)
    ensures
        x.finite() ==> (size32(x) == 0 <==> x.rank() == 0),
        0 <= x.rank() <= y.rank() ==> size32(x) <= size32(y),
{
    let f = Format::Single;
    reveal(Binary32::rank);
    lemma_sizes(f);
    lemma_units_zero(f);
    let (a, b) = (x.bits as nat, y.bits as nat);
    lemma_unpack(f, a);
    lemma_unpack(f, b);
    if f.magnitude(a) > 0 {
        lemma_units_strictly_monotone(f, 0, f.magnitude(a));
    }
    if f.magnitude(a) <= f.magnitude(b) {
        lemma_units_monotone(f, f.magnitude(a), f.magnitude(b));
    }
}

proof fn lemma_powers_cross(k: nat)
    ensures
        power(grain(Format::Double) + 1, k) * power(grain(Format::Single), k) <= power(
            grain(Format::Double),
            k,
        ) * power(grain(Format::Single) + 1, k),
    decreases k,
{
    if k > 0 {
        let h = (k - 1) as nat;
        lemma_powers_cross(h);
        let (p, q) = (grain(Format::Double), grain(Format::Single));
        let (a, b, c, d) = (power(p + 1, h), power(q, h), power(p, h), power(q + 1, h));
        assert((p + 1) * q <= p * (q + 1)) by (nonlinear_arith)
            requires
                q <= p,
        ;
        lemma_mul_upper_bound(
            ((p + 1) * q) as int,
            (p * (q + 1)) as int,
            (a * b) as int,
            (c * d) as int,
        );
        let (x, y) = (p + 1, q + 1);
        assert((x * a) * (q * b) == (x * q) * (a * b)) by (nonlinear_arith);
        assert((p * c) * (y * d) == (p * y) * (c * d)) by (nonlinear_arith);
    }
}

/// What holds but for roundings in double precision holds but for as many in
/// single precision.
pub proof fn lemma_nearly_coarser(a: nat, b: nat, k: nat)
    requires
        nearly(Format::Double, a, b, k),
    ensures
        nearly(Format::Single, a, b, k),
{
    reveal(nearly);
    lemma_powers_cross(k);
    lemma_power_bounds(Format::Double, k);
    let (p, p1, q, q1) = (
        power(grain(Format::Double), k),
        power(grain(Format::Double) + 1, k),
        power(grain(Format::Single), k),
        power(grain(Format::Single) + 1, k),
    );
    // a p <= b p1, p1 q <= p q1
    lemma_mul_inequality((a * p) as int, (b * p1) as int, q as int);
    lemma_mul_inequality((p1 * q) as int, (p * q1) as int, b as int);
    assert((a * p) * q == (a * q) * p) by (nonlinear_arith);
    assert((b * p1) * q == (p1 * q) * b) by (nonlinear_arith);
    assert((p * q1) * b == (b * q1) * p) by (nonlinear_arith);
    if a * q > b * q1 {
        lemma_mul_strict_inequality((b * q1) as int, (a * q) as int, p as int);
    }
}

/// Numbers whose squares are nearly ordered are so themselves, but for half
/// the roundings.
pub proof fn lemma_nearly_root(f: Format, a: nat, b: nat, k: nat)
    requires
        nearly(f, a * a, b * b, k + k),
    ensures
        nearly(f, a, b, k),
{
    reveal(nearly);
    let (p, q) = (grain(f), grain(f) + 1);
    lemma_power_adds(p, k, k);
    lemma_power_adds(q, k, k);
    let (x, y) = (a * power(p, k), b * power(q, k));
    let (pk, qk) = (power(p, k), power(q, k));
    assert(x * x == (a * a) * (pk * pk)) by (nonlinear_arith)
        requires
            x == a * pk,
    ;
    assert(y * y == (b * b) * (qk * qk)) by (nonlinear_arith)
        requires
            y == b * qk,
    ;
    if x > y {
        assert(x * x > y * y) by (nonlinear_arith)
            requires
                x > y,
                y >= 0,
        ;
    }
}

/// Widening keeps the size but for the unit.
pub proof fn lemma_widened_extent(x: Binary32)
    requires
        x.finite(),
    ensures
        x.as_binary64().finite(),
        size(x.as_binary64()) == size32(x) * pow2(925),
{
    let s = Format::Single;
    x.widening_is_exact();
    let k = size32(x);
    assert(-(k as int) * pow2(925) == -((k * pow2(925)) as int)) by (nonlinear_arith);
    assert(k * pow2(925) >= 0) by (nonlinear_arith);
}

/// Narrowing a number to one that is not tiny is one rounding.
pub proof fn lemma_narrowed_slip(x: Binary64)
    requires
        x.finite(),
        x.as_binary32().finite(),
        size32(x.as_binary32()) >= pow2(25),
    ensures
        nearly(Format::Single, size(x.as_binary32().as_binary64()), size(x), 1),
        nearly(Format::Single, size(x), size(x.as_binary32().as_binary64()), 2),
        size(x) >= pow2(949),
{
    let (s, d) = (Format::Single, Format::Double);
    let y = x.as_binary32();
    lemma_widened_extent(y);
    reveal(Binary64::finite);
    reveal(Binary32::finite);
    reveal(Binary64::as_binary32);
    lemma_sizes(s);
    lemma_sizes(d);
    lemma_converted(d, s, x.bits as nat);
    let (n, e) = (size(x) * pow2(149), pow2(1074));
    let u = size32(y);
    assert(u == s.units(s.round(n, e)));
    lemma_pow2_pos(1074);
    lemma_pow2_pos(149);
    lemma_pow2_adds(925, 149);
    lemma_pow2_adds(949, 149);
    lemma_pow2_adds(24, 1074);
    lemma2_to64();
    if size(x) < pow2(949) {
        // it would round to no more than 2^24 units
        lemma_mul_inequality(size(x) as int, pow2(949) as int, pow2(149) as int);
        let m = (2 * s.hidden()) as nat;
        reveal(Format::units);
        lemma_fundamental_div_mod_converse(m as int, s.hidden() as int, 2, 0);
        assert(s.units(m) == 0x80_0000 * pow2(1));
        lemma_round_at_most(s, n, e, m);
        lemma_units_monotone(s, s.round(n, e), m);
        lemma_pow2_strictly_increases(24, 25);
        assert(false);
    }
    lemma_mul_inequality(pow2(949) as int, size(x) as int, pow2(149) as int);
    lemma_div_is_ordered((pow2(24) * e) as int, n as int, e as int);
    lemma_div_by_multiple(pow2(24) as int, e as int);
    lemma_round_slip(s, n, e);
    let w = size(y.as_binary64());
    assert(u * e == w * pow2(149)) by (nonlinear_arith)
        requires
            w == u * pow2(925),
            e == pow2(925) * pow2(149),
    ;
    lemma_nearly_cancelled(s, w, size(x), pow2(149), 1);
    lemma_nearly_cancelled(s, size(x), w, pow2(149), 2);
}

/// How far two numbers lie apart, exactly, in units.
pub open spec fn gap32(x: Binary32, y: Binary32) -> nat {
    let z = Format::Single.value(x.bits as nat) - Format::Single.value(y.bits as nat);
    (if z < 0 {
        -z
    } else {
        z
    }) as nat
}

/// A finite difference in single precision is off by one rounding.
pub proof fn lemma_minus_slip32(x: Binary32, y: Binary32)
    requires
        x.finite(),
        y.finite(),
        x.minus(y).finite(),
    ensures
        nearly(Format::Single, size32(x.minus(y)), gap32(x, y), 1),
        nearly(Format::Single, gap32(x, y), size32(x.minus(y)), 2),
        size32(x.minus(y)) == 0 <==> gap32(x, y) == 0,
{
    let f = Format::Single;
    reveal(Binary32::finite);
    reveal(Binary32::plus);
    reveal(Binary32::negated);
    lemma_sizes(f);
    lemma_units_zero(f);
    let (a, b) = (x.bits as nat, y.bits as nat);
    lemma_unpack(f, b);
    lemma_pack(f, !f.negative(b), f.magnitude(b));
    let c = f.neg(b);
    assert(f.value(c) == -f.value(b));
    sums_round_once(f, a, c);
    lemma_sum_slip(f, a, c);
    if gap32(x, y) == 0 {
        lemma_nearly_zero(f, size32(x.minus(y)), 1);
    }
    if size32(x.minus(y)) == 0 {
        lemma_nearly_zero(f, gap32(x, y), 2);
    }
}

/// How large a whole number is in single precision.
pub proof fn lemma_whole_slip32(n: nat)
    requires
        0 < n <= u64::MAX,
    ensures
        Binary32::whole(n).finite(),
        0 < Binary32::whole(n).rank(),
        size32(Binary32::whole(n)) >= pow2(149),
        nearly(Format::Single, n * pow2(149), size32(Binary32::whole(n)), 2),
        nearly(Format::Single, size32(Binary32::whole(n)), n * pow2(149), 1),
        forall|e: nat| n <= #[trigger] pow2(e) && e <= 64 ==> size32(Binary32::whole(n)) <= pow2(
            e + 149,
        ),
{
    let f = Format::Single;
    Binary32::words_are_finite(n);
    Binary32::unit().unsigned_patterns();
    reveal(Binary32::finite);
    lemma_sizes(f);
    lemma_one(f);
    let x = Binary32::whole(n);
    assert(size32(x) >= pow2(149)) by {
        reveal(Binary32::rank);
        lemma_unpack(f, x.bits as nat);
        lemma_units_monotone(f, one_magnitude(f), f.magnitude(x.bits as nat));
    }
    lemma_pow2_pos(149);
    let m = n * pow2(149);
    reveal(Binary32::whole);
    lemma_round_limit(f, m, 1);
    lemma_small_mod(f.round(m, 1), f.sign_weight());
    lemma_round_slip(f, m, 1);
    let u = f.units(f.round(m, 1));
    assert(u * 1 == u);
    assert forall|e: nat| n <= #[trigger] pow2(e) && e <= 64 implies size32(x) <= pow2(e + 149) by {
        lemma_pow2_adds(e, 149);
        lemma_mul_inequality(n as int, pow2(e) as int, pow2(149) as int);
        let top = lemma_power32(e + 149);
        lemma_round_at_most(f, m, 1, top);
        lemma_units_monotone(f, f.round(m, 1), top);
    }
}

/// A power of two is a number.
pub proof fn lemma_power32(e: nat) -> (mag: nat)
    requires
        e <= 276,
    ensures
        mag < Format::Single.inf(),
        Format::Single.units(mag) == pow2(e),
{
    let d = Format::Single;
    let h = d.hidden();
    lemma_sizes(d);
    lemma2_to64();
    reveal(Format::units);
    if e < 23 {
        lemma_pow2_strictly_increases(e, 23);
        let mag = pow2(e);
        lemma_small_mod(mag, h);
        lemma_basic_div(mag as int, h as int);
        mag
    } else {
        let mag = ((e - 22) * h) as nat;
        lemma_fundamental_div_mod_converse(mag as int, h as int, e - 22, 0);
        lemma_pow2_adds(23, (e - 23) as nat);
        mag
    }
}

/// A quotient is at most a power of two where the exact one is, and no less
/// where that is.
pub proof fn lemma_quotient_bounds32(x: Binary32, y: Binary32, e: nat)
    requires
        x.finite(),
        y.finite(),
        size32(y) > 0,
        e <= 276,
    ensures
        size32(x) * pow2(149) <= pow2(e) * size32(y) ==> x.over(y).finite() && size32(x.over(y))
            <= pow2(e),
        pow2(e) * size32(y) <= size32(x) * pow2(149) && x.over(y).finite() ==> pow2(e) <= size32(
            x.over(y),
        ),
{
    let f = Format::Single;
    reveal(Binary32::finite);
    reveal(Binary32::over);
    lemma_sizes(f);
    lemma_units_zero(f);
    let (a, b) = (x.bits as nat, y.bits as nat);
    lemma_unpack(f, a);
    lemma_unpack(f, b);
    let (n, d) = (size32(x) * pow2(149), size32(y));
    lemma_round_limit(f, n, d);
    lemma_pack(f, f.negative(a) != f.negative(b), f.round(n, d));
    let top = lemma_power32(e);
    if n <= pow2(e) * d {
        lemma_round_at_most(f, n, d, top);
        lemma_units_monotone(f, f.round(n, d), top);
    }
    if pow2(e) * d <= n {
        lemma_round_at_least(f, n, d, top);
        lemma_units_monotone(f, top, f.round(n, d));
    }
}

/// A product is at most a power of two where the exact one is, and no less
/// where that is.
pub proof fn lemma_product_bounds32(x: Binary32, y: Binary32, e: nat)
    requires
        x.finite(),
        y.finite(),
        e <= 276,
    ensures
        size32(x) * size32(y) <= pow2(e) * pow2(149) ==> x.times(y).finite() && size32(x.times(y))
            <= pow2(e),
        pow2(e) * pow2(149) <= size32(x) * size32(y) && x.times(y).finite() ==> pow2(e) <= size32(
            x.times(y),
        ),
{
    let f = Format::Single;
    reveal(Binary32::finite);
    reveal(Binary32::times);
    lemma_sizes(f);
    let (a, b) = (x.bits as nat, y.bits as nat);
    lemma_product_parts(f, a, b);
    lemma_pow2_pos(149);
    let top = lemma_power32(e);
    let (n, d) = (size32(x) * size32(y), pow2(149));
    let m = f.round(n, d);
    lemma_round_limit(f, n, d);
    if n <= pow2(e) * d {
        lemma_round_at_most(f, n, d, top);
        lemma_units_monotone(f, m, top);
    }
    if pow2(e) * d <= n {
        lemma_round_at_least(f, n, d, top);
        lemma_units_monotone(f, top, m);
    }
}

/// A root is at most a power of two where the exact one is, and no less where
/// that is.
pub proof fn lemma_root_bounds32(x: Binary32, e: nat)
    requires
        x.finite(),
        0 < x.rank(),
        e <= 276,
    ensures
        size32(x) * pow2(149) <= pow2(e) * pow2(e) ==> x.root().finite() && 0 <= x.root().rank()
            && size32(x.root()) <= pow2(e),
        pow2(e) * pow2(e) <= size32(x) * pow2(149) && x.root().finite() ==> pow2(e) <= size32(
            x.root(),
        ),
{
    let f = Format::Single;
    reveal(Binary32::finite);
    reveal(Binary32::root);
    reveal(Binary32::rank);
    lemma_sizes(f);
    let a = x.bits as nat;
    lemma_unpack(f, a);
    lemma_root_bounded(f, f.units(a));
    let n = size32(x) * pow2(149);
    let y = isqrt(n);
    let p = pow2(e);
    lemma_isqrt(n);
    let t = (2 * y + if y * y == n { 0nat } else { 1nat }) as nat;
    let m = f.round(t, 2);
    let top = lemma_power32(e);
    lemma_small_mod(m, f.sign_weight());
    lemma_pack(f, false, m);
    if n <= p * p {
        if y > p {
            assert(y * y > p * p) by (nonlinear_arith)
                requires
                    y > p,
            ;
        }
        if y == p {
            assert(y * y == n);
        }
        lemma_round_at_most(f, t, 2, top);
        lemma_units_monotone(f, m, top);
    }
    if p * p <= n {
        if y < p {
            assert((y + 1) * (y + 1) <= p * p) by (nonlinear_arith)
                requires
                    y + 1 <= p,
            ;
        }
        lemma_round_at_least(f, t, 2, top);
        lemma_units_monotone(f, top, m);
    }
}

} // verus!
