//! What doubling does to double-precision arithmetic: nothing but double the
//! result, as long as the numbers are neither too large nor too small.
use vstd::prelude::*;
use vstd::arithmetic::power2::*;
use vstd::arithmetic::div_mod::*;
use vstd::arithmetic::mul::*;
use crate::float::binary32::Binary32;
use crate::float::binary64::Binary64;
use crate::float::format::{bit_len, nearest_even, Format};
use crate::float::ieee::{lemma_root_bounded, lemma_units_zero};
use crate::float::laws::{doubled, lemma_doubled, lemma_pack, lemma_product_parts, lemma_round_limit, lemma_sizes, lemma_unpack, sums_round_once};
use crate::float::magnitude::{isqrt, lemma_isqrt, lemma_units_strictly_monotone};
use crate::float::round::{lemma_bit_len_bounds, lemma_nearest_scaled};
use crate::float::scale::{at_least, size};

verus! {

/// Whether `y` is finite and twice `x`, sign included.
pub open spec fn twice(x: Binary64, y: Binary64) -> bool {
    &&& x.finite()
    &&& y.finite()
    &&& Format::Double.negative(x.bits as nat) == Format::Double.negative(y.bits as nat)
    &&& size(y) == 2 * size(x)
}

/// Numbers of the same sign and size are the same.
pub proof fn lemma_same(x: Binary64, y: Binary64)
    requires
        x.finite(),
        y.finite(),
        Format::Double.negative(x.bits as nat) == Format::Double.negative(y.bits as nat),
        size(x) == size(y),
    ensures
        x == y,
{
    let f = Format::Double;
    let (a, b) = (x.bits as nat, y.bits as nat);
    lemma_sizes(f);
    lemma_unpack(f, a);
    lemma_unpack(f, b);
    if f.magnitude(a) < f.magnitude(b) {
        lemma_units_strictly_monotone(f, f.magnitude(a), f.magnitude(b));
    } else if f.magnitude(b) < f.magnitude(a) {
        lemma_units_strictly_monotone(f, f.magnitude(b), f.magnitude(a));
    }
}

/// Twice a large fraction rounds to twice what it rounds to.
proof fn lemma_round_twice(n: nat, d: nat)
    requires
        d > 0,
        n / d >= pow2(53) || d == 1,
        Format::Double.round(2 * n, d) < Format::Double.inf(),
    ensures
        Format::Double.round(n, d) < Format::Double.inf(),
        Format::Double.units(Format::Double.round(2 * n, d)) == 2 * Format::Double.units(
            Format::Double.round(n, d),
        ),
{
    let f = Format::Double;
    let h = f.hidden();
    lemma_sizes(f);
    lemma2_to64();
    lemma2_to64_rest();
    reveal(Format::round);
    let q = n / d;
    let q2 = (2 * n) / d;
    lemma_fundamental_div_mod(n as int, d as int);
    let r = n % d;
    // twice the quotient, with one more bit
    assert(q2 == 2 * q || q2 == 2 * q + 1) by {
        if 2 * r < d {
            assert(2 * n == (2 * q) * d + 2 * r) by (nonlinear_arith)
                requires
                    n == d * q + r,
            ;
            lemma_fundamental_div_mod_converse(2 * n as int, d as int, 2 * q as int, 2 * r as int);
        } else {
            assert(2 * n == (2 * q + 1) * d + (2 * r - d)) by (nonlinear_arith)
                requires
                    n == d * q + r,
            ;
            lemma_fundamental_div_mod_converse(
                2 * n as int,
                d as int,
                (2 * q + 1) as int,
                2 * r - d,
            );
        }
    }
    assert(q2 / 2 == q);
    let j = f.spacing(q);
    if q > 0 {
        assert(bit_len(q2) == 1 + bit_len(q));
    }
    lemma_bit_len_bounds(q);
    if bit_len(q) >= 53 {
        assert(f.spacing(q2) == j + 1);
        lemma_pow2_unfold(j + 1);
        lemma_pow2_pos(j);
        assert(d * pow2(j) > 0) by (nonlinear_arith)
            requires
                d > 0,
                pow2(j) > 0,
        ;
        assert(d * pow2(j + 1) == 2 * (d * pow2(j))) by (nonlinear_arith)
            requires
                pow2(j + 1) == 2 * pow2(j),
        ;
        lemma_nearest_scaled(n, d * pow2(j), 2);
        let k = nearest_even(n, d * pow2(j));
        let mag = j * h + k;
        assert((j + 1) * h + k == mag + h) by (nonlinear_arith)
            requires
                mag == j * h + k,
        ;
        assert(f.round(n, d) == mag);
        assert(mag >= h) by {
            // at least 53 binary digits are kept
            lemma_kept_digits(n, d, j);
        }
        lemma_doubled(f, mag);
    } else {
        // few digits: whole numbers are exact
        if n / d >= pow2(53) {
            if bit_len(q) < 53 {
                lemma_pow2_strictly_increases(bit_len(q), 53);
            }
        }
        assert(d == 1 && q == n && q2 == 2 * n);
        lemma_nearest_whole(n);
        lemma_nearest_whole(2 * n);
        assert(n < h) by {
            if bit_len(q) < 52 {
                lemma_pow2_strictly_increases(bit_len(q), 52);
            }
        }
        assert(f.round(n, 1) == n);
        assert(f.round(2 * n, 1) == 2 * n);
        lemma_doubled(f, n);
    }
}

proof fn lemma_nearest_whole(n: nat)
    ensures
        nearest_even(n, 1 * pow2(0)) == n,
{
    lemma2_to64();
    assert(n / 1 == n && n % 1 == 0);
}

/// A quotient of at least 53 digits keeps 53 of them.
proof fn lemma_kept_digits(n: nat, d: nat, j: nat)
    requires
        d > 0,
        bit_len(n / d) >= 53,
        j == bit_len(n / d) - 53,
    ensures
        nearest_even(n, d * pow2(j)) >= Format::Double.hidden(),
{
    let f = Format::Double;
    lemma2_to64();
    lemma2_to64_rest();
    let q = n / d;
    lemma_bit_len_bounds(q);
    lemma_pow2_adds(52, j);
    lemma_pow2_pos(j);
    let w = d * pow2(j);
    assert(w > 0) by (nonlinear_arith)
        requires
            d > 0,
            pow2(j) > 0,
            w == d * pow2(j),
    ;
    lemma_fundamental_div_mod(n as int, d as int);
    assert(n >= f.hidden() * w) by (nonlinear_arith)
        requires
            n >= d * q,
            q >= f.hidden() * pow2(j),
            w == d * pow2(j),
            d > 0,
    ;
    lemma_div_is_ordered((f.hidden() * w) as int, n as int, w as int);
    lemma_div_by_multiple(f.hidden() as int, w as int);
}

/// A fraction with both parts doubled rounds to the same.
proof fn lemma_round_same(n: nat, d: nat)
    requires
        d > 0,
    ensures
        Format::Double.round(2 * n, 2 * d) == Format::Double.round(n, d),
{
    let f = Format::Double;
    reveal(Format::round);
    lemma_fundamental_div_mod(n as int, d as int);
    let (q, r) = (n / d, n % d);
    assert(2 * n == q * (2 * d) + 2 * r) by (nonlinear_arith)
        requires
            n == d * q + r,
    ;
    lemma_fundamental_div_mod_converse(2 * n as int, 2 * d as int, q as int, 2 * r as int);
    let j = f.spacing(q);
    lemma_pow2_pos(j);
    assert(d * pow2(j) > 0) by (nonlinear_arith)
        requires
            d > 0,
            pow2(j) > 0,
    ;
    assert((2 * d) * pow2(j) == 2 * (d * pow2(j))) by (nonlinear_arith);
    lemma_nearest_scaled(n, d * pow2(j), 2);
}

/// Sums of doubled numbers are doubled.
pub proof fn lemma_twice_sum(a: Binary64, a2: Binary64, b: Binary64, b2: Binary64)
    requires
        twice(a, a2),
        twice(b, b2),
        a2.plus(b2).finite(),
    ensures
        twice(a.plus(b), a2.plus(b2)),
{
    let f = Format::Double;
    reveal(Binary64::finite);
    reveal(Binary64::plus);
    lemma_sizes(f);
    let (x, y, x2, y2) = (a.bits as nat, b.bits as nat, a2.bits as nat, b2.bits as nat);
    sums_round_once(f, x, y);
    sums_round_once(f, x2, y2);
    let z = f.value(x) + f.value(y);
    assert(f.value(x2) + f.value(y2) == 2 * z);
    let n = (if z < 0 { -z } else { z }) as nat;
    lemma_units_zero(f);
    lemma_round_limit(f, n, 1);
    lemma_round_limit(f, 2 * n, 1);
    lemma_pack(f, true, f.round(n, 1));
    lemma_pack(f, false, f.round(n, 1));
    lemma_pack(f, true, f.round(2 * n, 1));
    lemma_pack(f, false, f.round(2 * n, 1));
    lemma_pack(f, true, 0);
    lemma_pack(f, false, 0);
    if z != 0 {
        lemma_round_twice(n, 1);
    }
}

/// A product with a doubled factor is doubled, where it is zero or not too
/// small.
pub proof fn lemma_twice_product(x: Binary64, x2: Binary64, z: Binary64)
    requires
        twice(x, x2),
        z.finite(),
        x2.times(z).finite(),
        size(x) == 0 || size(z) == 0 || size(x) * size(z) >= pow2(1127),
    ensures
        twice(x.times(z), x2.times(z)),
{
    let f = Format::Double;
    reveal(Binary64::finite);
    reveal(Binary64::times);
    lemma_sizes(f);
    lemma_product_parts(f, x.bits as nat, z.bits as nat);
    lemma_product_parts(f, x2.bits as nat, z.bits as nat);
    let (n, d) = (size(x) * size(z), pow2(1074));
    lemma_pow2_pos(1074);
    assert(size(x2) * size(z) == 2 * n) by (nonlinear_arith)
        requires
            size(x2) == 2 * size(x),
            n == size(x) * size(z),
    ;
    if size(x) == 0 || size(z) == 0 {
        assert(n == 0) by (nonlinear_arith)
            requires
                n == size(x) * size(z),
                size(x) == 0 || size(z) == 0,
        ;
        crate::float::ieee::lemma_round_zero(f, d);
        lemma_units_zero(f);
    } else {
        lemma_pow2_adds(53, 1074);
        lemma_div_is_ordered((pow2(53) * d) as int, n as int, d as int);
        lemma_div_by_multiple(pow2(53) as int, d as int);
        lemma_round_twice(n, d);
    }
}

/// Doubling one factor or the other comes to the same.
pub proof fn lemma_same_product(a: Binary64, a2: Binary64, b: Binary64, b2: Binary64)
    requires
        twice(a, a2),
        twice(b, b2),
    ensures
        a2.times(b) == a.times(b2),
{
    let f = Format::Double;
    reveal(Binary64::finite);
    reveal(Binary64::times);
    assert(size(a2) * size(b) == size(a) * size(b2)) by (nonlinear_arith)
        requires
            size(a2) == 2 * size(a),
            size(b2) == 2 * size(b),
    ;
}

/// The quotient of doubled numbers is that of the numbers.
pub proof fn lemma_same_quotient(x: Binary64, x2: Binary64, y: Binary64, y2: Binary64)
    requires
        twice(x, x2),
        twice(y, y2),
        size(y) > 0,
    ensures
        x2.over(y2) == x.over(y),
{
    let f = Format::Double;
    reveal(Binary64::finite);
    reveal(Binary64::over);
    lemma_sizes(f);
    lemma_units_zero(f);
    let (n, d) = (size(x) * pow2(1074), size(y));
    assert(size(x2) * pow2(1074) == 2 * n) by (nonlinear_arith)
        requires
            size(x2) == 2 * size(x),
            n == size(x) * pow2(1074),
    ;
    lemma_round_same(n, d);
}

/// A quotient by a doubled number is halved, where it is not too small.
pub proof fn lemma_half_quotient(x: Binary64, y: Binary64, y2: Binary64)
    requires
        x.finite(),
        twice(y, y2),
        size(y) > 0,
        x.over(y).finite(),
        size(x) * pow2(1074) >= pow2(53) * size(y2),
    ensures
        twice(x.over(y2), x.over(y)),
{
    let f = Format::Double;
    reveal(Binary64::finite);
    reveal(Binary64::over);
    lemma_sizes(f);
    lemma_units_zero(f);
    let (n, d) = (size(x) * pow2(1074), size(y));
    lemma_div_is_ordered((pow2(53) * (2 * d)) as int, n as int, (2 * d) as int);
    lemma_div_by_multiple(pow2(53) as int, (2 * d) as int);
    lemma_round_same(n, d);
    lemma_round_limit(f, n, d);
    lemma_round_limit(f, n, 2 * d);
    let (a, b, b2) = (x.bits as nat, y.bits as nat, y2.bits as nat);
    lemma_pack(f, f.negative(a) != f.negative(b), f.round(n, d));
    lemma_pack(f, f.negative(a) != f.negative(b), f.round(n, 2 * d));
    lemma_round_twice(n, 2 * d);
}

/// What lies strictly between the same two multiples of four rounds alike to
/// a multiple of eight or more.
proof fn lemma_nearest_between(a: nat, x: nat, y: nat, w: nat)
    requires
        w > 0,
        0 < x < 4,
        0 < y < 4,
    ensures
        nearest_even(4 * a + x, 8 * w) == nearest_even(4 * a + y, 8 * w),
{
    let d = 8 * w;
    let (q, r) = ((4 * a) as int / d as int, (4 * a) as int % d as int);
    lemma_fundamental_div_mod(4 * a as int, d as int);
    // the rest is a multiple of four below the divisor
    let b = a - 2 * w * q;
    assert(r == 4 * b) by (nonlinear_arith)
        requires
            4 * a == d * q + r,
            d == 8 * w,
            b == a - 2 * w * q,
    ;
    assert(r + 4 <= d);
    assert(d * q == q * d) by (nonlinear_arith);
    lemma_fundamental_div_mod_converse((4 * a + x) as int, d as int, q, r + x);
    lemma_fundamental_div_mod_converse((4 * a + y) as int, d as int, q, r + y);
}

/// The root of four times a number is twice its root.
pub proof fn lemma_twice_root(x: Binary64, x2: Binary64, x4: Binary64)
    requires
        twice(x, x2),
        twice(x2, x4),
        0 < x.rank(),
        x4.root().finite(),
    ensures
        twice(x.root(), x4.root()),
{
    let f = Format::Double;
    reveal(Binary64::finite);
    reveal(Binary64::root);
    reveal(Binary64::rank);
    lemma_sizes(f);
    lemma2_to64();
    lemma2_to64_rest();
    let (a, c) = (x.bits as nat, x4.bits as nat);
    lemma_unpack(f, a);
    lemma_unpack(f, c);
    lemma_units_zero(f);
    lemma_units_strictly_monotone(f, 0, a);
    let n = f.units(a) * pow2(1074);
    let m = f.units(c) * pow2(1074);
    assert(m == 4 * n) by (nonlinear_arith)
        requires
            m == f.units(c) * pow2(1074),
            n == f.units(a) * pow2(1074),
            f.units(c) == 4 * f.units(a),
    ;
    let (y, z) = (isqrt(n), isqrt(m));
    lemma_isqrt(n);
    lemma_isqrt(m);
    // the root is large, and that of four times the number twice as large
    lemma_pow2_adds(537, 537);
    lemma_pow2_pos(1074);
    assert(n >= pow2(537) * pow2(537)) by (nonlinear_arith)
        requires
            n == f.units(a) * pow2(1074),
            f.units(a) >= 1,
            pow2(537) * pow2(537) == pow2(1074),
    ;
    assert(y >= pow2(537)) by (nonlinear_arith)
        requires
            n < (y + 1) * (y + 1),
            n >= pow2(537) * pow2(537),
    ;
    assert(2 * y <= z <= 2 * y + 1) by (nonlinear_arith)
        requires
            y * y <= n,
            n < (y + 1) * (y + 1),
            z * z <= m,
            m < (z + 1) * (z + 1),
            m == 4 * n,
    ;
    let s: nat = if y * y == n { 0 } else { 1 };
    let t: nat = if z * z == m { 0 } else { 1 };
    let (p, r) = (2 * y + s, 2 * z + t);
    assert(p / 2 == y && r / 2 == z);
    assert(z / 2 == y);
    lemma_bit_len_bounds(y);
    lemma_pow2_strictly_increases(60, 537);
    if bit_len(y) <= 60 {
        if bit_len(y) < 60 {
            lemma_pow2_strictly_increases(bit_len(y), 60);
        }
    }
    assert(bit_len(z) == 1 + bit_len(y));
    let j = f.spacing(y);
    assert(j >= 7 && f.spacing(z) == j + 1);
    // both round alike
    assert(f.round(r, 2) == f.round(2 * p, 2)) by {
        reveal(Format::round);
        lemma_pow2_adds(2, (j - 1) as nat);
        lemma_pow2_pos((j - 1) as nat);
        assert(2 * pow2(j + 1) == 8 * pow2((j - 1) as nat));
        assert((2 * p) / 2 == p);
        assert(bit_len(p) == 1 + bit_len(y)) by {
            assert(p / 2 == y);
        }
        assert(f.spacing(p) == j + 1);
        if s == 0 {
            assert(z == 2 * y && t == 0) by (nonlinear_arith)
                requires
                    y * y == n,
                    m == 4 * n,
                    2 * y <= z <= 2 * y + 1,
                    z * z <= m,
                    t == if z * z == m { 0nat } else { 1nat },
            ;
        } else {
            assert(z == 2 * y ==> t == 1) by (nonlinear_arith)
                requires
                    y * y < n,
                    m == 4 * n,
                    t == if z * z == m { 0nat } else { 1nat },
            ;
            lemma_nearest_between(y, (r - 4 * y) as nat, 2, pow2((j - 1) as nat));
        }
    }
    lemma_root_bounded(f, f.units(a));
    lemma_root_bounded(f, f.units(c));
    lemma_small_mod(f.round_sqrt(f.units(a)), f.sign_weight());
    lemma_small_mod(f.round_sqrt(f.units(c)), f.sign_weight());
    if bit_len(y) > 54 {
        lemma_pow2_strictly_increases(53, (bit_len(y) - 1) as nat);
    }
    lemma_round_twice(p, 2);
}

/// A whole number of units that a power of two divides is rounded to one that
/// it divides.
proof fn lemma_round_multiple(k: nat, e: nat) -> (r: nat)
    requires
        Format::Double.round(k * pow2(e), 1) < Format::Double.inf(),
    ensures
        Format::Double.units(Format::Double.round(k * pow2(e), 1)) == r * pow2(e),
{
    let f = Format::Double;
    let h = f.hidden();
    lemma_sizes(f);
    lemma2_to64();
    lemma2_to64_rest();
    let n = k * pow2(e);
    let j = f.spacing(n);
    assert(n / 1 == n);
    lemma_pow2_pos(e);
    lemma_pow2_pos(j);
    assert(1 * pow2(j) == pow2(j));
    let c = nearest_even(n, pow2(j));
    crate::float::laws::lemma_round_band(f, n, 1);
    let mag = j * h + c;
    assert(f.round(n, 1) == mag) by {
        reveal(Format::round);
    }
    assert(f.units(mag) == c * pow2(j)) by {
        lemma_grid_units(j, c);
        lemma_bit_len_bounds(n);
        if j == 0 {
            lemma_nearest_whole(n);
        }
    }
    if j <= e {
        lemma_pow2_adds(j, (e - j) as nat);
        let w = k * pow2((e - j) as nat);
        assert(n == w * pow2(j)) by (nonlinear_arith)
            requires
                n == k * pow2(e),
                pow2(e) == pow2(j) * pow2((e - j) as nat),
                w == k * pow2((e - j) as nat),
        ;
        lemma_div_by_multiple(w as int, pow2(j) as int);
        lemma_mod_multiples_basic(w as int, pow2(j) as int);
        k
    } else {
        lemma_pow2_adds(e, (j - e) as nat);
        let w = c * pow2((j - e) as nat);
        assert(c * pow2(j) == w * pow2(e)) by (nonlinear_arith)
            requires
                pow2(j) == pow2(e) * pow2((j - e) as nat),
                w == c * pow2((j - e) as nat),
        ;
        w
    }
}

/// How many units the magnitude with significand `c` and spacing `j` is.
proof fn lemma_grid_units(j: nat, c: nat)
    requires
        c <= 2 * Format::Double.hidden(),
        j > 0 ==> Format::Double.hidden() <= c,
    ensures
        Format::Double.units(j * Format::Double.hidden() + c) == c * pow2(j),
{
    let f = Format::Double;
    let h = f.hidden();
    lemma2_to64();
    reveal(Format::units);
    let mag = j * h + c;
    if c < h {
        lemma_fundamental_div_mod_converse(mag as int, h as int, 0, c as int);
    } else if c < 2 * h {
        assert(mag == (j + 1) * h + (c - h)) by (nonlinear_arith)
            requires
                mag == j * h + c,
        ;
        lemma_fundamental_div_mod_converse(mag as int, h as int, (j + 1) as int, c - h);
    } else {
        assert(mag == (j + 2) * h) by (nonlinear_arith)
            requires
                mag == j * h + c,
                c == 2 * h,
        ;
        lemma_fundamental_div_mod_converse(mag as int, h as int, (j + 2) as int, 0);
        lemma_pow2_unfold(j + 1);
        assert(h * pow2(j + 1) == (2 * h) * pow2(j)) by (nonlinear_arith)
            requires
                pow2(j + 1) == 2 * pow2(j),
        ;
    }
}

/// Whether a number is finite and a multiple of `pow2(e)` units.
pub open spec fn is_multiple(x: Binary64, e: nat) -> bool {
    x.finite() && exists|k: nat| size(x) == #[trigger] (k * pow2(e))
}

/// A finite sum of multiples is one.
pub proof fn lemma_multiple_sum(x: Binary64, y: Binary64, e: nat)
    requires
        is_multiple(x, e),
        is_multiple(y, e),
        x.plus(y).finite(),
    ensures
        is_multiple(x.plus(y), e),
{
    let f = Format::Double;
    reveal(Binary64::finite);
    reveal(Binary64::plus);
    lemma_sizes(f);
    let (a, b) = (x.bits as nat, y.bits as nat);
    let k = choose|k: nat| size(x) == #[trigger] (k * pow2(e));
    let l = choose|l: nat| size(y) == #[trigger] (l * pow2(e));
    sums_round_once(f, a, b);
    let z = f.value(a) + f.value(b);
    let n = (if z < 0 { -z } else { z }) as nat;
    let sk: int = if f.negative(a) { -(k as int) } else { k as int };
    let sl: int = if f.negative(b) { -(l as int) } else { l as int };
    let g = sk + sl;
    let c = (if g < 0 { -g } else { g }) as nat;
    assert(-(k as int) * pow2(e) == -((k * pow2(e)) as int)) by (nonlinear_arith);
    assert(-(l as int) * pow2(e) == -((l * pow2(e)) as int)) by (nonlinear_arith);
    assert(z == sk * pow2(e) + sl * pow2(e));
    assert(z == g * pow2(e)) by (nonlinear_arith)
        requires
            z == sk * pow2(e) + sl * pow2(e),
            g == sk + sl,
    ;
    lemma_pow2_pos(e);
    assert(n == c * pow2(e)) by (nonlinear_arith)
        requires
            z == g * pow2(e),
            n == if z < 0 { -z } else { z },
            c == if g < 0 { -g } else { g },
            pow2(e) > 0,
    ;
    lemma_units_zero(f);
    lemma_round_limit(f, n, 1);
    lemma_pack(f, true, f.round(n, 1));
    lemma_pack(f, false, f.round(n, 1));
    lemma_pack(f, true, 0);
    lemma_pack(f, false, 0);
    let s = x.plus(y);
    if z == 0 {
        assert(size(s) == 0 * pow2(e));
    } else {
        let r = lemma_round_multiple(c, e);
        assert(size(s) == r * pow2(e));
    }
}

/// A fraction with both parts scaled alike rounds to the same.
proof fn lemma_round_scaled(n: nat, c: nat)
    requires
        c > 0,
    ensures
        Format::Double.round(n * c, c) == Format::Double.round(n, 1),
{
    let f = Format::Double;
    reveal(Format::round);
    lemma_nearest_scaled(n, 1, c);
    assert(1 * c == c);
    assert(n / 1 == n);
    let j = f.spacing(n);
    lemma_pow2_pos(j);
    assert(1 * pow2(j) == pow2(j));
    lemma_nearest_scaled(n, pow2(j), c);
    assert(c * pow2(j) == pow2(j) * c) by (nonlinear_arith);
}

/// A single-precision number is a multiple of 2^-149.
pub proof fn lemma_single_multiple(x: Binary32)
    requires
        x.finite(),
    ensures
        is_multiple(x.as_binary64(), 925),
{
    let s = Format::Single;
    x.widening_is_exact();
    let k = s.units(s.magnitude(x.bits as nat));
    assert(-(k as int) * pow2(925) == -((k * pow2(925)) as int)) by (nonlinear_arith);
    assert(k * pow2(925) >= 0) by (nonlinear_arith);
    if k == 0 {
        assert(0 * pow2(925) == 0);
    }
    assert(size(x.as_binary64()) == k * pow2(925));
}

/// The product of two multiples of 2^-149 is a multiple of 2^-298.
pub proof fn lemma_multiple_product(x: Binary64, y: Binary64)
    requires
        is_multiple(x, 925),
        is_multiple(y, 925),
        x.times(y).finite(),
    ensures
        is_multiple(x.times(y), 776),
{
    let f = Format::Double;
    reveal(Binary64::finite);
    reveal(Binary64::times);
    lemma_sizes(f);
    lemma_product_parts(f, x.bits as nat, y.bits as nat);
    let k = choose|k: nat| size(x) == #[trigger] (k * pow2(925));
    let l = choose|l: nat| size(y) == #[trigger] (l * pow2(925));
    lemma_pow2_adds(925, 925);
    lemma_pow2_adds(776, 1074);
    lemma_pow2_pos(1074);
    let n = (k * l) * pow2(776);
    assert(size(x) * size(y) == n * pow2(1074)) by (nonlinear_arith)
        requires
            size(x) == k * pow2(925),
            size(y) == l * pow2(925),
            pow2(925) * pow2(925) == pow2(1850),
            pow2(776) * pow2(1074) == pow2(1850),
            n == (k * l) * pow2(776),
    ;
    lemma_round_scaled(n, pow2(1074));
    let r = lemma_round_multiple(k * l, 776);
    assert(size(x.times(y)) == r * pow2(776));
}

/// A multiple other than zero is at least the one.
pub proof fn lemma_multiple_at_least(x: Binary64, e: nat)
    requires
        is_multiple(x, e),
        size(x) > 0,
    ensures
        at_least(x, e),
{
    let k = choose|k: nat| size(x) == #[trigger] (k * pow2(e));
    lemma_pow2_pos(e);
    assert(k * pow2(e) >= pow2(e)) by (nonlinear_arith)
        requires
            k * pow2(e) > 0,
            pow2(e) > 0,
    ;
}

/// Zero over a number other than zero is zero.
pub proof fn lemma_zero_quotient(x: Binary64, y: Binary64)
    requires
        x.finite(),
        y.finite(),
        size(x) == 0,
        size(y) > 0,
    ensures
        x.over(y).finite(),
        size(x.over(y)) == 0,
{
    let f = Format::Double;
    reveal(Binary64::finite);
    reveal(Binary64::over);
    lemma_sizes(f);
    lemma_units_zero(f);
    assert(0 * pow2(1074) == 0);
    crate::float::ieee::lemma_round_zero(f, size(y));
    lemma_pack(f, f.negative(x.bits as nat) != f.negative(y.bits as nat), 0);
}

/// A number is zero where its size is.
pub proof fn lemma_size_zero(x: Binary64)
    requires
        x.finite(),
    ensures
        size(x) == 0 <==> x.rank() == 0,
{
    let f = Format::Double;
    reveal(Binary64::rank);
    lemma_units_zero(f);
    let m = f.magnitude(x.bits as nat);
    if m > 0 {
        lemma_units_strictly_monotone(f, 0, m);
    }
}

/// A number that is large enough is a multiple.
pub proof fn lemma_large_multiple(x: Binary64, e: nat)
    requires
        at_least(x, e + 53),
    ensures
        is_multiple(x, e),
{
    let f = Format::Double;
    let h = f.hidden();
    lemma2_to64();
    lemma2_to64_rest();
    reveal(Format::units);
    let m = f.magnitude(x.bits as nat);
    let (k, r) = (m / h, m % h);
    lemma_fundamental_div_mod(m as int, h as int);
    lemma_pow2_pos(e);
    lemma_pow2_adds(53, e);
    if k == 0 {
        assert(pow2(53) * pow2(e) >= pow2(53)) by (nonlinear_arith)
            requires
                pow2(e) >= 1,
        ;
        assert(false);
    }
    let j = (k - 1) as nat;
    let c = r + h;
    assert(size(x) == c * pow2(j));
    if j < e {
        lemma_pow2_strictly_increases(j, e);
        lemma_mul_upper_bound(c as int, pow2(53) as int, pow2(j) as int, pow2(e) as int);
        assert(c * pow2(j) < pow2(53) * pow2(e)) by (nonlinear_arith)
            requires
                c <= pow2(53),
                pow2(j) < pow2(e),
                pow2(53) > 0,
        ;
    }
    lemma_pow2_adds(e, (j - e) as nat);
    let n = c * pow2((j - e) as nat);
    assert(c * pow2(j) == n * pow2(e)) by (nonlinear_arith)
        requires
            pow2(j) == pow2(e) * pow2((j - e) as nat),
            n == c * pow2((j - e) as nat),
    ;
}

/// Zero is a multiple of everything.
pub proof fn lemma_zero_multiple(x: Binary64, e: nat)
    requires
        x.finite(),
        size(x) == 0,
    ensures
        is_multiple(x, e),
{
    assert(size(x) == 0 * pow2(e));
}

/// The negative of a multiple is one.
pub proof fn lemma_negated_multiple(x: Binary64, e: nat)
    requires
        is_multiple(x, e),
    ensures
        is_multiple(x.negated(), e),
        size(x.negated()) == size(x),
{
    let f = Format::Double;
    reveal(Binary64::finite);
    reveal(Binary64::negated);
    lemma_sizes(f);
    lemma_unpack(f, x.bits as nat);
    lemma_pack(f, !f.negative(x.bits as nat), f.magnitude(x.bits as nat));
    let k = choose|k: nat| size(x) == #[trigger] (k * pow2(e));
    assert(size(x.negated()) == k * pow2(e));
}

} // verus!
