//! What holds of rounding, and of the arithmetic that rounds.
use vstd::prelude::*;
use vstd::arithmetic::power2::*;
use vstd::arithmetic::div_mod::*;
use vstd::arithmetic::mul::*;
use crate::float::binary32::Binary32;
use crate::float::binary64::Binary64;
use crate::float::format::{bit_len, nearest_even, Format};
use crate::float::magnitude::{lemma_hidden, lemma_units_monotone, lemma_units_strictly_monotone};
use crate::float::round::{lemma_bit_len_bounds, lemma_bit_len_shifted, lemma_bit_len_unique};

verus! {

/// A whole quotient is its own nearest integer.
proof fn lemma_nearest_exact(k: nat, d: nat)
    requires
        d > 0,
    ensures
        nearest_even(k * d, d) == k,
{
    lemma_fundamental_div_mod_converse((k * d) as int, d as int, k as int, 0);
}

/// Of two fractions the larger one has the larger nearest integer.
proof fn lemma_nearest_monotone(n1: nat, d1: nat, n2: nat, d2: nat)
    requires
        d1 > 0,
        d2 > 0,
        n1 * d2 <= n2 * d1,
    ensures
        n1 / d1 <= n2 / d2,
        nearest_even(n1, d1) <= nearest_even(n2, d2),
{
    let (k1, r1) = (n1 / d1, n1 % d1);
    let (k2, r2) = (n2 / d2, n2 % d2);
    lemma_fundamental_div_mod(n1 as int, d1 as int);
    lemma_fundamental_div_mod(n2 as int, d2 as int);
    assert(n1 == d1 * k1 + r1 && r1 < d1);
    assert(n2 == d2 * k2 + r2 && r2 < d2);
    if k1 > k2 {
        assert(false) by (nonlinear_arith)
            requires
                n1 * d2 <= n2 * d1,
                n1 == d1 * k1 + r1,
                n2 == d2 * k2 + r2,
                r2 < d2,
                k1 >= k2 + 1,
                d1 > 0,
                d2 > 0,
        {
            assert((d1 * k1) * d2 >= (d1 * (k2 + 1)) * d2);
            assert((d2 * k2 + r2) * d1 < (d2 * k2 + d2) * d1);
            assert((d1 * (k2 + 1)) * d2 == (d2 * k2 + d2) * d1);
        }
    }
    if k1 == k2 {
        assert(r1 * d2 <= r2 * d1) by (nonlinear_arith)
            requires
                n1 * d2 <= n2 * d1,
                n1 == d1 * k1 + r1,
                n2 == d2 * k2 + r2,
                k1 == k2,
        {
            assert((d1 * k1) * d2 == (d2 * k2) * d1);
        }
        if 2 * r1 > d1 {
            assert(2 * r2 > d2) by (nonlinear_arith)
                requires
                    2 * r1 > d1,
                    r1 * d2 <= r2 * d1,
                    d1 > 0,
                    d2 > 0,
            {
                assert(2 * (r1 * d2) > d1 * d2);
            }
        } else if 2 * r1 == d1 {
            assert(2 * r2 >= d2) by (nonlinear_arith)
                requires
                    2 * r1 == d1,
                    r1 * d2 <= r2 * d1,
                    d1 > 0,
                    d2 > 0,
            {
                assert(2 * (r1 * d2) == d1 * d2);
            }
        }
    }
}

/// More digits for a larger number.
proof fn lemma_bit_len_monotone(a: nat, b: nat)
    requires
        a <= b,
    ensures
        bit_len(a) <= bit_len(b),
{
    lemma_bit_len_bounds(a);
    lemma_bit_len_bounds(b);
    if bit_len(a) > bit_len(b) {
        if bit_len(a) - 1 > bit_len(b) {
            lemma_pow2_strictly_increases(bit_len(b), (bit_len(a) - 1) as nat);
        }
    }
}

/// Between two neighbouring spacings: a fraction with spacing `j` rounds to
/// at most `(j + 2)` times the hidden weight, and to at least `(j + 1)` times
/// it where `j` is not zero.
pub proof fn lemma_round_band(f: Format, n: nat, d: nat)
    requires
        d > 0,
    ensures
        ({
            let j = f.spacing(n / d);
            let k = nearest_even(n, d * pow2(j));
            &&& k <= 2 * f.hidden()
            &&& j > 0 ==> f.hidden() <= k
        }),
{
    let q = n / d;
    let j = f.spacing(q);
    let w = pow2(j);
    lemma_pow2_pos(j);
    lemma_hidden(f);
    lemma_bit_len_bounds(q);
    lemma_fundamental_div_mod(n as int, d as int);
    let p = f.precision();
    // q < 2^(p + j)
    if bit_len(q) < p + j {
        lemma_pow2_strictly_increases(bit_len(q), p + j);
    }
    lemma_pow2_adds(p, j);
    assert(q + 1 <= pow2(p) * w);
    assert(d * w > 0) by (nonlinear_arith) requires d > 0, w > 0;
    assert(n * 1 <= (2 * f.hidden()) * (d * w)) by (nonlinear_arith)
        requires
            n == d * q + n % d,
            n % d < d,
            q + 1 <= pow2(p) * w,
            pow2(p) == 2 * f.hidden(),
            d > 0,
    {
        assert(d * (q + 1) <= d * (pow2(p) * w));
    }
    lemma_nearest_monotone(n, d * w, 2 * f.hidden(), 1);
    lemma_nearest_exact(2 * f.hidden(), 1);
    if j > 0 {
        lemma_pow2_adds((p - 1) as nat, j);
        assert(p + j - 1 == (p - 1) + j);
        assert(q >= pow2((p - 1) as nat) * w);
        assert(f.hidden() * (d * w) <= n * 1) by (nonlinear_arith)
            requires
                n == d * q + n % d,
                n % d >= 0,
                q >= f.hidden() * w,
                d > 0,
        {
            assert(d * q >= d * (f.hidden() * w));
        }
        lemma_nearest_monotone(f.hidden(), 1, n, d * w);
        lemma_nearest_exact(f.hidden(), 1);
    }
}

/// Rounding keeps the order: of two fractions the larger one does not round
/// to less.
pub proof fn rounding_keeps_the_order(f: Format, n1: nat, d1: nat, n2: nat, d2: nat)
    requires
        d1 > 0,
        d2 > 0,
        n1 * d2 <= n2 * d1,
    ensures
        f.round(n1, d1) <= f.round(n2, d2),
{
    reveal(Format::round);
    lemma_nearest_monotone(n1, d1, n2, d2);
    lemma_bit_len_monotone(n1 / d1, n2 / d2);
    lemma_hidden(f);
    let j1 = f.spacing(n1 / d1);
    let j2 = f.spacing(n2 / d2);
    let (w1, w2) = (pow2(j1), pow2(j2));
    lemma_pow2_pos(j1);
    lemma_pow2_pos(j2);
    let k1 = nearest_even(n1, d1 * w1);
    let k2 = nearest_even(n2, d2 * w2);
    if j1 == j2 {
        assert(d1 * w1 > 0) by (nonlinear_arith) requires d1 > 0, w1 > 0;
        assert(d2 * w1 > 0) by (nonlinear_arith) requires d2 > 0, w1 > 0;
        assert(n1 * (d2 * w1) <= n2 * (d1 * w1)) by (nonlinear_arith)
            requires
                n1 * d2 <= n2 * d1,
                w1 > 0,
        {
            assert(n1 * (d2 * w1) == (n1 * d2) * w1);
            assert(n2 * (d1 * w1) == (n2 * d1) * w1);
        }
        lemma_nearest_monotone(n1, d1 * w1, n2, d2 * w1);
        assert(k1 <= k2);
    } else {
        lemma_round_band(f, n1, d1);
        lemma_round_band(f, n2, d2);
        assert(j1 * f.hidden() + k1 <= j2 * f.hidden() + k2) by (nonlinear_arith)
            requires
                j1 + 1 <= j2,
                k1 <= 2 * f.hidden(),
                f.hidden() <= k2,
        {
            assert((j1 + 1) * f.hidden() <= j2 * f.hidden());
        }
    }
}

/// A number of the format rounds to itself, and what would be one with a
/// larger exponent than there is to an infinity.
pub proof fn rounding_is_exact_on_numbers(f: Format, mag: nat, c: nat)
    requires
        c > 0,
    ensures
        f.round(f.units(mag) * c, c) == if mag < f.inf() {
            mag
        } else {
            f.inf()
        },
{
    reveal(Format::round);
    reveal(Format::units);
    lemma_hidden(f);
    lemma2_to64();
    let h = f.hidden();
    let v = f.units(mag);
    let (e, fr) = (mag / h, mag % h);
    lemma_fundamental_div_mod(mag as int, h as int);
    lemma_div_by_multiple(v as int, c as int);
    assert((v * c) / c == v);
    if e == 0 {
        assert(v == fr && mag == fr);
        lemma_bit_len_bounds(v);
        if bit_len(v) > f.precision() {
            if bit_len(v) - 1 > f.precision() {
                lemma_pow2_strictly_increases(f.precision(), (bit_len(v) - 1) as nat);
            }
        }
        assert(f.spacing(v) == 0);
        assert(c * pow2(0) == c) by (nonlinear_arith) requires pow2(0) == 1;
        lemma_nearest_exact(v, c);
        assert(0 * h == 0);
    } else {
        let j = (e - 1) as nat;
        let s = fr + h;
        lemma_pow2_pos(j);
        assert(h * e == j * h + h) by (nonlinear_arith) requires j == e - 1;
        lemma_bit_len_unique(s, f.precision());
        lemma_bit_len_shifted(s, j);
        assert(bit_len(v) == f.precision() + j);
        assert(f.spacing(v) == j);
        assert(v * c == s * (c * pow2(j))) by (nonlinear_arith) requires v == s * pow2(j);
        assert(c * pow2(j) > 0) by (nonlinear_arith) requires c > 0, pow2(j) > 0;
        lemma_nearest_exact(s, c * pow2(j));
        assert(j * h + s == mag);
    }
}

/// A fraction not above a number of the format does not round above it.
pub proof fn lemma_round_at_most(f: Format, n: nat, d: nat, mag: nat)
    requires
        d > 0,
        mag < f.inf(),
        n <= f.units(mag) * d,
    ensures
        f.round(n, d) <= mag,
{
    rounding_is_exact_on_numbers(f, mag, 1);
    assert(f.units(mag) * 1 == f.units(mag));
    rounding_keeps_the_order(f, n, d, f.units(mag), 1);
}

/// A fraction not below a number of the format does not round below it.
pub proof fn lemma_round_at_least(f: Format, n: nat, d: nat, mag: nat)
    requires
        d > 0,
        mag < f.inf(),
        f.units(mag) * d <= n,
    ensures
        mag <= f.round(n, d),
{
    rounding_is_exact_on_numbers(f, mag, 1);
    assert(f.units(mag) * 1 == f.units(mag));
    rounding_keeps_the_order(f, f.units(mag), 1, n, d);
}

/// The place in the order of numbers that `z` units round to.
pub open spec fn rounded(f: Format, z: int) -> int {
    if z < 0 {
        -(f.round((-z) as nat, 1) as int)
    } else {
        f.round(z as nat, 1) as int
    }
}

/// The sizes of the two formats.
pub proof fn lemma_sizes(f: Format)
    ensures
        match f {
            Format::Single => f.inf() == 0x7f80_0000 && f.sign_weight() == 0x8000_0000 && f.nan()
                == 0x7fc0_0000,
            Format::Double => f.inf() == 0x7ff0_0000_0000_0000 && f.sign_weight()
                == 0x8000_0000_0000_0000 && f.nan() == 0x7ff8_0000_0000_0000,
        },
{
}

pub proof fn lemma_round_limit(f: Format, n: nat, d: nat)
    ensures
        f.round(n, d) <= f.inf() < f.sign_weight(),
{
    reveal(Format::round);
}

/// Packing a sign and a magnitude gives them back.
pub proof fn lemma_pack(f: Format, negative: bool, mag: nat)
    requires
        mag < f.sign_weight(),
    ensures
        f.magnitude(f.pack(negative, mag)) == mag,
        f.negative(f.pack(negative, mag)) == negative,
        f.well_sized(f.pack(negative, mag)),
{
    let w = f.sign_weight() as int;
    lemma_small_mod(mag, f.sign_weight());
    lemma_mod_add_multiples_vanish(mag as int, w);
}

/// A bit pattern is its sign and its magnitude.
pub proof fn lemma_unpack(f: Format, bits: nat)
    requires
        f.well_sized(bits),
    ensures
        bits == f.pack(f.negative(bits), f.magnitude(bits)),
        f.magnitude(bits) < f.sign_weight(),
{
    let w = f.sign_weight() as int;
    if f.negative(bits) {
        lemma_fundamental_div_mod_converse(bits as int, w, 1, bits - w);
    } else {
        lemma_small_mod(bits, f.sign_weight());
    }
}

/// Finite bit patterns are ordered as the numbers they stand for.
pub proof fn ranks_order_numbers(f: Format, a: nat, b: nat)
    ensures
        f.rank(a) <= f.rank(b) <==> f.value(a) <= f.value(b),
        f.rank(a) == f.rank(b) <==> f.value(a) == f.value(b),
{
    crate::float::ieee::lemma_units_zero(f);
    let (x, y) = (f.magnitude(a), f.magnitude(b));
    if x < y {
        lemma_units_strictly_monotone(f, x, y);
    }
    if y < x {
        lemma_units_strictly_monotone(f, y, x);
    }
    if x > 0 {
        lemma_units_strictly_monotone(f, 0, x);
    }
    if y > 0 {
        lemma_units_strictly_monotone(f, 0, y);
    }
}

proof fn lemma_rounded_monotone(f: Format, x: int, y: int)
    requires
        x <= y,
    ensures
        rounded(f, x) <= rounded(f, y),
{
    lemma_round_limit(f, 0, 1);
    if x >= 0 {
        rounding_keeps_the_order(f, x as nat, 1, y as nat, 1);
    } else if y < 0 {
        rounding_keeps_the_order(f, (-y) as nat, 1, (-x) as nat, 1);
    }
}

proof fn lemma_rounded_exact(f: Format, a: nat)
    requires
        f.is_finite(a),
    ensures
        rounded(f, f.value(a)) == f.rank(a),
{
    let m = f.magnitude(a);
    rounding_is_exact_on_numbers(f, m, 1);
    assert(f.units(m) * 1 == f.units(m));
    crate::float::ieee::lemma_units_zero(f);
    if m > 0 {
        lemma_units_strictly_monotone(f, 0, m);
    } else {
        crate::float::ieee::lemma_round_zero(f, 1);
    }
}

/// The sum of two finite numbers is their exact sum rounded once, and no NaN.
pub proof fn sums_round_once(f: Format, a: nat, b: nat)
    requires
        f.is_finite(a),
        f.is_finite(b),
    ensures
        f.rank(f.sum(a, b)) == rounded(f, f.value(a) + f.value(b)),
        !f.is_nan(f.sum(a, b)),
        f.well_sized(f.sum(a, b)),
{
    let z = f.value(a) + f.value(b);
    lemma_round_limit(f, 0, 1);
    crate::float::ieee::lemma_round_zero(f, 1);
    if z == 0 {
        lemma_pack(f, f.negative(a) && f.negative(b), 0);
    } else if z < 0 {
        lemma_round_limit(f, (-z) as nat, 1);
        lemma_pack(f, true, f.round((-z) as nat, 1));
    } else {
        lemma_round_limit(f, z as nat, 1);
        lemma_pack(f, false, f.round(z as nat, 1));
    }
}

/// Adding the same finite number keeps the order.
pub proof fn sums_keep_the_order(f: Format, a: nat, b: nat, c: nat)
    requires
        f.is_finite(a),
        f.is_finite(b),
        f.is_finite(c),
        f.rank(a) <= f.rank(b),
    ensures
        f.rank(f.sum(a, c)) <= f.rank(f.sum(b, c)),
{
    ranks_order_numbers(f, a, b);
    sums_round_once(f, a, c);
    sums_round_once(f, b, c);
    lemma_rounded_monotone(f, f.value(a) + f.value(c), f.value(b) + f.value(c));
}

/// Adding zero changes no finite number.
pub proof fn adding_zero_changes_nothing(f: Format, a: nat, zero: nat)
    requires
        f.is_finite(a),
        f.magnitude(zero) == 0,
    ensures
        f.rank(f.sum(a, zero)) == f.rank(a),
        f.rank(f.sum(zero, a)) == f.rank(a),
        f.is_finite(f.sum(a, zero)),
        f.is_finite(f.sum(zero, a)),
{
    crate::float::ieee::lemma_units_zero(f);
    assert(0 < f.inf());
    assert(f.value(zero) == 0);
    sums_round_once(f, a, zero);
    sums_round_once(f, zero, a);
    lemma_rounded_exact(f, a);
    lemma_rank_magnitude(f, a, f.sum(a, zero));
    lemma_rank_magnitude(f, a, f.sum(zero, a));
}

/// Equal ranks have equal magnitudes.
proof fn lemma_rank_magnitude(f: Format, a: nat, b: nat)
    requires
        f.rank(a) == f.rank(b),
    ensures
        f.magnitude(a) == f.magnitude(b),
{
}

/// The order of the summands does not matter.
pub proof fn sums_commute(f: Format, a: nat, b: nat)
    requires
        f.well_sized(a),
        f.well_sized(b),
    ensures
        f.sum(a, b) == f.sum(b, a),
{
    lemma_unpack(f, a);
    lemma_unpack(f, b);
}

/// The order of the factors does not matter.
pub proof fn products_commute(f: Format, a: nat, b: nat)
    ensures
        f.product(a, b) == f.product(b, a),
{
    let (x, y) = (f.units(f.magnitude(a)), f.units(f.magnitude(b)));
    assert(x * y == y * x) by (nonlinear_arith);
}

/// The magnitude of one.
pub open spec fn one_magnitude(f: Format) -> nat {
    match f {
        Format::Single => 0x3f80_0000,
        Format::Double => 0x3ff0_0000_0000_0000,
    }
}

/// One is as many units as it should be.
pub proof fn lemma_one(f: Format)
    ensures
        f.units(one_magnitude(f)) == pow2(f.one_exp()),
        one_magnitude(f) < f.inf(),
        f.magnitude(one_magnitude(f)) == one_magnitude(f),
        !f.negative(one_magnitude(f)),
{
    reveal(Format::units);
    lemma_hidden(f);
    lemma_sizes(f);
    lemma_small_mod(one_magnitude(f), f.sign_weight());
    match f {
        Format::Single => {
            lemma_pow2_adds(23, 126);
        },
        Format::Double => {
            lemma_pow2_adds(52, 1022);
        },
    }
}

/// The product of two finite numbers, by sign and magnitude.
pub proof fn lemma_product_parts(f: Format, a: nat, b: nat)
    requires
        f.is_finite(a),
        f.is_finite(b),
    ensures
        f.magnitude(f.product(a, b)) == f.round(
            f.units(f.magnitude(a)) * f.units(f.magnitude(b)),
            pow2(f.one_exp()),
        ),
        f.negative(f.product(a, b)) == (f.negative(a) != f.negative(b)),
        !f.is_nan(f.product(a, b)),
        f.well_sized(f.product(a, b)),
{
    let m = f.round(f.units(f.magnitude(a)) * f.units(f.magnitude(b)), pow2(f.one_exp()));
    lemma_round_limit(
        f,
        f.units(f.magnitude(a)) * f.units(f.magnitude(b)),
        pow2(f.one_exp()),
    );
    lemma_pack(f, f.negative(a) != f.negative(b), m);
}

/// A factor of at most one does not make a finite number larger.
pub proof fn small_factors_do_not_grow(f: Format, a: nat, b: nat)
    requires
        f.is_finite(a),
        f.magnitude(b) <= one_magnitude(f),
    ensures
        f.magnitude(f.product(b, a)) <= f.magnitude(a),
        f.is_finite(f.product(b, a)),
{
    lemma_one(f);
    lemma_pow2_pos(f.one_exp());
    let (x, y) = (f.magnitude(a), f.magnitude(b));
    lemma_units_monotone(f, y, one_magnitude(f));
    lemma_product_parts(f, b, a);
    assert(f.units(y) * f.units(x) <= f.units(x) * pow2(f.one_exp())) by (nonlinear_arith)
        requires
            f.units(y) <= pow2(f.one_exp()),
    ;
    lemma_round_at_most(f, f.units(y) * f.units(x), pow2(f.one_exp()), x);
}

/// Multiplying by one changes no finite number.
pub proof fn multiplying_by_one_changes_nothing(f: Format, a: nat)
    requires
        f.well_sized(a),
        f.is_finite(a),
    ensures
        f.product(one_magnitude(f), a) == a,
        f.product(a, one_magnitude(f)) == a,
{
    lemma_one(f);
    lemma_pow2_pos(f.one_exp());
    lemma_unpack(f, a);
    let x = f.magnitude(a);
    products_commute(f, a, one_magnitude(f));
    assert(pow2(f.one_exp()) * f.units(x) == f.units(x) * pow2(f.one_exp())) by (nonlinear_arith);
    rounding_is_exact_on_numbers(f, x, pow2(f.one_exp()));
}

/// A finite number other than zero, divided by itself, is one.
pub proof fn dividing_by_itself_is_one(f: Format, a: nat)
    requires
        f.is_finite(a),
        f.magnitude(a) > 0,
    ensures
        f.quotient(a, a) == one_magnitude(f),
{
    lemma_one(f);
    let x = f.magnitude(a);
    crate::float::ieee::lemma_units_zero(f);
    lemma_units_strictly_monotone(f, 0, x);
    let u = f.units(x);
    rounding_is_exact_on_numbers(f, one_magnitude(f), u);
    assert(pow2(f.one_exp()) * u == u * pow2(f.one_exp())) by (nonlinear_arith);
}

/// A number less itself is zero.
pub proof fn subtracting_itself_is_zero(f: Format, a: nat)
    requires
        f.is_finite(a),
        f.well_sized(a),
    ensures
        f.sum(a, f.neg(a)) == 0,
{
    lemma_unpack(f, a);
    lemma_pack(f, !f.negative(a), f.magnitude(a));
}

/// The smallest whole number is never rounded down to nothing, and no machine
/// word is too large to be a number.
pub proof fn whole_numbers_are_finite(f: Format, x: nat)
    requires
        x <= u64::MAX,
    ensures
        f.is_finite(f.from_whole(x)),
        !f.negative(f.from_whole(x)),
        f.well_sized(f.from_whole(x)),
        x > 0 ==> f.magnitude(f.from_whole(x)) >= one_magnitude(f),
{
    lemma_one(f);
    lemma2_to64();
    lemma_pow2_pos(f.one_exp());
    let one = pow2(f.one_exp());
    // 2^64 is a number of the format
    let mag: nat = match f {
        Format::Single => 0x5f80_0000,
        Format::Double => 0x43f0_0000_0000_0000,
    };
    assert(f.units(mag) == pow2(64) * one) by {
        reveal(Format::units);
        lemma_hidden(f);
        match f {
            Format::Single => {
                lemma_pow2_adds(23, 190);
                lemma_pow2_adds(64, 149);
            },
            Format::Double => {
                lemma_pow2_adds(52, 1086);
                lemma_pow2_adds(64, 1074);
            },
        }
    }
    assert(x * one <= f.units(mag) * 1) by (nonlinear_arith)
        requires
            x <= pow2(64),
            f.units(mag) == pow2(64) * one,
    ;
    lemma_round_at_most(f, x * one, 1, mag);
    lemma_small_mod(f.from_whole(x), f.sign_weight());
    if x > 0 {
        assert(one * 1 <= x * one) by (nonlinear_arith) requires x >= 1;
        lemma_round_at_least(f, x * one, 1, one_magnitude(f));
    }
}

impl Binary32 {
    /// The order of the summands does not matter.
    pub proof fn plus_commutes(self, other: Binary32)
        ensures
            self.plus(other) == other.plus(self),
    {
        reveal(Binary32::plus);
        sums_commute(Format::Single, self.bits as nat, other.bits as nat);
    }

    /// The order of the factors does not matter.
    pub proof fn times_commutes(self, other: Binary32)
        ensures
            self.times(other) == other.times(self),
    {
        reveal(Binary32::times);
        products_commute(Format::Single, self.bits as nat, other.bits as nat);
    }

    /// Zero, of either sign, added to a finite number changes nothing.
    pub proof fn zero_adds_nothing(self, zero: Binary32)
        requires
            self.finite(),
            zero.finite(),
            zero.rank() == 0,
        ensures
            self.plus(zero).rank() == self.rank(),
            zero.plus(self).rank() == self.rank(),
            self.plus(zero).finite(),
            zero.plus(self).finite(),
    {
        reveal(Binary32::plus);
        reveal(Binary32::finite);
        reveal(Binary32::rank);
        let (a, z) = (self.bits as nat, zero.bits as nat);
        sums_round_once(Format::Single, a, z);
        sums_round_once(Format::Single, z, a);
        adding_zero_changes_nothing(Format::Single, a, z);
    }

    /// One times a finite number is that number.
    pub proof fn one_scales_nothing(self)
        requires
            self.finite(),
        ensures
            Binary32::unit().times(self) == self,
            self.times(Binary32::unit()) == self,
    {
        reveal(Binary32::times);
        reveal(Binary32::finite);
        multiplying_by_one_changes_nothing(Format::Single, self.bits as nat);
    }

    /// A finite number other than zero, over itself, is one.
    pub proof fn itself_over_itself(self)
        requires
            self.finite(),
            self.rank() != 0,
        ensures
            self.over(self) == Binary32::unit(),
    {
        reveal(Binary32::over);
        reveal(Binary32::finite);
        reveal(Binary32::rank);
        dividing_by_itself_is_one(Format::Single, self.bits as nat);
    }

    /// A finite number less itself is zero.
    pub proof fn itself_less_itself(self)
        requires
            self.finite(),
        ensures
            self.minus(self) == Binary32::nothing(),
    {
        reveal(Binary32::plus);
        reveal(Binary32::finite);
        reveal(Binary32::negated);
        let a = self.bits as nat;
        lemma_unpack(Format::Single, a);
        lemma_pack(Format::Single, !Format::Single.negative(a), Format::Single.magnitude(a));
        subtracting_itself_is_zero(Format::Single, a);
    }

    /// Adding the same number keeps the order, and a sum of finite numbers is
    /// always a number.
    pub proof fn plus_keeps_the_order(self, other: Binary32, added: Binary32)
        requires
            self.finite(),
            other.finite(),
            added.finite(),
            self.rank() <= other.rank(),
        ensures
            self.plus(added).rank() <= other.plus(added).rank(),
            !self.plus(added).nan(),
            !other.plus(added).nan(),
    {
        reveal(Binary32::plus);
        reveal(Binary32::finite);
        reveal(Binary32::rank);
        reveal(Binary32::nan);
        let (a, b, c) = (self.bits as nat, other.bits as nat, added.bits as nat);
        sums_round_once(Format::Single, a, c);
        sums_round_once(Format::Single, b, c);
        sums_keep_the_order(Format::Single, a, b, c);
    }

    /// A factor between minus one and one does not make a finite number
    /// larger.
    pub proof fn small_factor_shrinks(self, factor: Binary32)
        requires
            self.finite(),
            factor.absolute().rank() <= Binary32::unit().rank(),
        ensures
            factor.times(self).finite(),
            factor.times(self).absolute().rank() <= self.absolute().rank(),
    {
        reveal(Binary32::times);
        reveal(Binary32::finite);
        reveal(Binary32::rank);
        reveal(Binary32::absolute);
        let (a, b) = (self.bits as nat, factor.bits as nat);
        lemma_sizes(Format::Single);
        lemma_unpack(Format::Single, a);
        lemma_unpack(Format::Single, b);
        lemma_one(Format::Single);
        lemma_pack(Format::Single, false, Format::Single.magnitude(a));
        lemma_pack(Format::Single, false, Format::Single.magnitude(b));
        lemma_product_parts(Format::Single, b, a);
        small_factors_do_not_grow(Format::Single, a, b);
        lemma_pack(Format::Single, false, Format::Single.magnitude(Format::Single.product(b, a)));
    }

    /// What is not finite stays so whatever is added.
    pub proof fn overflow_stays(self, added: Binary32)
        requires
            !self.finite(),
        ensures
            !self.plus(added).finite(),
            !added.plus(self).finite(),
    {
        reveal(Binary32::plus);
        reveal(Binary32::finite);
        let (a, b) = (self.bits as nat, added.bits as nat);
        lemma_sizes(Format::Single);
        lemma_unpack(Format::Single, a);
        lemma_unpack(Format::Single, b);
        lemma_small_mod(Format::Single.nan(), Format::Single.sign_weight());
    }

    /// A machine word becomes a finite number, at least one where the word is.
    pub proof fn words_are_finite(x: nat)
        requires
            x <= u64::MAX,
        ensures
            Binary32::whole(x).finite(),
            Binary32::whole(x).rank() >= 0,
            x > 0 ==> Binary32::whole(x).rank() >= Binary32::unit().rank() > 0,
    {
        reveal(Binary32::whole);
        reveal(Binary32::finite);
        reveal(Binary32::rank);
        whole_numbers_are_finite(Format::Single, x);
        lemma_one(Format::Single);
    }

    /// Of two finite numbers that are not negative, the smaller over the
    /// larger is at most one.
    pub proof fn ratio_at_most_one(self, other: Binary32)
        requires
            self.finite(),
            other.finite(),
            0 <= self.rank() <= other.rank(),
            0 < other.rank(),
        ensures
            self.over(other).finite(),
            self.over(other).absolute().rank() <= Binary32::unit().rank(),
    {
        reveal(Binary32::over);
        reveal(Binary32::finite);
        reveal(Binary32::rank);
        reveal(Binary32::absolute);
        let (a, b) = (self.bits as nat, other.bits as nat);
        lemma_sizes(Format::Single);
        lemma_unpack(Format::Single, a);
        lemma_unpack(Format::Single, b);
        lemma_one(Format::Single);
        let (x, y) = (Format::Single.magnitude(a), Format::Single.magnitude(b));
        lemma_units_monotone(Format::Single, x, y);
        crate::float::ieee::lemma_units_zero(Format::Single);
        lemma_units_strictly_monotone(Format::Single, 0, y);
        let (u, v, one) = (Format::Single.units(x), Format::Single.units(y), pow2(Format::Single.one_exp()));
        assert(u * one <= one * v) by (nonlinear_arith) requires u <= v;
        lemma_round_at_most(Format::Single, u * one, v, one_magnitude(Format::Single));
        lemma_round_limit(Format::Single, u * one, v);
        let m = Format::Single.round(u * one, v);
        lemma_pack(Format::Single, Format::Single.negative(a) != Format::Single.negative(b), m);
        lemma_pack(Format::Single, false, m);
    }

    /// Adding a finite number to a number gives a number, and never makes a
    /// finite one of one that is not.
    pub proof fn running_sums_are_numbers(self, added: Binary32)
        requires
            !self.nan(),
            added.finite(),
        ensures
            !self.plus(added).nan(),
            !self.finite() ==> !self.plus(added).finite(),
    {
        reveal(Binary32::plus);
        reveal(Binary32::finite);
        reveal(Binary32::nan);
        let (a, b) = (self.bits as nat, added.bits as nat);
        lemma_sizes(Format::Single);
        lemma_unpack(Format::Single, a);
        if self.finite() {
            sums_round_once(Format::Single, a, b);
        }
    }

    /// Adding what is not negative makes nothing smaller.
    pub proof fn plus_grows(self, added: Binary32)
        requires
            self.finite(),
            added.finite(),
            0 <= added.rank(),
        ensures
            self.rank() <= self.plus(added).rank(),
    {
        Binary32::nothing().zeros();
        self.zero_adds_nothing(Binary32::nothing());
        self.plus_commutes(added);
        self.plus_commutes(Binary32::nothing());
        reveal(Binary32::rank);
        reveal(Binary32::finite);
        lemma_sizes(Format::Single);
        Binary32::nothing().plus_keeps_the_order(added, self);
    }

    /// Numbers other than zero are told apart by their place in the order.
    pub proof fn ranks_tell_apart(self, other: Binary32)
        requires
            self.rank() == other.rank(),
            self.rank() != 0,
        ensures
            self == other,
    {
        reveal(Binary32::rank);
        lemma_sizes(Format::Single);
        lemma_unpack(Format::Single, self.bits as nat);
        lemma_unpack(Format::Single, other.bits as nat);
    }

    /// Both zeros are finite and share a place in the order.
    pub proof fn zeros(self)
        requires
            self == Binary32::nothing() || self == Binary32::nothing().negated(),
        ensures
            self.finite(),
            self.rank() == 0,
    {
        reveal(Binary32::rank);
        reveal(Binary32::finite);
        reveal(Binary32::negated);
        lemma_sizes(Format::Single);
        lemma_pack(Format::Single, false, 0);
        lemma_pack(Format::Single, true, 0);
    }
}

impl Binary64 {
    /// The order of the summands does not matter.
    pub proof fn plus_commutes(self, other: Binary64)
        ensures
            self.plus(other) == other.plus(self),
    {
        reveal(Binary64::plus);
        sums_commute(Format::Double, self.bits as nat, other.bits as nat);
    }

    /// The order of the factors does not matter.
    pub proof fn times_commutes(self, other: Binary64)
        ensures
            self.times(other) == other.times(self),
    {
        reveal(Binary64::times);
        products_commute(Format::Double, self.bits as nat, other.bits as nat);
    }

    /// Zero, of either sign, added to a finite number changes nothing.
    pub proof fn zero_adds_nothing(self, zero: Binary64)
        requires
            self.finite(),
            zero.finite(),
            zero.rank() == 0,
        ensures
            self.plus(zero).rank() == self.rank(),
            zero.plus(self).rank() == self.rank(),
            self.plus(zero).finite(),
            zero.plus(self).finite(),
    {
        reveal(Binary64::plus);
        reveal(Binary64::finite);
        reveal(Binary64::rank);
        let (a, z) = (self.bits as nat, zero.bits as nat);
        sums_round_once(Format::Double, a, z);
        sums_round_once(Format::Double, z, a);
        adding_zero_changes_nothing(Format::Double, a, z);
    }

    /// One times a finite number is that number.
    pub proof fn one_scales_nothing(self)
        requires
            self.finite(),
        ensures
            Binary64::unit().times(self) == self,
            self.times(Binary64::unit()) == self,
    {
        reveal(Binary64::times);
        reveal(Binary64::finite);
        multiplying_by_one_changes_nothing(Format::Double, self.bits as nat);
    }

    /// A finite number other than zero, over itself, is one.
    pub proof fn itself_over_itself(self)
        requires
            self.finite(),
            self.rank() != 0,
        ensures
            self.over(self) == Binary64::unit(),
    {
        reveal(Binary64::over);
        reveal(Binary64::finite);
        reveal(Binary64::rank);
        dividing_by_itself_is_one(Format::Double, self.bits as nat);
    }

    /// A finite number less itself is zero.
    pub proof fn itself_less_itself(self)
        requires
            self.finite(),
        ensures
            self.minus(self) == Binary64::nothing(),
    {
        reveal(Binary64::plus);
        reveal(Binary64::finite);
        reveal(Binary64::negated);
        let a = self.bits as nat;
        lemma_unpack(Format::Double, a);
        lemma_pack(Format::Double, !Format::Double.negative(a), Format::Double.magnitude(a));
        subtracting_itself_is_zero(Format::Double, a);
    }

    /// Adding the same number keeps the order, and a sum of finite numbers is
    /// always a number.
    pub proof fn plus_keeps_the_order(self, other: Binary64, added: Binary64)
        requires
            self.finite(),
            other.finite(),
            added.finite(),
            self.rank() <= other.rank(),
        ensures
            self.plus(added).rank() <= other.plus(added).rank(),
            !self.plus(added).nan(),
            !other.plus(added).nan(),
    {
        reveal(Binary64::plus);
        reveal(Binary64::finite);
        reveal(Binary64::rank);
        reveal(Binary64::nan);
        let (a, b, c) = (self.bits as nat, other.bits as nat, added.bits as nat);
        sums_round_once(Format::Double, a, c);
        sums_round_once(Format::Double, b, c);
        sums_keep_the_order(Format::Double, a, b, c);
    }

    /// A factor between minus one and one does not make a finite number
    /// larger.
    pub proof fn small_factor_shrinks(self, factor: Binary64)
        requires
            self.finite(),
            factor.absolute().rank() <= Binary64::unit().rank(),
        ensures
            factor.times(self).finite(),
            factor.times(self).absolute().rank() <= self.absolute().rank(),
    {
        reveal(Binary64::times);
        reveal(Binary64::finite);
        reveal(Binary64::rank);
        reveal(Binary64::absolute);
        let (a, b) = (self.bits as nat, factor.bits as nat);
        lemma_sizes(Format::Double);
        lemma_unpack(Format::Double, a);
        lemma_unpack(Format::Double, b);
        lemma_one(Format::Double);
        lemma_pack(Format::Double, false, Format::Double.magnitude(a));
        lemma_pack(Format::Double, false, Format::Double.magnitude(b));
        lemma_product_parts(Format::Double, b, a);
        small_factors_do_not_grow(Format::Double, a, b);
        lemma_pack(Format::Double, false, Format::Double.magnitude(Format::Double.product(b, a)));
    }

    /// What is not finite stays so whatever is added.
    pub proof fn overflow_stays(self, added: Binary64)
        requires
            !self.finite(),
        ensures
            !self.plus(added).finite(),
            !added.plus(self).finite(),
    {
        reveal(Binary64::plus);
        reveal(Binary64::finite);
        let (a, b) = (self.bits as nat, added.bits as nat);
        lemma_sizes(Format::Double);
        lemma_unpack(Format::Double, a);
        lemma_unpack(Format::Double, b);
        lemma_small_mod(Format::Double.nan(), Format::Double.sign_weight());
    }

    /// A machine word becomes a finite number, at least one where the word is.
    pub proof fn words_are_finite(x: nat)
        requires
            x <= u64::MAX,
        ensures
            Binary64::whole(x).finite(),
            Binary64::whole(x).rank() >= 0,
            x > 0 ==> Binary64::whole(x).rank() >= Binary64::unit().rank() > 0,
    {
        reveal(Binary64::whole);
        reveal(Binary64::finite);
        reveal(Binary64::rank);
        whole_numbers_are_finite(Format::Double, x);
        lemma_one(Format::Double);
    }

    /// Of two finite numbers that are not negative, the smaller over the
    /// larger is at most one.
    pub proof fn ratio_at_most_one(self, other: Binary64)
        requires
            self.finite(),
            other.finite(),
            0 <= self.rank() <= other.rank(),
            0 < other.rank(),
        ensures
            self.over(other).finite(),
            self.over(other).absolute().rank() <= Binary64::unit().rank(),
    {
        reveal(Binary64::over);
        reveal(Binary64::finite);
        reveal(Binary64::rank);
        reveal(Binary64::absolute);
        let (a, b) = (self.bits as nat, other.bits as nat);
        lemma_sizes(Format::Double);
        lemma_unpack(Format::Double, a);
        lemma_unpack(Format::Double, b);
        lemma_one(Format::Double);
        let (x, y) = (Format::Double.magnitude(a), Format::Double.magnitude(b));
        lemma_units_monotone(Format::Double, x, y);
        crate::float::ieee::lemma_units_zero(Format::Double);
        lemma_units_strictly_monotone(Format::Double, 0, y);
        let (u, v, one) = (Format::Double.units(x), Format::Double.units(y), pow2(Format::Double.one_exp()));
        assert(u * one <= one * v) by (nonlinear_arith) requires u <= v;
        lemma_round_at_most(Format::Double, u * one, v, one_magnitude(Format::Double));
        lemma_round_limit(Format::Double, u * one, v);
        let m = Format::Double.round(u * one, v);
        lemma_pack(Format::Double, Format::Double.negative(a) != Format::Double.negative(b), m);
        lemma_pack(Format::Double, false, m);
    }

    /// Adding a finite number to a number gives a number, and never makes a
    /// finite one of one that is not.
    pub proof fn running_sums_are_numbers(self, added: Binary64)
        requires
            !self.nan(),
            added.finite(),
        ensures
            !self.plus(added).nan(),
            !self.finite() ==> !self.plus(added).finite(),
    {
        reveal(Binary64::plus);
        reveal(Binary64::finite);
        reveal(Binary64::nan);
        let (a, b) = (self.bits as nat, added.bits as nat);
        lemma_sizes(Format::Double);
        lemma_unpack(Format::Double, a);
        if self.finite() {
            sums_round_once(Format::Double, a, b);
        }
    }

    /// Adding what is not negative makes nothing smaller.
    pub proof fn plus_grows(self, added: Binary64)
        requires
            self.finite(),
            added.finite(),
            0 <= added.rank(),
        ensures
            self.rank() <= self.plus(added).rank(),
    {
        Binary64::nothing().zeros();
        self.zero_adds_nothing(Binary64::nothing());
        self.plus_commutes(added);
        self.plus_commutes(Binary64::nothing());
        reveal(Binary64::rank);
        reveal(Binary64::finite);
        lemma_sizes(Format::Double);
        Binary64::nothing().plus_keeps_the_order(added, self);
    }

    /// Numbers other than zero are told apart by their place in the order.
    pub proof fn ranks_tell_apart(self, other: Binary64)
        requires
            self.rank() == other.rank(),
            self.rank() != 0,
        ensures
            self == other,
    {
        reveal(Binary64::rank);
        lemma_sizes(Format::Double);
        lemma_unpack(Format::Double, self.bits as nat);
        lemma_unpack(Format::Double, other.bits as nat);
    }

    /// Both zeros are finite and share a place in the order.
    pub proof fn zeros(self)
        requires
            self == Binary64::nothing() || self == Binary64::nothing().negated(),
        ensures
            self.finite(),
            self.rank() == 0,
    {
        reveal(Binary64::rank);
        reveal(Binary64::finite);
        reveal(Binary64::negated);
        lemma_sizes(Format::Double);
        lemma_pack(Format::Double, false, 0);
        lemma_pack(Format::Double, true, 0);
    }
}

impl Binary32 {
    /// A count of at most 2^40 added to a sum of at most 2^65 leaves a sum of
    /// at most 2^65, for there a count is less than half the space between two
    /// numbers.
    pub proof fn counts_do_not_overflow(self, count: nat)
        requires
            self.finite(),
            0 <= self.rank() <= 0x6000_0000,
            count <= 0x100_0000_0000,
        ensures
            Binary32::whole(count).finite(),
            0 <= Binary32::whole(count).rank(),
            self.plus(Binary32::whole(count)).finite(),
            0 <= self.plus(Binary32::whole(count)).rank() <= 0x6000_0000,
    {
        let f = Format::Single;
        let added = Binary32::whole(count);
        Binary32::words_are_finite(count);
        self.plus_grows(added);
        lemma_sizes(f);
        reveal(Binary32::plus);
        reveal(Binary32::finite);
        reveal(Binary32::rank);
        reveal(Binary32::whole);
        whole_numbers_are_finite(f, count);
        let (a, b) = (self.bits as nat, added.bits as nat);
        let (most, step): (nat, nat) = (0x6000_0000, 0x5380_0000);
        assert(f.units(most) == pow2(214)) by {
            reveal(Format::units);
            lemma_hidden(f);
            lemma_pow2_adds(23, 191);
        }
        assert(f.units(step) == pow2(189)) by {
            reveal(Format::units);
            lemma_hidden(f);
            lemma_pow2_adds(23, 166);
        }
        lemma2_to64();
        assert(pow2(40) == 0x100_0000_0000) by {
            lemma2_to64_rest();
        }
        lemma_pow2_adds(40, 149);
        let c = (count * pow2(149)) as nat;
        assert(c <= f.units(step) * 1) by (nonlinear_arith)
            requires
                c == count * pow2(149),
                count <= pow2(40),
                f.units(step) == pow2(40) * pow2(149),
        ;
        lemma_round_at_most(f, c, 1, step);
        assert(f.magnitude(b) <= step);
        lemma_units_monotone(f, f.magnitude(b), step);
        lemma_unpack(f, a);
        lemma_units_monotone(f, f.magnitude(a), most);
        sums_round_once(f, a, b);
        // 2^214 + 2^189 rounds to 2^214
        let v = (pow2(214) + pow2(189)) as nat;
        assert(f.round(v, 1) == most) by {
            reveal(Format::round);
            lemma_pow2_pos(189);
            lemma_pow2_strictly_increases(189, 214);
            lemma_pow2_unfold(215);
            lemma_bit_len_unique(v, 215);
            lemma_div_basics(v as int);
            lemma_pow2_adds(23, 191);
            lemma_pow2_adds(2, 189);
            lemma_hidden(f);
            let w = pow2(191);
            assert(1 * w == w);
            assert(v == 0x80_0000 * w + pow2(189)) by (nonlinear_arith)
                requires
                    v == pow2(214) + pow2(189),
                    pow2(214) == pow2(23) * w,
                    pow2(23) == 0x80_0000,
            ;
            assert(w == 4 * pow2(189));
            lemma_fundamental_div_mod_converse(v as int, w as int, 0x80_0000, pow2(189) as int);
        }
        crate::float::ieee::lemma_units_zero(f);
        assert(0 <= f.value(a) <= f.units(most));
        assert(0 <= f.value(b) <= f.units(step));
        let z = (f.value(a) + f.value(b)) as nat;
        assert(z * 1 <= v * 1);
        rounding_keeps_the_order(f, z, 1, v, 1);
        lemma_unpack(f, f.sum(a, b));
    }
}

/// The magnitude of twice a number.
pub open spec fn doubled(f: Format, mag: nat) -> nat {
    if mag < f.hidden() {
        2 * mag
    } else {
        mag + f.hidden()
    }
}

pub proof fn lemma_doubled(f: Format, mag: nat)
    ensures
        f.units(doubled(f, mag)) == 2 * f.units(mag),
{
    reveal(Format::units);
    lemma_hidden(f);
    lemma2_to64();
    let h = f.hidden();
    if mag < h {
        lemma_fundamental_div_mod_converse(mag as int, h as int, 0, mag as int);
        if 2 * mag < h {
            lemma_fundamental_div_mod_converse(2 * mag as int, h as int, 0, 2 * mag as int);
        } else {
            lemma_fundamental_div_mod_converse(2 * mag as int, h as int, 1, 2 * mag - h);
            assert((2 * mag - h + h) * pow2(0) == 2 * mag) by (nonlinear_arith)
                requires
                    pow2(0) == 1,
            ;
        }
    } else {
        let (e, r) = (mag / h, mag % h);
        lemma_fundamental_div_mod(mag as int, h as int);
        assert(h * e + r + h == h * (e + 1) + r) by (nonlinear_arith);
        lemma_fundamental_div_mod_converse((mag + h) as int, h as int, (e + 1) as int, r as int);
        assert(e >= 1) by (nonlinear_arith)
            requires
                h * e + r >= h,
                r < h,
                h > 0,
        ;
        lemma_pow2_unfold(e);
        assert((r + h) * pow2(e) == 2 * ((r + h) * pow2((e - 1) as nat))) by (nonlinear_arith)
            requires
                pow2(e) == 2 * pow2((e - 1) as nat),
        ;
    }
}

/// A finite sum of two numbers, neither of them below a third, is not below
/// twice the third; and the other way round.
proof fn lemma_sum_of_two(f: Format, a: nat, b: nat, l: nat)
    requires
        f.is_finite(a),
        f.is_finite(b),
        f.is_finite(l),
        f.is_finite(f.sum(a, b)),
    ensures
        f.rank(l) <= f.rank(a) && f.rank(l) <= f.rank(b) ==> 2 * f.value(l) <= f.value(f.sum(a, b)),
        f.rank(a) <= f.rank(l) && f.rank(b) <= f.rank(l) ==> f.value(f.sum(a, b)) <= 2 * f.value(l),
{
    ranks_order_numbers(f, a, l);
    ranks_order_numbers(f, b, l);
    ranks_order_numbers(f, l, a);
    ranks_order_numbers(f, l, b);
    sums_round_once(f, a, b);
    crate::float::ieee::lemma_units_zero(f);
    crate::float::ieee::lemma_round_zero(f, 1);
    let z = f.value(a) + f.value(b);
    let s = f.sum(a, b);
    let ml = f.magnitude(l);
    let m2 = doubled(f, ml);
    lemma_doubled(f, ml);
    rounding_is_exact_on_numbers(f, m2, 1);
    let u2 = f.units(m2);
    assert(u2 * 1 == u2);
    let n: nat = if z < 0 {
        (-z) as nat
    } else {
        z as nat
    };
    lemma_round_limit(f, n, 1);
    assert(f.magnitude(s) == f.round(n, 1)) by {
        if z == 0 {
            lemma_pack(f, f.negative(a) && f.negative(b), 0);
        } else {
            lemma_pack(f, z < 0, f.round(n, 1));
        }
    }
    if z != 0 {
        lemma_pack(f, z < 0, f.round(n, 1));
    }
    let r = f.round(n, 1);
    if n <= u2 {
        rounding_keeps_the_order(f, n, 1, u2, 1);
        lemma_units_monotone(f, r, m2);
    }
    if n >= u2 {
        rounding_keeps_the_order(f, u2, 1, n, 1);
        assert(m2 < f.inf());
        lemma_units_monotone(f, m2, r);
    }
}

/// The bit pattern of two.
pub open spec fn two_bits(f: Format) -> nat {
    match f {
        Format::Single => 0x4000_0000,
        Format::Double => 0x4000_0000_0000_0000,
    }
}

/// Half of what is not below twice a number is not below the number; and the
/// other way round.
proof fn lemma_half(f: Format, x: nat, l: nat)
    requires
        f.is_finite(x),
        f.is_finite(l),
    ensures
        !f.is_nan(f.quotient(x, two_bits(f))),
        f.is_finite(f.quotient(x, two_bits(f))),
        f.well_sized(f.quotient(x, two_bits(f))),
        2 * f.value(l) <= f.value(x) ==> f.rank(l) <= f.rank(f.quotient(x, two_bits(f))),
        f.value(x) <= 2 * f.value(l) ==> f.rank(f.quotient(x, two_bits(f))) <= f.rank(l),
{
    let t = two_bits(f);
    lemma_sizes(f);
    lemma_one(f);
    lemma_doubled(f, one_magnitude(f));
    lemma_hidden(f);
    lemma_small_mod(t, f.sign_weight());
    assert(doubled(f, one_magnitude(f)) == t);
    let one = pow2(f.one_exp());
    lemma_pow2_pos(f.one_exp());
    assert(f.units(t) == 2 * one);
    crate::float::ieee::lemma_units_zero(f);
    let (mx, ml) = (f.magnitude(x), f.magnitude(l));
    let (u, v) = (f.units(mx), f.units(ml));
    let q = f.round(u * one, 2 * one);
    lemma_round_limit(f, u * one, 2 * one);
    assert(u * one <= u * (2 * one)) by (nonlinear_arith);
    lemma_round_at_most(f, u * one, 2 * one, mx);
    lemma_pack(f, f.negative(x), q);
    if 2 * v <= u {
        assert(v * (2 * one) <= u * one) by (nonlinear_arith) requires 2 * v <= u;
        lemma_round_at_least(f, u * one, 2 * one, ml);
    }
    if u <= 2 * v {
        assert(u * one <= v * (2 * one)) by (nonlinear_arith) requires u <= 2 * v;
        lemma_round_at_most(f, u * one, 2 * one, ml);
    }
    if u == 0 {
        assert(0 * one == 0);
        crate::float::ieee::lemma_round_zero(f, 2 * one);
    }
    if ml > 0 {
        lemma_units_strictly_monotone(f, 0, ml);
    }
}

impl Binary32 {
    /// Half the sum of two numbers lies between them and whatever bounds
    /// both, unless the sum overflows.
    pub proof fn halves_stay_between(self, other: Binary32, low: Binary32, high: Binary32)
        requires
            self.finite(),
            other.finite(),
            low.finite(),
            high.finite(),
            low.rank() <= self.rank() <= high.rank(),
            low.rank() <= other.rank() <= high.rank(),
            self.plus(other).finite(),
        ensures
            self.plus(other).over(Binary32 { bits: 0x4000_0000 }).finite(),
            low.rank() <= self.plus(other).over(Binary32 { bits: 0x4000_0000 }).rank()
                <= high.rank(),
    {
        reveal(Binary32::plus);
        reveal(Binary32::over);
        reveal(Binary32::finite);
        reveal(Binary32::rank);
        let f = Format::Single;
        lemma_sizes(f);
        let (a, b) = (self.bits as nat, other.bits as nat);
        sums_round_once(f, a, b);
        lemma_sum_of_two(f, a, b, low.bits as nat);
        lemma_sum_of_two(f, a, b, high.bits as nat);
        let x = f.sum(a, b);
        lemma_half(f, x, low.bits as nat);
        lemma_half(f, x, high.bits as nat);
    }
}

/// A number converted is rounded once, with its sign.
pub proof fn lemma_converted(f: Format, to: Format, a: nat)
    requires
        f.is_finite(a),
    ensures
        f.converted(to, a) == to.pack(
            f.negative(a),
            to.round(f.units(f.magnitude(a)) * pow2(to.one_exp()), pow2(f.one_exp())),
        ),
        to.magnitude(f.converted(to, a)) == to.round(
            f.units(f.magnitude(a)) * pow2(to.one_exp()),
            pow2(f.one_exp()),
        ),
        to.negative(f.converted(to, a)) == f.negative(a),
        to.well_sized(f.converted(to, a)),
        !to.is_nan(f.converted(to, a)),
{
    let (n, d) = (f.units(f.magnitude(a)) * pow2(to.one_exp()), pow2(f.one_exp()));
    lemma_round_limit(to, n, d);
    lemma_pack(to, f.negative(a), to.round(n, d));
}

/// Converting keeps the order.
pub proof fn conversions_keep_the_order(f: Format, to: Format, a: nat, b: nat)
    requires
        f.is_finite(a),
        f.is_finite(b),
        f.rank(a) <= f.rank(b),
    ensures
        to.rank(f.converted(to, a)) <= to.rank(f.converted(to, b)),
{
    lemma_converted(f, to, a);
    lemma_converted(f, to, b);
    crate::float::ieee::lemma_units_zero(f);
    let (x, y) = (f.magnitude(a), f.magnitude(b));
    let (w, d) = (pow2(to.one_exp()), pow2(f.one_exp()));
    lemma_pow2_pos(f.one_exp());
    if x <= y {
        lemma_units_monotone(f, x, y);
        lemma_mul_inequality(f.units(x) as int, f.units(y) as int, w as int);
        lemma_mul_inequality((f.units(x) * w) as int, (f.units(y) * w) as int, d as int);
        rounding_keeps_the_order(to, f.units(x) * w, d, f.units(y) * w, d);
    }
    if y <= x {
        lemma_units_monotone(f, y, x);
        lemma_mul_inequality(f.units(y) as int, f.units(x) as int, w as int);
        lemma_mul_inequality((f.units(y) * w) as int, (f.units(x) * w) as int, d as int);
        rounding_keeps_the_order(to, f.units(y) * w, d, f.units(x) * w, d);
    }
    if x == 0 || y == 0 {
        assert(0 * w == 0);
        crate::float::ieee::lemma_round_zero(to, d);
    }
}

/// The double-precision magnitude of a single-precision one.
proof fn lemma_widened(mag: nat) -> (wide: nat)
    requires
        mag < Format::Single.inf(),
    ensures
        wide < Format::Double.inf(),
        Format::Double.units(wide) == Format::Single.units(mag) * pow2(925),
{
    let (s, d) = (Format::Single, Format::Double);
    lemma_sizes(s);
    lemma_sizes(d);
    lemma_hidden(s);
    lemma_hidden(d);
    lemma2_to64();
    lemma2_to64_rest();
    reveal(Format::units);
    let h = s.hidden();
    let (e, r) = (mag / h, mag % h);
    lemma_fundamental_div_mod(mag as int, h as int);
    if e == 0 {
        if r == 0 {
            lemma_small_mod(0, d.hidden());
            lemma_div_of0(d.hidden() as int);
            assert(0 * pow2(925) == 0);
            0
        } else {
            // a subnormal number: r has k binary digits
            let k = bit_len(r);
            lemma_bit_len_bounds(r);
            if k > 23 {
                if k - 1 > 23 {
                    lemma_pow2_strictly_increases(23, (k - 1) as nat);
                }
            }
            let t = (53 - k) as nat;
            let big = (r * pow2(t)) as nat;
            lemma_bit_len_shifted(r, t);
            lemma_bit_len_bounds(big);
            lemma_pow2_pos(t);
            assert(pow2(52) <= big < pow2(53));
            let fr = (big - d.hidden()) as nat;
            let ex = (925 - t + 1) as nat;
            let wide = (ex * d.hidden() + fr) as nat;
            lemma_fundamental_div_mod_converse(wide as int, d.hidden() as int, ex as int, fr as int);
            lemma_pow2_adds(t, (ex - 1) as nat);
            assert((r * pow2(t)) * pow2((ex - 1) as nat) == r * pow2(925)) by (nonlinear_arith)
                requires
                    pow2(t) * pow2((ex - 1) as nat) == pow2(925),
            ;
            wide
        }
    } else {
        let fr = (r * pow2(29)) as nat;
        let ex = (e + 896) as nat;
        let wide = (ex * d.hidden() + fr) as nat;
        lemma_pow2_adds(23, 29);
        assert(fr < d.hidden()) by (nonlinear_arith)
            requires
                fr == r * pow2(29),
                r < pow2(23),
                d.hidden() == pow2(23) * pow2(29),
                pow2(29) > 0,
        ;
        lemma_fundamental_div_mod_converse(wide as int, d.hidden() as int, ex as int, fr as int);
        lemma_pow2_adds((e - 1) as nat, 896);
        lemma_pow2_adds(29, (ex - 1) as nat);
        lemma_pow2_adds((e - 1) as nat, 925);
        assert((fr + d.hidden()) * pow2((ex - 1) as nat) == ((r + h) * pow2((e - 1) as nat)) * pow2(
            925,
        )) by (nonlinear_arith)
            requires
                fr == r * pow2(29),
                d.hidden() == h * pow2(29),
                pow2(29) * pow2((ex - 1) as nat) == pow2((e - 1) as nat) * pow2(925),
        {
            assert((r * pow2(29) + h * pow2(29)) * pow2((ex - 1) as nat) == (r + h) * (pow2(29)
                * pow2((ex - 1) as nat)));
            assert(((r + h) * pow2((e - 1) as nat)) * pow2(925) == (r + h) * (pow2((e - 1) as nat)
                * pow2(925)));
        }
        assert(e <= 254) by (nonlinear_arith)
            requires
                h * e + r < 255 * h,
                r >= 0,
                h > 0,
        ;
        wide
    }
}

impl Binary32 {
    /// Double precision holds every finite single-precision number exactly.
    pub proof fn widening_is_exact(self)
        requires
            self.finite(),
        ensures
            self.as_binary64().finite(),
            Format::Double.value(self.as_binary64().bits as nat) == Format::Single.value(
                self.bits as nat,
            ) * pow2(925),
            self.as_binary64().as_binary32() == self,
    {
        reveal(Binary32::finite);
        reveal(Binary32::as_binary64);
        reveal(Binary64::finite);
        reveal(Binary64::as_binary32);
        let (s, d) = (Format::Single, Format::Double);
        lemma_sizes(s);
        lemma_sizes(d);
        let a = self.bits as nat;
        lemma_unpack(s, a);
        lemma_converted(s, d, a);
        let x = s.magnitude(a);
        let wide = lemma_widened(x);
        let u = s.units(x);
        lemma_pow2_adds(149, 925);
        lemma_pow2_pos(149);
        lemma_pow2_pos(1074);
        assert(u * pow2(1074) == d.units(wide) * pow2(149)) by (nonlinear_arith)
            requires
                pow2(1074) == pow2(149) * pow2(925),
                d.units(wide) == u * pow2(925),
        ;
        rounding_is_exact_on_numbers(d, wide, pow2(149));
        let b = s.converted(d, a);
        assert(d.magnitude(b) == wide);
        assert(-(u as int) * pow2(925) == -((u * pow2(925)) as int)) by (nonlinear_arith);
        lemma_converted(d, s, b);
        assert(d.units(wide) * pow2(149) == u * pow2(1074));
        rounding_is_exact_on_numbers(s, x, pow2(1074));
    }

    /// Widening keeps the order.
    pub proof fn widening_keeps_the_order(self, other: Binary32)
        requires
            self.finite(),
            other.finite(),
            self.rank() <= other.rank(),
        ensures
            self.as_binary64().rank() <= other.as_binary64().rank(),
    {
        reveal(Binary32::finite);
        reveal(Binary32::rank);
        reveal(Binary32::as_binary64);
        reveal(Binary64::rank);
        let (s, d) = (Format::Single, Format::Double);
        lemma_sizes(d);
        lemma_converted(s, d, self.bits as nat);
        lemma_converted(s, d, other.bits as nat);
        conversions_keep_the_order(s, d, self.bits as nat, other.bits as nat);
    }
}

impl Binary32 {
    /// The difference of two finite single-precision numbers is finite in
    /// double precision.
    pub proof fn wide_differences_are_finite(self, other: Binary32)
        requires
            self.finite(),
            other.finite(),
        ensures
            self.as_binary64().minus(other.as_binary64()).finite(),
    {
        let (s, d) = (Format::Single, Format::Double);
        self.widening_is_exact();
        other.widening_is_exact();
        reveal(Binary32::finite);
        reveal(Binary64::finite);
        reveal(Binary64::plus);
        reveal(Binary64::negated);
        lemma_sizes(s);
        lemma_sizes(d);
        let (x, y) = (s.magnitude(self.bits as nat), s.magnitude(other.bits as nat));
        // every single-precision number is below 2^277 of its units
        assert(s.units(s.inf()) == pow2(277)) by {
            reveal(Format::units);
            lemma_hidden(s);
            lemma_pow2_adds(23, 254);
        }
        lemma_units_monotone(s, x, s.inf());
        lemma_units_monotone(s, y, s.inf());
        lemma_pow2_adds(277, 925);
        lemma_mul_inequality(s.units(x) as int, pow2(277) as int, pow2(925) as int);
        lemma_mul_inequality(s.units(y) as int, pow2(277) as int, pow2(925) as int);
        lemma_pow2_unfold(1203);
        let most: nat = 1152 * 0x10_0000_0000_0000;
        assert(d.units(most) == pow2(1203)) by {
            reveal(Format::units);
            lemma_hidden(d);
            lemma_pow2_adds(52, 1151);
        }
        let (a, b) = (self.as_binary64().bits as nat, other.as_binary64().bits as nat);
        let c = d.neg(b);
        lemma_unpack(d, b);
        lemma_pack(d, !d.negative(b), d.magnitude(b));
        let va = d.value(a);
        let vc = d.value(c);
        assert(-(s.units(x) as int) * pow2(925) == -((s.units(x) * pow2(925)) as int)) by (nonlinear_arith);
        assert(-(s.units(y) as int) * pow2(925) == -((s.units(y) * pow2(925)) as int)) by (nonlinear_arith);
        assert(-pow2(1202) <= va <= pow2(1202));
        assert(-pow2(1202) <= vc <= pow2(1202));
        sums_round_once(d, a, c);
        let z = va + vc;
        let n: nat = if z < 0 {
            (-z) as nat
        } else {
            z as nat
        };
        lemma_round_at_most(d, n, 1, most);
        lemma_unpack(d, d.sum(a, c));
    }
}

impl Binary64 {
    /// Narrowing keeps the order.
    pub proof fn narrowing_keeps_the_order(self, other: Binary64)
        requires
            !self.nan(),
            !other.nan(),
            self.rank() <= other.rank(),
        ensures
            !self.as_binary32().nan(),
            !other.as_binary32().nan(),
            self.as_binary32().rank() <= other.as_binary32().rank(),
    {
        reveal(Binary32::nan);
        reveal(Binary32::rank);
        reveal(Binary64::as_binary32);
        reveal(Binary64::nan);
        reveal(Binary64::rank);
        let (s, d) = (Format::Single, Format::Double);
        lemma_sizes(s);
        lemma_sizes(d);
        let (a, b) = (self.bits as nat, other.bits as nat);
        lemma_unpack(d, a);
        lemma_unpack(d, b);
        lemma_pack(s, true, s.inf());
        lemma_pack(s, false, s.inf());
        if d.is_finite(a) {
            lemma_converted(d, s, a);
            lemma_round_limit(
                s,
                d.units(d.magnitude(a)) * pow2(s.one_exp()),
                pow2(d.one_exp()),
            );
        }
        if d.is_finite(b) {
            lemma_converted(d, s, b);
            lemma_round_limit(
                s,
                d.units(d.magnitude(b)) * pow2(s.one_exp()),
                pow2(d.one_exp()),
            );
        }
        if d.is_finite(a) && d.is_finite(b) {
            conversions_keep_the_order(d, s, a, b);
        }
    }

    /// Adding a number that is not negative, be it an infinity, makes nothing
    /// smaller.
    pub proof fn adding_what_is_not_negative(self, added: Binary64)
        requires
            self.finite(),
            !added.nan(),
            0 <= added.rank(),
        ensures
            !self.plus(added).nan(),
            self.rank() <= self.plus(added).rank(),
    {
        if added.finite() {
            self.plus_grows(added);
            self.plus_keeps_the_order(self, added);
        } else {
            reveal(Binary64::plus);
            reveal(Binary64::finite);
            reveal(Binary64::nan);
            reveal(Binary64::rank);
            lemma_sizes(Format::Double);
            lemma_unpack(Format::Double, self.bits as nat);
            lemma_unpack(Format::Double, added.bits as nat);
        }
    }

    /// A finite number times itself is a number and not below zero.
    pub proof fn squares_are_not_negative(self)
        requires
            self.finite(),
        ensures
            !self.times(self).nan(),
            0 <= self.times(self).rank(),
    {
        reveal(Binary64::finite);
        reveal(Binary64::times);
        reveal(Binary64::nan);
        reveal(Binary64::rank);
        lemma_sizes(Format::Double);
        lemma_product_parts(Format::Double, self.bits as nat, self.bits as nat);
    }
}

impl Binary64 {
    /// Adding the same number keeps the order, infinities included, where no
    /// infinity meets one of the other sign.
    pub proof fn wide_sums_keep_the_order(self, other: Binary64, added: Binary64)
        requires
            !self.nan(),
            !other.nan(),
            !added.nan(),
            self.rank() <= other.rank(),
            added.finite() || (0 <= self.rank() && 0 <= added.rank()),
        ensures
            !self.plus(added).nan(),
            !other.plus(added).nan(),
            self.plus(added).rank() <= other.plus(added).rank(),
            0 <= self.rank() && 0 <= added.rank() ==> 0 <= self.plus(added).rank(),
    {
        let d = Format::Double;
        reveal(Binary64::plus);
        reveal(Binary64::finite);
        reveal(Binary64::nan);
        reveal(Binary64::rank);
        lemma_sizes(d);
        let (a, b, c) = (self.bits as nat, other.bits as nat, added.bits as nat);
        lemma_unpack(d, a);
        lemma_unpack(d, b);
        lemma_unpack(d, c);
        if d.is_finite(c) {
            if d.is_finite(a) {
                sums_round_once(d, a, c);
                lemma_round_limit(d, 0, 1);
                ranks_order_numbers(d, 0, a);
                ranks_order_numbers(d, 0, c);
                lemma_zero_value(d);
                if 0 <= self.rank() && 0 <= added.rank() {
                    lemma_rounded_monotone(d, 0, d.value(a) + d.value(c));
                    crate::float::ieee::lemma_round_zero(d, 1);
                }
            }
            if d.is_finite(b) {
                sums_round_once(d, b, c);
            }
            if d.is_finite(a) && d.is_finite(b) {
                sums_keep_the_order(d, a, b, c);
            }
            lemma_rank_limit(d, d.sum(a, c));
            lemma_rank_limit(d, d.sum(b, c));
        }
    }

    /// A factor that is not negative keeps the order of the other factor.
    pub proof fn wide_products_keep_the_order(self, low: Binary64, high: Binary64)
        requires
            !self.nan(),
            0 <= self.rank(),
            low.finite(),
            high.finite(),
            0 < low.rank() <= high.rank(),
        ensures
            !self.times(low).nan(),
            !self.times(high).nan(),
            0 <= self.times(low).rank() <= self.times(high).rank(),
    {
        let d = Format::Double;
        reveal(Binary64::times);
        reveal(Binary64::finite);
        reveal(Binary64::nan);
        reveal(Binary64::rank);
        lemma_sizes(d);
        let (a, x, y) = (self.bits as nat, low.bits as nat, high.bits as nat);
        lemma_unpack(d, a);
        lemma_unpack(d, x);
        lemma_unpack(d, y);
        lemma_pack(d, true, d.inf());
        lemma_pack(d, false, d.inf());
        if d.is_finite(a) {
            lemma_product_parts(d, a, x);
            lemma_product_parts(d, a, y);
            crate::float::ieee::lemma_units_zero(d);
            let u = d.units(d.magnitude(a));
            let (v, w) = (d.units(d.magnitude(x)), d.units(d.magnitude(y)));
            lemma_units_monotone(d, d.magnitude(x), d.magnitude(y));
            let one = pow2(d.one_exp());
            lemma_pow2_pos(d.one_exp());
            assert((u * v) * one <= (u * w) * one) by (nonlinear_arith) requires v <= w;
            rounding_keeps_the_order(d, u * v, one, u * w, one);
            if d.magnitude(a) == 0 {
                assert(0 * v == 0 && 0 * w == 0);
                crate::float::ieee::lemma_round_zero(d, one);
            }
        }
    }

    /// Larger words are not smaller numbers.
    pub proof fn words_keep_the_order(x: nat, y: nat)
        requires
            x <= y <= u64::MAX,
        ensures
            Binary64::whole(x).rank() <= Binary64::whole(y).rank(),
    {
        let d = Format::Double;
        reveal(Binary64::whole);
        reveal(Binary64::rank);
        lemma_sizes(d);
        whole_numbers_are_finite(d, x);
        whole_numbers_are_finite(d, y);
        let one = pow2(d.one_exp());
        assert((x * one) * 1 <= (y * one) * 1) by (nonlinear_arith) requires x <= y;
        rounding_keeps_the_order(d, x * one, 1, y * one, 1);
    }

    /// A positive finite number over a number that is not negative is a
    /// number and not negative.
    pub proof fn ratios_are_not_negative(self, divisor: Binary64)
        requires
            self.finite(),
            0 < self.rank(),
            !divisor.nan(),
            divisor.finite() || 0 <= divisor.rank(),
            !divisor.signed(),
        ensures
            !self.over(divisor).nan(),
            0 <= self.over(divisor).rank(),
    {
        let d = Format::Double;
        reveal(Binary64::over);
        reveal(Binary64::finite);
        reveal(Binary64::nan);
        reveal(Binary64::rank);
        lemma_sizes(d);
        let (a, b) = (self.bits as nat, divisor.bits as nat);
        lemma_unpack(d, a);
        lemma_unpack(d, b);
        lemma_pack(d, false, d.inf());
        lemma_pack(d, false, 0);
        let (n, m) = (d.units(d.magnitude(a)) * pow2(d.one_exp()), d.units(d.magnitude(b)));
        lemma_round_limit(d, n, m);
        lemma_pack(d, false, d.round(n, m));
    }

    /// A bit pattern without a sign is its own place in the order, and finite
    /// below that of the infinity.
    pub proof fn unsigned_patterns(self)
        requires
            !self.signed(),
        ensures
            self.rank() == self.bits,
            self.finite() == (self.bits < 0x7ff0_0000_0000_0000),
            self.nan() == (self.bits > 0x7ff0_0000_0000_0000),
    {
        reveal(Binary64::rank);
        reveal(Binary64::finite);
        reveal(Binary64::nan);
        lemma_sizes(Format::Double);
        lemma_small_mod(self.bits as nat, Format::Double.sign_weight());
    }

    /// Whether the sign bit is set.
    pub open spec fn signed(self) -> bool {
        self.bits >= 0x8000_0000_0000_0000
    }

    /// Twice a number, times the number, has no sign and is a number.
    pub proof fn twice_a_square(self)
        requires
            !self.nan(),
        ensures
            !(Binary64 { bits: 0x4000_0000_0000_0000 }).times(self).times(self).signed(),
            !(Binary64 { bits: 0x4000_0000_0000_0000 }).times(self).times(self).nan(),
    {
        let d = Format::Double;
        reveal(Binary64::times);
        reveal(Binary64::nan);
        lemma_sizes(d);
        let a = self.bits as nat;
        let two: nat = 0x4000_0000_0000_0000;
        lemma_small_mod(two, d.sign_weight());
        lemma_unpack(d, a);
        lemma_pack(d, true, d.inf());
        lemma_pack(d, false, d.inf());
        let b = d.product(two, a);
        if d.is_finite(a) {
            lemma_product_parts(d, two, a);
            lemma_unpack(d, b);
            if d.is_finite(b) {
                lemma_product_parts(d, b, a);
            } else if d.magnitude(a) == 0 {
                crate::float::ieee::lemma_units_zero(d);
                lemma_pow2_pos(d.one_exp());
                crate::float::ieee::lemma_round_zero(d, pow2(d.one_exp()));
                assert(d.units(two) * 0 == 0);
            }
        }
    }
}

proof fn lemma_zero_value(f: Format)
    ensures
        f.value(0) == 0,
        f.rank(0) == 0,
{
    crate::float::ieee::lemma_units_zero(f);
    lemma_sizes(f);
    lemma_small_mod(0, f.sign_weight());
}

/// No number ranks beyond the infinities.
proof fn lemma_rank_limit(f: Format, a: nat)
    requires
        !f.is_nan(a),
    ensures
        -(f.inf() as int) <= f.rank(a) <= f.inf(),
{
}

impl Binary32 {
    /// Whether the sign bit is set.
    pub open spec fn signed(self) -> bool {
        self.bits >= 0x8000_0000
    }

    /// A bit pattern without a sign is its own place in the order, and finite
    /// below that of the infinity.
    pub proof fn unsigned_patterns(self)
        requires
            !self.signed(),
        ensures
            self.rank() == self.bits,
            self.finite() == (self.bits < 0x7f80_0000),
            self.nan() == (self.bits > 0x7f80_0000),
    {
        reveal(Binary32::rank);
        reveal(Binary32::finite);
        reveal(Binary32::nan);
        lemma_sizes(Format::Single);
        lemma_small_mod(self.bits as nat, Format::Single.sign_weight());
    }

    /// A finite number is a number.
    pub proof fn finite_is_a_number(self)
        requires
            self.finite(),
        ensures
            !self.nan(),
    {
        reveal(Binary32::finite);
        reveal(Binary32::nan);
    }

    /// A number between two finite ones is finite.
    pub proof fn between_finite_numbers(self, low: Binary32, high: Binary32)
        requires
            !self.nan(),
            low.finite(),
            high.finite(),
        ensures
            low.rank() <= self.rank() <= high.rank() ==> self.finite(),
    {
        reveal(Binary32::finite);
        reveal(Binary32::nan);
        reveal(Binary32::rank);
    }

    /// A finite number less a number, be it an infinity, is a number.
    pub proof fn less_a_number(self, other: Binary32)
        requires
            self.finite(),
            !other.nan(),
        ensures
            !self.minus(other).nan(),
    {
        let f = Format::Single;
        reveal(Binary32::finite);
        reveal(Binary32::nan);
        reveal(Binary32::plus);
        reveal(Binary32::negated);
        lemma_sizes(f);
        let (a, b) = (self.bits as nat, other.bits as nat);
        lemma_unpack(f, b);
        lemma_pack(f, !f.negative(b), f.magnitude(b));
        let c = f.neg(b);
        if f.is_finite(c) {
            sums_round_once(f, a, c);
        }
    }

    /// A finite number that is not negative over a positive one is a number
    /// and not negative.
    pub proof fn ratio_is_not_negative(self, other: Binary32)
        requires
            self.finite(),
            other.finite(),
            0 <= self.rank(),
            0 < other.rank(),
        ensures
            !self.over(other).nan(),
            0 <= self.over(other).rank(),
    {
        let f = Format::Single;
        reveal(Binary32::finite);
        reveal(Binary32::nan);
        reveal(Binary32::rank);
        reveal(Binary32::over);
        lemma_sizes(f);
        let (a, b) = (self.bits as nat, other.bits as nat);
        lemma_unpack(f, a);
        lemma_unpack(f, b);
        crate::float::ieee::lemma_units_zero(f);
        lemma_units_strictly_monotone(f, 0, f.magnitude(b));
        let (n, d) = (f.units(f.magnitude(a)) * pow2(f.one_exp()), f.units(f.magnitude(b)));
        lemma_round_limit(f, n, d);
        lemma_pack(f, f.negative(a) != f.negative(b), f.round(n, d));
        if f.magnitude(a) == 0 {
            assert(0 * pow2(f.one_exp()) == 0);
            crate::float::ieee::lemma_round_zero(f, d);
        }
    }

    /// The difference of two numbers apart is not rounded to nothing.
    pub proof fn gap_is_positive(self, other: Binary32)
        requires
            self.finite(),
            other.finite(),
            0 <= other.rank() < self.rank(),
        ensures
            self.minus(other).finite(),
            0 < self.minus(other).rank(),
    {
        let f = Format::Single;
        reveal(Binary32::finite);
        reveal(Binary32::rank);
        reveal(Binary32::plus);
        reveal(Binary32::negated);
        lemma_sizes(f);
        let (a, b) = (self.bits as nat, other.bits as nat);
        lemma_unpack(f, a);
        lemma_unpack(f, b);
        lemma_pack(f, !f.negative(b), f.magnitude(b));
        let c = f.neg(b);
        ranks_order_numbers(f, a, b);
        ranks_order_numbers(f, b, a);
        sums_round_once(f, a, c);
        crate::float::ieee::lemma_units_zero(f);
        let z = (f.value(a) - f.value(b)) as nat;
        assert(f.value(c) == -f.value(b));
        assert(f.units(1) == 1) by {
            reveal(Format::units);
            lemma_hidden(f);
            lemma_fundamental_div_mod_converse(1, f.hidden() as int, 0, 1);
        }
        lemma_round_at_least(f, z, 1, 1);
        lemma_round_at_most(f, z, 1, f.magnitude(a));
        lemma_unpack(f, f.sum(a, c));
    }
}

impl Binary64 {
    /// A finite number that is not negative over a number above zero, be it
    /// an infinity, is a number and not negative.
    pub proof fn fractions_are_not_negative(self, divisor: Binary64)
        requires
            self.finite(),
            0 <= self.rank(),
            !divisor.nan(),
            0 < divisor.rank(),
        ensures
            !self.over(divisor).nan(),
            0 <= self.over(divisor).rank(),
    {
        let f = Format::Double;
        reveal(Binary64::finite);
        reveal(Binary64::nan);
        reveal(Binary64::rank);
        reveal(Binary64::over);
        lemma_sizes(f);
        let (a, b) = (self.bits as nat, divisor.bits as nat);
        lemma_unpack(f, a);
        lemma_unpack(f, b);
        lemma_pack(f, true, 0);
        lemma_pack(f, false, 0);
        crate::float::ieee::lemma_units_zero(f);
        lemma_units_strictly_monotone(f, 0, f.magnitude(b));
        let (n, d) = (f.units(f.magnitude(a)) * pow2(f.one_exp()), f.units(f.magnitude(b)));
        lemma_round_limit(f, n, d);
        lemma_pack(f, f.negative(a) != f.negative(b), f.round(n, d));
        if f.magnitude(a) == 0 {
            assert(0 * pow2(f.one_exp()) == 0);
            crate::float::ieee::lemma_round_zero(f, d);
        }
    }

    /// A number between two finite ones is finite.
    pub proof fn between_finite(self, low: Binary64, high: Binary64)
        requires
            !self.nan(),
            low.finite(),
            high.finite(),
        ensures
            low.rank() <= self.rank() <= high.rank() ==> self.finite(),
    {
        reveal(Binary64::finite);
        reveal(Binary64::nan);
        reveal(Binary64::rank);
    }
}

impl Binary32 {
    /// Zero is zero in double precision.
    pub proof fn widens_to_nothing(self)
        requires
            self.finite(),
            self.rank() == 0,
        ensures
            self.as_binary64().rank() == 0,
    {
        let (s, d) = (Format::Single, Format::Double);
        reveal(Binary32::finite);
        reveal(Binary32::rank);
        reveal(Binary32::as_binary64);
        reveal(Binary64::rank);
        lemma_sizes(d);
        lemma_converted(s, d, self.bits as nat);
        crate::float::ieee::lemma_units_zero(s);
        assert(0 * pow2(d.one_exp()) == 0);
        lemma_pow2_pos(s.one_exp());
        crate::float::ieee::lemma_round_zero(d, pow2(s.one_exp()));
    }
}

impl Binary64 {
    /// Zero is zero in single precision.
    pub proof fn narrows_to_nothing(self)
        requires
            self.finite(),
            self.rank() == 0,
        ensures
            self.as_binary32().finite(),
            self.as_binary32().rank() == 0,
    {
        let (s, d) = (Format::Single, Format::Double);
        reveal(Binary64::finite);
        reveal(Binary64::rank);
        reveal(Binary64::as_binary32);
        reveal(Binary32::rank);
        reveal(Binary32::finite);
        lemma_sizes(s);
        lemma_converted(d, s, self.bits as nat);
        crate::float::ieee::lemma_units_zero(d);
        assert(0 * pow2(s.one_exp()) == 0);
        lemma_pow2_pos(d.one_exp());
        crate::float::ieee::lemma_round_zero(s, pow2(d.one_exp()));
    }

    /// The root of zero is zero.
    pub proof fn root_of_nothing(self)
        requires
            self.finite(),
            self.rank() == 0,
        ensures
            self.root() == self,
    {
        reveal(Binary64::finite);
        reveal(Binary64::rank);
        reveal(Binary64::root);
    }
}

impl Binary32 {
    /// The whole number one is one.
    pub proof fn one_is_whole()
        ensures
            Binary32::whole(1) == Binary32::unit(),
    {
        let f = Format::Single;
        reveal(Binary32::whole);
        lemma_one(f);
        rounding_is_exact_on_numbers(f, one_magnitude(f), 1);
        assert(1 * pow2(f.one_exp()) == pow2(f.one_exp()) * 1);
    }
}

impl Binary32 {
    /// A finite number over one is that number.
    pub proof fn over_one(self)
        requires
            self.finite(),
        ensures
            self.over(Binary32::unit()) == self,
    {
        let f = Format::Single;
        reveal(Binary32::finite);
        reveal(Binary32::over);
        lemma_sizes(f);
        lemma_one(f);
        lemma_pow2_pos(f.one_exp());
        let a = self.bits as nat;
        lemma_unpack(f, a);
        rounding_is_exact_on_numbers(f, f.magnitude(a), pow2(f.one_exp()));
        lemma_small_mod(one_magnitude(f), f.sign_weight());
        crate::float::ieee::lemma_units_zero(f);
    }
}

impl Binary32 {
    /// A number over a positive finite one is a number.
    pub proof fn over_a_positive(self, divisor: Binary32)
        requires
            !self.nan(),
            divisor.finite(),
            0 < divisor.rank(),
        ensures
            !self.over(divisor).nan(),
    {
        let f = Format::Single;
        reveal(Binary32::finite);
        reveal(Binary32::nan);
        reveal(Binary32::rank);
        reveal(Binary32::over);
        lemma_sizes(f);
        let (a, b) = (self.bits as nat, divisor.bits as nat);
        lemma_unpack(f, a);
        lemma_unpack(f, b);
        lemma_pack(f, true, f.inf());
        lemma_pack(f, false, f.inf());
        let (n, d) = (f.units(f.magnitude(a)) * pow2(f.one_exp()), f.units(f.magnitude(b)));
        lemma_round_limit(f, n, d);
        lemma_pack(f, f.negative(a) != f.negative(b), f.round(n, d));
    }

    /// A number that is not negative is its own absolute value, up to the
    /// sign of zero.
    pub proof fn not_negative_is_absolute(self)
        requires
            0 <= self.rank(),
        ensures
            self.absolute().rank() == self.rank(),
    {
        let f = Format::Single;
        reveal(Binary32::rank);
        reveal(Binary32::absolute);
        lemma_sizes(f);
        lemma_unpack(f, self.bits as nat);
        lemma_pack(f, false, f.magnitude(self.bits as nat));
    }

    /// The square of a number, be it an infinity, is a number and not
    /// negative.
    pub proof fn square_is_not_negative(self)
        requires
            !self.nan(),
        ensures
            !self.times(self).nan(),
            0 <= self.times(self).rank(),
    {
        let f = Format::Single;
        reveal(Binary32::nan);
        reveal(Binary32::rank);
        reveal(Binary32::times);
        lemma_sizes(f);
        let a = self.bits as nat;
        lemma_unpack(f, a);
        lemma_pack(f, false, f.inf());
        if f.is_finite(a) {
            lemma_product_parts(f, a, a);
        }
    }

    /// The sum of two numbers that are not negative, be they infinities, is
    /// such a number.
    pub proof fn lengths_add_up(self, added: Binary32)
        requires
            !self.nan(),
            0 <= self.rank(),
            !added.nan(),
            0 <= added.rank(),
        ensures
            !self.plus(added).nan(),
            0 <= self.plus(added).rank(),
    {
        let f = Format::Single;
        reveal(Binary32::nan);
        reveal(Binary32::rank);
        reveal(Binary32::plus);
        lemma_sizes(f);
        let (a, b) = (self.bits as nat, added.bits as nat);
        lemma_unpack(f, a);
        lemma_unpack(f, b);
        if f.is_finite(a) && f.is_finite(b) {
            sums_round_once(f, a, b);
            lemma_zero_value(f);
            ranks_order_numbers(f, 0, a);
            ranks_order_numbers(f, 0, b);
            lemma_rounded_monotone(f, 0, f.value(a) + f.value(b));
            crate::float::ieee::lemma_round_zero(f, 1);
        }
    }

    /// The root of a number that is not negative is such a number, that of
    /// zero is zero, and that of an infinity is one.
    pub proof fn root_of_a_length(self)
        requires
            !self.nan(),
            0 <= self.rank(),
        ensures
            !self.root().nan(),
            0 <= self.root().rank(),
            self.rank() == 0 ==> self.root().rank() == 0,
            !self.finite() ==> !self.root().finite(),
    {
        let f = Format::Single;
        reveal(Binary32::finite);
        reveal(Binary32::nan);
        reveal(Binary32::rank);
        reveal(Binary32::root);
        lemma_sizes(f);
        let a = self.bits as nat;
        lemma_unpack(f, a);
        crate::float::ieee::lemma_root_bounded(f, f.units(a));
        lemma_small_mod(f.round_sqrt(f.units(a)), f.sign_weight());
    }

    /// A finite number that is not negative over a number above zero, be it
    /// an infinity, is a number and not negative.
    pub proof fn over_a_length(self, divisor: Binary32)
        requires
            self.finite(),
            0 <= self.rank(),
            !divisor.nan(),
            0 < divisor.rank(),
        ensures
            !self.over(divisor).nan(),
            0 <= self.over(divisor).rank(),
    {
        let f = Format::Single;
        reveal(Binary32::finite);
        reveal(Binary32::nan);
        reveal(Binary32::rank);
        reveal(Binary32::over);
        lemma_sizes(f);
        let (a, b) = (self.bits as nat, divisor.bits as nat);
        lemma_unpack(f, a);
        lemma_unpack(f, b);
        lemma_pack(f, true, 0);
        lemma_pack(f, false, 0);
        if f.is_finite(b) {
            self.ratio_is_not_negative(divisor);
        }
    }
}

impl Binary64 {
    /// A finite number is a number.
    pub proof fn finite_is_a_number(self)
        requires
            self.finite(),
        ensures
            !self.nan(),
    {
        reveal(Binary64::finite);
        reveal(Binary64::nan);
    }

    /// The square of a number, be it an infinity, is a number and not
    /// negative, and that of an infinity is one.
    pub proof fn square_is_not_negative(self)
        requires
            !self.nan(),
        ensures
            !self.times(self).nan(),
            0 <= self.times(self).rank(),
            !self.finite() ==> !self.times(self).finite(),
    {
        let f = Format::Double;
        reveal(Binary64::finite);
        reveal(Binary64::nan);
        reveal(Binary64::rank);
        reveal(Binary64::times);
        lemma_sizes(f);
        let a = self.bits as nat;
        lemma_unpack(f, a);
        lemma_pack(f, false, f.inf());
        if f.is_finite(a) {
            lemma_product_parts(f, a, a);
        }
    }

    /// The sum of two numbers that are not negative, be they infinities, is
    /// such a number.
    pub proof fn lengths_add_up(self, added: Binary64)
        requires
            !self.nan(),
            0 <= self.rank(),
            !added.nan(),
            0 <= added.rank(),
        ensures
            !self.plus(added).nan(),
            0 <= self.plus(added).rank(),
    {
        let f = Format::Double;
        reveal(Binary64::nan);
        reveal(Binary64::rank);
        reveal(Binary64::plus);
        lemma_sizes(f);
        let (a, b) = (self.bits as nat, added.bits as nat);
        lemma_unpack(f, a);
        lemma_unpack(f, b);
        if f.is_finite(a) && f.is_finite(b) {
            sums_round_once(f, a, b);
            lemma_zero_value(f);
            ranks_order_numbers(f, 0, a);
            ranks_order_numbers(f, 0, b);
            lemma_rounded_monotone(f, 0, f.value(a) + f.value(b));
            crate::float::ieee::lemma_round_zero(f, 1);
        }
    }

    /// The root of a number that is not negative is such a number, that of
    /// zero is zero, and that of an infinity is one.
    pub proof fn root_of_a_length(self)
        requires
            !self.nan(),
            0 <= self.rank(),
        ensures
            !self.root().nan(),
            0 <= self.root().rank(),
            self.rank() == 0 ==> self.root().rank() == 0,
            !self.finite() ==> !self.root().finite(),
    {
        let f = Format::Double;
        reveal(Binary64::finite);
        reveal(Binary64::nan);
        reveal(Binary64::rank);
        reveal(Binary64::root);
        lemma_sizes(f);
        let a = self.bits as nat;
        lemma_unpack(f, a);
        crate::float::ieee::lemma_root_bounded(f, f.units(a));
        lemma_small_mod(f.round_sqrt(f.units(a)), f.sign_weight());
    }

    /// A number over a positive finite one is a number.
    pub proof fn over_a_positive(self, divisor: Binary64)
        requires
            !self.nan(),
            divisor.finite(),
            0 < divisor.rank(),
        ensures
            !self.over(divisor).nan(),
    {
        let f = Format::Double;
        reveal(Binary64::finite);
        reveal(Binary64::nan);
        reveal(Binary64::rank);
        reveal(Binary64::over);
        lemma_sizes(f);
        let (a, b) = (self.bits as nat, divisor.bits as nat);
        lemma_unpack(f, a);
        lemma_unpack(f, b);
        lemma_pack(f, true, f.inf());
        lemma_pack(f, false, f.inf());
        let (n, d) = (f.units(f.magnitude(a)) * pow2(f.one_exp()), f.units(f.magnitude(b)));
        lemma_round_limit(f, n, d);
        lemma_pack(f, f.negative(a) != f.negative(b), f.round(n, d));
    }

    /// An infinity times a number other than zero is an infinity.
    pub proof fn infinite_products(self, other: Binary64)
        requires
            !self.nan(),
            !other.nan(),
            self.rank() != 0,
            other.rank() != 0,
            !self.finite() || !other.finite(),
        ensures
            !self.times(other).nan(),
            !self.times(other).finite(),
    {
        let f = Format::Double;
        reveal(Binary64::finite);
        reveal(Binary64::nan);
        reveal(Binary64::rank);
        reveal(Binary64::times);
        lemma_sizes(f);
        lemma_unpack(f, self.bits as nat);
        lemma_unpack(f, other.bits as nat);
        lemma_pack(f, true, f.inf());
        lemma_pack(f, false, f.inf());
    }

    /// What is divided by an infinity is zero, or no number.
    pub proof fn over_an_infinity(self, divisor: Binary64)
        requires
            !divisor.nan(),
            !divisor.finite(),
        ensures
            self.over(divisor).nan() || self.over(divisor).rank() == 0,
    {
        let f = Format::Double;
        reveal(Binary64::finite);
        reveal(Binary64::nan);
        reveal(Binary64::rank);
        reveal(Binary64::over);
        lemma_sizes(f);
        lemma_unpack(f, self.bits as nat);
        lemma_unpack(f, divisor.bits as nat);
        lemma_pack(f, true, 0);
        lemma_pack(f, false, 0);
        lemma_small_mod(f.nan(), f.sign_weight());
    }
}

impl Binary32 {
    /// Widening gives a number where there was one, and an infinity where
    /// there was one.
    pub proof fn widening_keeps_numbers(self)
        requires
            !self.nan(),
        ensures
            !self.as_binary64().nan(),
            !self.finite() ==> !self.as_binary64().finite(),
    {
        reveal(Binary32::finite);
        reveal(Binary32::nan);
        reveal(Binary32::as_binary64);
        reveal(Binary64::finite);
        reveal(Binary64::nan);
        let (s, d) = (Format::Single, Format::Double);
        lemma_sizes(s);
        lemma_sizes(d);
        let a = self.bits as nat;
        lemma_unpack(s, a);
        lemma_pack(d, true, d.inf());
        lemma_pack(d, false, d.inf());
        if s.is_finite(a) {
            lemma_converted(s, d, a);
        }
    }
}

impl Binary32 {
    /// Zero over a positive number is zero.
    pub proof fn zero_over(self, divisor: Binary32)
        requires
            self.finite(),
            self.rank() == 0,
            divisor.finite(),
            0 < divisor.rank(),
        ensures
            self.over(divisor).finite(),
            self.over(divisor).rank() == 0,
    {
        let f = Format::Single;
        reveal(Binary32::finite);
        reveal(Binary32::rank);
        reveal(Binary32::over);
        lemma_sizes(f);
        let (a, b) = (self.bits as nat, divisor.bits as nat);
        lemma_unpack(f, b);
        crate::float::ieee::lemma_units_zero(f);
        lemma_units_strictly_monotone(f, 0, f.magnitude(b));
        assert(0 * pow2(f.one_exp()) == 0);
        crate::float::ieee::lemma_round_zero(f, f.units(f.magnitude(b)));
        lemma_pack(f, f.negative(a) != f.negative(b), 0);
    }
}

impl Binary32 {
    /// A finite number other than zero, less zero, is itself.
    pub proof fn less_zero(self, zero: Binary32)
        requires
            self.finite(),
            self.rank() != 0,
            zero.finite(),
            zero.rank() == 0,
        ensures
            self.minus(zero) == self,
    {
        let f = Format::Single;
        reveal(Binary32::finite);
        reveal(Binary32::rank);
        reveal(Binary32::negated);
        lemma_sizes(f);
        let b = zero.bits as nat;
        lemma_unpack(f, b);
        lemma_pack(f, !f.negative(b), f.magnitude(b));
        self.zero_adds_nothing(zero.negated());
        self.plus_commutes(zero.negated());
    }

    /// Minus infinity with a finite number added stays below zero.
    pub proof fn lowest_stays(self, added: Binary32)
        requires
            self == (Binary32 { bits: 0xff80_0000 }),
            added.finite(),
        ensures
            !self.plus(added).nan(),
            self.plus(added).rank() < 0,
    {
        let f = Format::Single;
        reveal(Binary32::finite);
        reveal(Binary32::nan);
        reveal(Binary32::rank);
        reveal(Binary32::plus);
        lemma_sizes(f);
        lemma_pack(f, true, f.inf());
    }
}

impl Binary32 {
    /// A whole number of 31 bits over 2^30, less one, is at least minus one
    /// and at most one.
    pub proof fn fractions_up_to_two(n: nat)
        requires
            n < 0x8000_0000,
        ensures
            ({
                let r = Binary32::whole(n).over(Binary32 { bits: 0x4e80_0000 }).minus(
                    Binary32::unit(),
                );
                &&& r.finite()
                &&& Binary32::unit().negated().rank() <= r.rank() <= Binary32::unit().rank()
            }),
            Binary32::unit().negated().rank() == -Binary32::unit().rank(),
    {
        let f = Format::Single;
        lemma_sizes(f);
        reveal(Binary32::whole);
        reveal(Binary32::over);
        reveal(Binary32::plus);
        reveal(Binary32::negated);
        reveal(Binary32::finite);
        reveal(Binary32::rank);
        lemma2_to64();
        let (most, two, scale) = (0x4f00_0000nat, 0x4000_0000nat, 0x4e80_0000nat);
        reveal(Format::units);
        let h = f.hidden() as int;
        lemma_fundamental_div_mod_converse(most as int, h, 158, 0);
        lemma_fundamental_div_mod_converse(two as int, h, 128, 0);
        lemma_fundamental_div_mod_converse(scale as int, h, 157, 0);
        lemma_pow2_adds(23, 157);
        lemma_pow2_adds(23, 127);
        lemma_pow2_adds(23, 156);
        lemma_pow2_adds(31, 149);
        lemma_pow2_adds(30, 149);
        lemma_pow2_adds(1, 149);
        lemma2_to64_rest();
        assert(f.units(most) == 0x8000_0000 * pow2(149));
        assert(f.units(two) == 2 * pow2(149));
        assert(f.units(scale) == 0x4000_0000 * pow2(149));
        lemma_pow2_pos(149);
        let x = f.from_whole(n);
        assert(n * pow2(149) <= 0x8000_0000 * pow2(149)) by (nonlinear_arith)
            requires
                n <= 0x8000_0000,
        ;
        lemma_round_at_most(f, n * pow2(149), 1, most);
        lemma_small_mod(x, f.sign_weight());
        lemma_units_monotone(f, x, most);
        lemma_small_mod(scale, f.sign_weight());
        let (ux, us) = (f.units(x), f.units(scale));
        assert(ux * pow2(149) <= (2 * pow2(149)) * us) by (nonlinear_arith)
            requires
                ux <= 0x8000_0000 * pow2(149),
                us == 0x4000_0000 * pow2(149),
        ;
        lemma_round_at_most(f, ux * pow2(149), us, two);
        let q = f.quotient(x, scale);
        lemma_pack(f, false, f.round(ux * pow2(149), us));
        lemma_units_monotone(f, q, two);
        lemma_small_mod(q, f.sign_weight());
        let unit = one_magnitude(f);
        lemma_one(f);
        lemma_pack(f, true, unit);
        let minus = f.neg(unit);
        sums_round_once(f, q, minus);
        let z = f.value(q) + f.value(minus);
        lemma_pack(f, true, 0);
        lemma_pack(f, false, 0);
        if z >= 0 {
            lemma_round_at_most(f, z as nat, 1, unit);
            lemma_pack(f, false, f.round(z as nat, 1));
        } else {
            lemma_round_at_most(f, (-z) as nat, 1, unit);
            lemma_pack(f, true, f.round((-z) as nat, 1));
        }
    }
}

impl Binary32 {
    /// A number that is held is finite.
    pub proof fn held_is_finite(self)
        requires
            !self.nan(),
        ensures
            self.held().finite(),
            self.finite() ==> self.held() == self,
    {
        let f = Format::Single;
        reveal(Binary32::finite);
        lemma_sizes(f);
        lemma_pack(f, false, 0x7f7f_ffff);
        lemma_pack(f, true, 0x7f7f_ffff);
    }
}

impl Binary32 {
    /// A finite number over a finite one of at least one is finite.
    pub proof fn over_at_least_one(self, divisor: Binary32)
        requires
            self.finite(),
            divisor.finite(),
            Binary32::unit().rank() <= divisor.rank(),
        ensures
            self.over(divisor).finite(),
            self.over(divisor).absolute().rank() <= self.absolute().rank(),
    {
        let f = Format::Single;
        reveal(Binary32::finite);
        reveal(Binary32::rank);
        reveal(Binary32::over);
        reveal(Binary32::absolute);
        lemma_sizes(f);
        let (a, b) = (self.bits as nat, divisor.bits as nat);
        lemma_unpack(f, a);
        lemma_unpack(f, b);
        lemma_one(f);
        let (x, y) = (f.magnitude(a), f.magnitude(b));
        lemma_units_monotone(f, one_magnitude(f), y);
        lemma_pow2_pos(f.one_exp());
        let n = f.units(x) * pow2(f.one_exp());
        assert(n <= f.units(x) * f.units(y)) by (nonlinear_arith)
            requires
                n == f.units(x) * pow2(f.one_exp()),
                pow2(f.one_exp()) <= f.units(y),
        ;
        lemma_round_at_most(f, n, f.units(y), x);
        crate::float::ieee::lemma_units_zero(f);
        lemma_pack(f, f.negative(a) != f.negative(b), f.round(n, f.units(y)));
        lemma_small_mod(x, f.sign_weight());
        lemma_small_mod(f.round(n, f.units(y)), f.sign_weight());
    }

    /// The halves of two finite numbers have a finite sum.
    pub proof fn halves_add_up(self, other: Binary32)
        requires
            self.finite(),
            other.finite(),
        ensures
            self.over(Binary32 { bits: 0x4000_0000 }).plus(
                other.over(Binary32 { bits: 0x4000_0000 }),
            ).finite(),
    {
        let f = Format::Single;
        reveal(Binary32::finite);
        reveal(Binary32::over);
        reveal(Binary32::plus);
        lemma_sizes(f);
        let (top, half) = (0x7f7f_ffffnat, 0x7eff_ffffnat);
        assert(doubled(f, half) == top);
        lemma_doubled(f, half);
        lemma_small_mod(half, f.sign_weight());
        lemma_pack(f, true, half);
        let low = f.pack(true, half);
        let (x, y) = (self.bits as nat, other.bits as nat);
        lemma_unpack(f, x);
        lemma_unpack(f, y);
        lemma_units_monotone(f, f.magnitude(x), top);
        lemma_units_monotone(f, f.magnitude(y), top);
        lemma_half(f, x, half);
        lemma_half(f, x, low);
        lemma_half(f, y, half);
        lemma_half(f, y, low);
        let (p, q) = (f.quotient(x, 0x4000_0000), f.quotient(y, 0x4000_0000));
        ranks_order_numbers(f, p, half);
        ranks_order_numbers(f, low, p);
        ranks_order_numbers(f, q, half);
        ranks_order_numbers(f, low, q);
        sums_round_once(f, p, q);
        let z = f.value(p) + f.value(q);
        let n = (if z < 0 { -z } else { z }) as nat;
        lemma_round_at_most(f, n, 1, top);
        lemma_pack(f, true, f.round(n, 1));
        lemma_pack(f, false, f.round(n, 1));
        lemma_pack(f, true, 0);
        lemma_pack(f, false, 0);
    }
}

/// Where the sum of two finite numbers overflows, their halves add up to a
/// number not below one that bounds both from below.
proof fn lemma_halved_sum(f: Format, a: nat, b: nat, l: nat)
    requires
        f == Format::Single,
        f.well_sized(a),
        f.well_sized(b),
        f.well_sized(l),
        f.is_finite(a),
        f.is_finite(b),
        f.is_finite(l),
        f.rank(l) <= f.rank(a),
        f.rank(l) <= f.rank(b),
        !f.is_finite(f.sum(a, b)),
        f.is_finite(f.sum(f.quotient(a, two_bits(f)), f.quotient(b, two_bits(f)))),
    ensures
        f.rank(l) <= f.rank(f.sum(f.quotient(a, two_bits(f)), f.quotient(b, two_bits(f)))),
{
    lemma_sizes(f);
    let top = 0x7f7f_ffffnat;
    ranks_order_numbers(f, l, a);
    ranks_order_numbers(f, l, b);
    sums_round_once(f, a, b);
    let z = f.value(a) + f.value(b);
    let n = (if z < 0 { -z } else { z }) as nat;
    lemma_pack(f, true, f.inf());
    lemma_pack(f, false, f.inf());
    lemma_pack(f, true, 0);
    lemma_pack(f, false, 0);
    lemma_round_limit(f, n, 1);
    // the exact sum lies beyond the largest number
    if n <= f.units(top) {
        lemma_round_at_most(f, n, 1, top);
        lemma_pack(f, z < 0, f.round(n, 1));
    }
    lemma_unpack(f, a);
    lemma_unpack(f, b);
    lemma_unpack(f, l);
    let ml = f.magnitude(l);
    let h = f.hidden();
    let (p, q) = (f.quotient(a, two_bits(f)), f.quotient(b, two_bits(f)));
    if ml >= 2 * h {
        // the half of the bound is a number
        let half = (ml - h) as nat;
        assert(doubled(f, half) == ml);
        lemma_doubled(f, half);
        let k = f.pack(f.negative(l), half);
        lemma_pack(f, f.negative(l), half);
        lemma_half(f, a, k);
        lemma_half(f, b, k);
        lemma_sum_of_two(f, p, q, k);
        sums_round_once(f, p, q);
        lemma_unpack(f, f.sum(p, q));
        ranks_order_numbers(f, l, f.sum(p, q));
    } else {
        // the bound is tiny, and one of the two is not
        lemma_units_monotone(f, ml, 2 * h);
        let big = 0x7e00_0000nat;
        lemma_small_mod(big, f.sign_weight());
        reveal(Format::units);
        lemma_fundamental_div_mod_converse(big as int, h as int, 252, 0);
        lemma_fundamental_div_mod_converse(top as int, h as int, 254, 0x7f_ffff);
        lemma_fundamental_div_mod_converse((2 * h) as int, h as int, 2, 0);
        lemma_pow2_unfold(253);
        lemma_pow2_unfold(252);
        lemma2_to64();
        lemma_pow2_strictly_increases(2, 251);
        assert(f.units(big) == 0x80_0000 * pow2(251));
        assert(f.units(top) == 0xff_ffff * pow2(253));
        assert(f.units(2 * h) == 0x80_0000 * pow2(1));
        let u2 = f.units(2 * h) as int;
        assert(f.value(l) >= -u2 && f.value(l) <= u2);
        assert(z > 0);
        let (x, y) = if f.value(a) >= f.value(b) {
            (a, b)
        } else {
            (b, a)
        };
        assert(f.value(x) >= 2 * f.units(big));
        // the half of the large one is at least `big`, and that of the other
        // at least half the bound
        lemma_half(f, x, big);
        lemma_half(f, y, l);
        let low = f.pack(true, 2 * h);
        lemma_pack(f, true, 2 * h);
        assert(2 * f.value(low) <= f.value(y)) by {
            assert(f.value(y) >= -u2);
        }
        lemma_half(f, y, low);
        let (px, qy) = (f.quotient(x, two_bits(f)), f.quotient(y, two_bits(f)));
        ranks_order_numbers(f, big, px);
        ranks_order_numbers(f, low, qy);
        assert(f.value(px) + f.value(qy) >= f.units(big) - u2);
        sums_commute(f, p, q);
        sums_round_once(f, p, q);
        let s = f.value(p) + f.value(q);
        assert(s >= u2);
        lemma_round_at_least(f, s as nat, 1, 2 * h);
        lemma_pack(f, false, f.round(s as nat, 1));
    }
}

/// The number with the other sign.
proof fn lemma_mirrored(f: Format, a: nat)
    requires
        f.well_sized(a),
        f.is_finite(a),
    ensures
        f.well_sized(f.neg(a)),
        f.is_finite(f.neg(a)),
        f.rank(f.neg(a)) == -f.rank(a),
        f.value(f.neg(a)) == -f.value(a),
        f.magnitude(f.neg(a)) == f.magnitude(a),
{
    lemma_sizes(f);
    lemma_unpack(f, a);
    lemma_pack(f, !f.negative(a), f.magnitude(a));
}

/// Sums and halves of the numbers with the other sign are those with the
/// other sign.
proof fn lemma_mirrored_sum(f: Format, a: nat, b: nat)
    requires
        f.well_sized(a),
        f.well_sized(b),
        f.is_finite(a),
        f.is_finite(b),
    ensures
        f.rank(f.sum(f.neg(a), f.neg(b))) == -f.rank(f.sum(a, b)),
        f.is_finite(f.sum(f.neg(a), f.neg(b))) == f.is_finite(f.sum(a, b)),
        f.quotient(f.neg(a), two_bits(f)) == f.neg(f.quotient(a, two_bits(f))),
{
    lemma_sizes(f);
    lemma_mirrored(f, a);
    lemma_mirrored(f, b);
    sums_round_once(f, a, b);
    sums_round_once(f, f.neg(a), f.neg(b));
    let z = f.value(a) + f.value(b);
    let n = (if z < 0 { -z } else { z }) as nat;
    lemma_round_limit(f, n, 1);
    lemma_pack(f, true, f.round(n, 1));
    lemma_pack(f, false, f.round(n, 1));
    lemma_pack(f, true, 0);
    lemma_pack(f, false, 0);
    lemma_half(f, a, a);
    let t = two_bits(f);
    lemma_small_mod(t, f.sign_weight());
    let u = f.units(f.magnitude(a)) * pow2(f.one_exp());
    lemma_round_limit(f, u, f.units(t));
    lemma_pack(f, f.negative(a), f.round(u, f.units(t)));
}

impl Binary32 {
    /// The sum of the halves of two numbers whose sum overflows lies between
    /// whatever bounds both.
    pub proof fn halved_sums_stay_between(self, other: Binary32, low: Binary32, high: Binary32)
        requires
            self.finite(),
            other.finite(),
            low.finite(),
            high.finite(),
            low.rank() <= self.rank() <= high.rank(),
            low.rank() <= other.rank() <= high.rank(),
            !self.plus(other).finite(),
        ensures
            low.rank() <= self.over(Binary32 { bits: 0x4000_0000 }).plus(
                other.over(Binary32 { bits: 0x4000_0000 }),
            ).rank() <= high.rank(),
    {
        self.halves_add_up(other);
        reveal(Binary32::plus);
        reveal(Binary32::over);
        reveal(Binary32::finite);
        reveal(Binary32::rank);
        let f = Format::Single;
        lemma_sizes(f);
        let (a, b, l, g) = (
            self.bits as nat,
            other.bits as nat,
            low.bits as nat,
            high.bits as nat,
        );
        sums_round_once(f, a, b);
        lemma_half(f, a, a);
        lemma_half(f, b, b);
        let (p, q) = (f.quotient(a, 0x4000_0000), f.quotient(b, 0x4000_0000));
        sums_round_once(f, p, q);
        lemma_halved_sum(f, a, b, l);
        lemma_mirrored(f, a);
        lemma_mirrored(f, b);
        lemma_mirrored(f, g);
        lemma_mirrored_sum(f, a, b);
        lemma_mirrored_sum(f, b, a);
        lemma_mirrored_sum(f, p, q);
        lemma_halved_sum(f, f.neg(a), f.neg(b), f.neg(g));
    }
}

impl Binary64 {
    /// One over a positive number of at most one is at least one.
    pub proof fn one_over_a_fraction(self)
        requires
            !self.nan(),
            0 < self.rank() <= Binary64::unit().rank(),
        ensures
            !Binary64::unit().over(self).nan(),
            Binary64::unit().rank() <= Binary64::unit().over(self).rank(),
    {
        let f = Format::Double;
        reveal(Binary64::nan);
        reveal(Binary64::rank);
        reveal(Binary64::over);
        lemma_sizes(f);
        lemma_one(f);
        let b = self.bits as nat;
        lemma_unpack(f, b);
        let one = one_magnitude(f);
        lemma_units_monotone(f, f.magnitude(b), one);
        crate::float::ieee::lemma_units_zero(f);
        lemma_units_strictly_monotone(f, 0, f.magnitude(b));
        let (n, d) = (pow2(1074) * pow2(1074), f.units(f.magnitude(b)));
        assert(f.units(one) * d <= n) by (nonlinear_arith)
            requires
                f.units(one) == pow2(1074),
                d <= pow2(1074),
                n == pow2(1074) * pow2(1074),
        ;
        lemma_round_at_least(f, n, d, one);
        lemma_round_limit(f, n, d);
        lemma_pack(f, false, f.round(n, d));
    }

    /// A number that is not negative, be it an infinity, over a positive
    /// finite one is such a number.
    pub proof fn length_over_a_positive(self, divisor: Binary64)
        requires
            !self.nan(),
            0 <= self.rank(),
            divisor.finite(),
            0 < divisor.rank(),
        ensures
            !self.over(divisor).nan(),
            0 <= self.over(divisor).rank(),
    {
        self.over_a_positive(divisor);
        if self.finite() {
            divisor.finite_is_a_number();
            self.fractions_are_not_negative(divisor);
        } else {
            let f = Format::Double;
            reveal(Binary64::finite);
            reveal(Binary64::nan);
            reveal(Binary64::rank);
            reveal(Binary64::over);
            lemma_sizes(f);
            lemma_unpack(f, self.bits as nat);
            lemma_unpack(f, divisor.bits as nat);
            lemma_pack(f, false, f.inf());
        }
    }

    /// A larger number less a smaller one that is not negative is positive.
    pub proof fn gap_is_positive(self, other: Binary64)
        requires
            self.finite(),
            other.finite(),
            0 <= other.rank() < self.rank(),
        ensures
            self.minus(other).finite(),
            0 < self.minus(other).rank(),
    {
        let f = Format::Double;
        reveal(Binary64::finite);
        reveal(Binary64::rank);
        reveal(Binary64::plus);
        reveal(Binary64::negated);
        lemma_sizes(f);
        let (a, b) = (self.bits as nat, other.bits as nat);
        lemma_unpack(f, a);
        lemma_unpack(f, b);
        lemma_pack(f, !f.negative(b), f.magnitude(b));
        let c = f.neg(b);
        crate::float::ieee::lemma_units_zero(f);
        lemma_units_strictly_monotone(f, f.magnitude(b), f.magnitude(a));
        sums_round_once(f, a, c);
        let z = f.value(a) + f.value(c);
        let n = z as nat;
        lemma_round_at_most(f, n, 1, f.magnitude(a));
        reveal(Format::units);
        assert(f.units(1) == 1) by {
            lemma_fundamental_div_mod_converse(1, f.hidden() as int, 0, 1);
        }
        lemma_round_at_least(f, n, 1, 1);
        lemma_pack(f, false, f.round(n, 1));
    }
}

impl Binary32 {
    /// A positive number less what is not below it, be it an infinity, is a
    /// number and not above zero.
    pub proof fn less_at_least_itself(self, other: Binary32)
        requires
            self.finite(),
            0 < self.rank() <= other.rank(),
            !other.nan(),
        ensures
            !self.minus(other).nan(),
            self.minus(other).rank() <= 0,
    {
        self.less_a_number(other);
        let f = Format::Single;
        reveal(Binary32::finite);
        reveal(Binary32::nan);
        reveal(Binary32::rank);
        reveal(Binary32::plus);
        reveal(Binary32::negated);
        lemma_sizes(f);
        let (a, b) = (self.bits as nat, other.bits as nat);
        lemma_unpack(f, a);
        lemma_unpack(f, b);
        lemma_pack(f, !f.negative(b), f.magnitude(b));
        let c = f.neg(b);
        if f.is_finite(b) {
            lemma_units_monotone(f, f.magnitude(a), f.magnitude(b));
            sums_round_once(f, a, c);
            crate::float::ieee::lemma_round_zero(f, 1);
        }
    }
}

impl Binary32 {
    /// A number, be it an infinity, comes back from double precision.
    pub proof fn widened_and_back(self)
        requires
            !self.nan(),
        ensures
            self.as_binary64().as_binary32() == self,
    {
        if self.finite() {
            self.widening_is_exact();
        } else {
            let (s, d) = (Format::Single, Format::Double);
            reveal(Binary32::finite);
            reveal(Binary32::nan);
            reveal(Binary32::as_binary64);
            reveal(Binary64::as_binary32);
            lemma_sizes(s);
            lemma_sizes(d);
            lemma_unpack(s, self.bits as nat);
            lemma_pack(d, true, d.inf());
            lemma_pack(d, false, d.inf());
        }
    }
}

impl Binary32 {
    /// A finite number over an infinity is zero.
    pub proof fn over_an_infinity(self, divisor: Binary32)
        requires
            self.finite(),
            !divisor.nan(),
            !divisor.finite(),
        ensures
            self.over(divisor).finite(),
            self.over(divisor).rank() == 0,
    {
        let f = Format::Single;
        reveal(Binary32::finite);
        reveal(Binary32::nan);
        reveal(Binary32::rank);
        reveal(Binary32::over);
        lemma_sizes(f);
        lemma_unpack(f, self.bits as nat);
        lemma_unpack(f, divisor.bits as nat);
        lemma_pack(f, true, 0);
        lemma_pack(f, false, 0);
    }
}

impl Binary32 {
    /// Of lengths, be they infinities, larger ones have the larger sum.
    pub proof fn lengths_keep_the_order(self, other: Binary32, added: Binary32)
        requires
            !self.nan(),
            !other.nan(),
            !added.nan(),
            0 <= self.rank() <= other.rank(),
            0 <= added.rank(),
        ensures
            !self.plus(added).nan(),
            !other.plus(added).nan(),
            0 <= self.plus(added).rank() <= other.plus(added).rank(),
            added.rank() <= self.plus(added).rank(),
            self.rank() <= self.plus(added).rank(),
    {
        let d = Format::Single;
        self.lengths_add_up(added);
        other.lengths_add_up(added);
        reveal(Binary32::plus);
        reveal(Binary32::finite);
        reveal(Binary32::nan);
        reveal(Binary32::rank);
        lemma_sizes(d);
        let (a, b, c) = (self.bits as nat, other.bits as nat, added.bits as nat);
        lemma_unpack(d, a);
        lemma_unpack(d, b);
        lemma_unpack(d, c);
        if d.is_finite(b) && d.is_finite(c) {
            sums_round_once(d, b, c);
        }
        if d.is_finite(a) && d.is_finite(c) {
            sums_round_once(d, a, c);
            lemma_rank_limit(d, d.sum(a, c));
            self.plus_grows(added);
            added.plus_grows(self);
            self.plus_commutes(added);
            if d.is_finite(b) {
                sums_keep_the_order(d, a, b, c);
            }
        }
    }

    /// Of lengths, be they infinities, the larger has the larger square.
    pub proof fn squares_keep_the_order(self, other: Binary32)
        requires
            !self.nan(),
            !other.nan(),
            0 <= self.rank() <= other.rank(),
        ensures
            !self.times(self).nan(),
            !other.times(other).nan(),
            0 <= self.times(self).rank() <= other.times(other).rank(),
    {
        let f = Format::Single;
        self.square_is_not_negative();
        other.square_is_not_negative();
        reveal(Binary32::finite);
        reveal(Binary32::nan);
        reveal(Binary32::rank);
        reveal(Binary32::times);
        lemma_sizes(f);
        let (a, b) = (self.bits as nat, other.bits as nat);
        lemma_unpack(f, a);
        lemma_unpack(f, b);
        lemma_pack(f, false, f.inf());
        let (x, y) = (f.magnitude(a), f.magnitude(b));
        if f.is_finite(a) {
            lemma_product_parts(f, a, a);
            lemma_round_limit(f, f.units(x) * f.units(x), pow2(f.one_exp()));
            if f.is_finite(b) {
                lemma_product_parts(f, b, b);
                lemma_units_monotone(f, x, y);
                let (u, v) = (f.units(x), f.units(y));
                lemma_mul_upper_bound(u as int, v as int, u as int, v as int);
                lemma_pow2_pos(f.one_exp());
                lemma_mul_inequality((u * u) as int, (v * v) as int, pow2(f.one_exp()) as int);
                rounding_keeps_the_order(f, u * u, pow2(f.one_exp()), v * v, pow2(f.one_exp()));
            }
        }
    }

    /// A difference has the same square in both directions.
    pub proof fn squared_gaps_are_symmetric(self, other: Binary32)
        requires
            self.finite(),
            other.finite(),
        ensures
            self.minus(other).times(self.minus(other)) == other.minus(self).times(
                other.minus(self),
            ),
    {
        let f = Format::Single;
        reveal(Binary32::finite);
        reveal(Binary32::plus);
        reveal(Binary32::negated);
        reveal(Binary32::times);
        lemma_sizes(f);
        let (a, b) = (self.bits as nat, other.bits as nat);
        lemma_mirrored(f, a);
        lemma_mirrored(f, b);
        sums_round_once(f, a, f.neg(b));
        sums_round_once(f, b, f.neg(a));
        let (x, y) = (f.sum(a, f.neg(b)), f.sum(b, f.neg(a)));
        let z = f.value(a) - f.value(b);
        let n = (if z < 0 { -z } else { z }) as nat;
        lemma_round_limit(f, n, 1);
        lemma_pack(f, true, f.round(n, 1));
        lemma_pack(f, false, f.round(n, 1));
        lemma_pack(f, true, 0);
        lemma_pack(f, false, 0);
        assert(f.magnitude(x) == f.magnitude(y));
        assert(f.product(x, x) == f.product(y, y));
    }
}

impl Binary64 {
    /// No number lies beyond the infinities.
    pub proof fn rank_at_most_infinite(self)
        requires
            !self.nan(),
        ensures
            self.rank() <= 0x7ff0_0000_0000_0000,
    {
        let f = Format::Double;
        reveal(Binary64::nan);
        reveal(Binary64::rank);
        lemma_sizes(f);
    }

    /// Zero adds nothing to a length, be it an infinity.
    pub proof fn wide_zero_adds_nothing(self, other: Binary64)
        requires
            self.finite(),
            self.rank() == 0,
            !other.nan(),
        ensures
            self.plus(other).rank() == other.rank(),
            !self.plus(other).nan(),
    {
        if other.finite() {
            other.zero_adds_nothing(self);
            self.plus(other).finite_is_a_number();
        } else {
            let f = Format::Double;
            reveal(Binary64::plus);
            reveal(Binary64::nan);
            reveal(Binary64::finite);
            reveal(Binary64::rank);
            lemma_sizes(f);
            lemma_unpack(f, other.bits as nat);
        }
    }

    /// Of two positive fractions the smaller has the larger reciprocal.
    pub proof fn reciprocals_turn_the_order(self, other: Binary64)
        requires
            !self.nan(),
            !other.nan(),
            0 < self.rank() <= other.rank() <= Binary64::unit().rank(),
        ensures
            Binary64::unit().over(other).rank() <= Binary64::unit().over(self).rank(),
    {
        let f = Format::Double;
        reveal(Binary64::nan);
        reveal(Binary64::rank);
        reveal(Binary64::over);
        lemma_sizes(f);
        lemma_one(f);
        let (a, b) = (self.bits as nat, other.bits as nat);
        lemma_unpack(f, a);
        lemma_unpack(f, b);
        crate::float::ieee::lemma_units_zero(f);
        let (x, y) = (f.magnitude(a), f.magnitude(b));
        lemma_units_monotone(f, x, y);
        lemma_units_strictly_monotone(f, 0, x);
        let n = pow2(1074) * pow2(1074);
        lemma_mul_inequality(f.units(x) as int, f.units(y) as int, n as int);
        lemma_mul_is_commutative(f.units(x) as int, n as int);
        lemma_mul_is_commutative(f.units(y) as int, n as int);
        rounding_keeps_the_order(f, n, f.units(y), n, f.units(x));
        lemma_round_limit(f, n, f.units(x));
        lemma_round_limit(f, n, f.units(y));
        lemma_pack(f, false, f.round(n, f.units(x)));
        lemma_pack(f, false, f.round(n, f.units(y)));
    }

    /// Dividing lengths, be they infinities, by the same positive number keeps
    /// their order.
    pub proof fn quotients_keep_the_order(self, other: Binary64, divisor: Binary64)
        requires
            !self.nan(),
            !other.nan(),
            0 <= self.rank() <= other.rank(),
            divisor.finite(),
            0 < divisor.rank(),
        ensures
            self.over(divisor).rank() <= other.over(divisor).rank(),
    {
        let f = Format::Double;
        self.length_over_a_positive(divisor);
        other.length_over_a_positive(divisor);
        self.over(divisor).rank_at_most_infinite();
        reveal(Binary64::finite);
        reveal(Binary64::nan);
        reveal(Binary64::rank);
        reveal(Binary64::over);
        lemma_sizes(f);
        let (a, b, c) = (self.bits as nat, other.bits as nat, divisor.bits as nat);
        lemma_unpack(f, a);
        lemma_unpack(f, b);
        lemma_unpack(f, c);
        lemma_pack(f, false, f.inf());
        crate::float::ieee::lemma_units_zero(f);
        let (x, y, z) = (f.magnitude(a), f.magnitude(b), f.magnitude(c));
        lemma_units_strictly_monotone(f, 0, z);
        if f.is_finite(a) && f.is_finite(b) {
            lemma_units_monotone(f, x, y);
            let (n, m) = (f.units(x) * pow2(1074), f.units(y) * pow2(1074));
            lemma_mul_inequality(f.units(x) as int, f.units(y) as int, pow2(1074) as int);
            lemma_mul_inequality(n as int, m as int, f.units(z) as int);
            rounding_keeps_the_order(f, n, f.units(z), m, f.units(z));
            lemma_round_limit(f, n, f.units(z));
            lemma_round_limit(f, m, f.units(z));
            lemma_pack(f, false, f.round(n, f.units(z)));
            lemma_pack(f, true, f.round(n, f.units(z)));
            lemma_pack(f, false, f.round(m, f.units(z)));
            lemma_pack(f, true, f.round(m, f.units(z)));
        }
    }

    /// Dividing a positive number by a larger number gives no more.
    pub proof fn larger_divisors_give_less(self, small: Binary64, large: Binary64)
        requires
            self.finite(),
            0 < self.rank(),
            !small.nan(),
            !large.nan(),
            !small.signed(),
            !large.signed(),
            small.rank() <= large.rank(),
        ensures
            self.over(large).rank() <= self.over(small).rank(),
    {
        let f = Format::Double;
        small.unsigned_patterns();
        large.unsigned_patterns();
        self.ratios_are_not_negative(small);
        self.ratios_are_not_negative(large);
        self.over(large).rank_at_most_infinite();
        reveal(Binary64::finite);
        reveal(Binary64::nan);
        reveal(Binary64::rank);
        reveal(Binary64::over);
        lemma_sizes(f);
        let (a, b, c) = (self.bits as nat, small.bits as nat, large.bits as nat);
        lemma_unpack(f, a);
        lemma_unpack(f, b);
        lemma_unpack(f, c);
        lemma_pack(f, false, f.inf());
        lemma_pack(f, false, 0);
        crate::float::ieee::lemma_units_zero(f);
        let (x, y, z) = (f.magnitude(a), f.magnitude(b), f.magnitude(c));
        if f.is_finite(c) && y > 0 {
            lemma_units_strictly_monotone(f, 0, y);
            lemma_units_monotone(f, y, z);
            let n = f.units(x) * pow2(1074);
            lemma_mul_inequality(f.units(y) as int, f.units(z) as int, n as int);
            lemma_mul_is_commutative(f.units(y) as int, n as int);
            lemma_mul_is_commutative(f.units(z) as int, n as int);
            rounding_keeps_the_order(f, n, f.units(z), n, f.units(y));
            lemma_round_limit(f, n, f.units(y));
            lemma_round_limit(f, n, f.units(z));
            lemma_pack(f, false, f.round(n, f.units(y)));
            lemma_pack(f, false, f.round(n, f.units(z)));
        }
    }
}

impl Binary64 {
    /// Of finite lengths, larger ones have the larger product.
    pub proof fn products_keep_the_order(self, other: Binary64, a: Binary64, b: Binary64)
        requires
            self.finite(),
            other.finite(),
            a.finite(),
            b.finite(),
            0 <= self.rank() <= other.rank(),
            0 <= a.rank() <= b.rank(),
        ensures
            !self.times(a).nan(),
            !other.times(b).nan(),
            self.times(a).rank() <= other.times(b).rank(),
    {
        let f = Format::Double;
        reveal(Binary64::finite);
        reveal(Binary64::nan);
        reveal(Binary64::rank);
        reveal(Binary64::times);
        lemma_sizes(f);
        let (x, y, u, v) = (self.bits as nat, other.bits as nat, a.bits as nat, b.bits as nat);
        lemma_unpack(f, x);
        lemma_unpack(f, y);
        lemma_unpack(f, u);
        lemma_unpack(f, v);
        lemma_product_parts(f, x, u);
        lemma_product_parts(f, y, v);
        lemma_units_monotone(f, f.magnitude(x), f.magnitude(y));
        lemma_units_monotone(f, f.magnitude(u), f.magnitude(v));
        let (p, q, r, t) = (
            f.units(f.magnitude(x)),
            f.units(f.magnitude(y)),
            f.units(f.magnitude(u)),
            f.units(f.magnitude(v)),
        );
        lemma_mul_upper_bound(p as int, q as int, r as int, t as int);
        lemma_pow2_pos(1074);
        lemma_mul_inequality((p * r) as int, (q * t) as int, pow2(1074) as int);
        rounding_keeps_the_order(f, p * r, pow2(1074), q * t, pow2(1074));
        crate::float::ieee::lemma_units_zero(f);
        crate::float::ieee::lemma_round_zero(f, pow2(1074));
        if f.magnitude(x) == 0 || f.magnitude(u) == 0 {
            assert(p * r == 0) by (nonlinear_arith)
                requires
                    p == 0 || r == 0,
            ;
        }
        if f.magnitude(y) == 0 || f.magnitude(v) == 0 {
            assert(q * t == 0) by (nonlinear_arith)
                requires
                    q == 0 || t == 0,
            ;
        }
    }

    /// A positive finite factor keeps the order of lengths, be they
    /// infinities.
    pub proof fn larger_factors_give_more(self, other: Binary64, factor: Binary64)
        requires
            !self.nan(),
            !other.nan(),
            0 <= self.rank() <= other.rank(),
            factor.finite(),
            0 < factor.rank(),
        ensures
            self.times(factor).rank() <= other.times(factor).rank(),
    {
        self.wide_products_keep_the_order(factor, factor);
        other.wide_products_keep_the_order(factor, factor);
        self.times(factor).rank_at_most_infinite();
        if self.finite() && other.finite() {
            self.products_keep_the_order(other, factor, factor);
        } else {
            let f = Format::Double;
            reveal(Binary64::finite);
            reveal(Binary64::nan);
            reveal(Binary64::rank);
            reveal(Binary64::times);
            lemma_sizes(f);
            lemma_unpack(f, self.bits as nat);
            lemma_unpack(f, other.bits as nat);
            lemma_unpack(f, factor.bits as nat);
            lemma_pack(f, false, f.inf());
            lemma_pack(f, true, f.inf());
        }
    }
}

impl Binary32 {
    /// One is one in double precision.
    pub proof fn one_is_one()
        ensures
            Binary32::unit().as_binary64() == Binary64::unit(),
    {
        let (s, d) = (Format::Single, Format::Double);
        reveal(Binary32::as_binary64);
        lemma_sizes(s);
        lemma_sizes(d);
        lemma_one(s);
        lemma_one(d);
        lemma_pow2_pos(149);
        lemma_mul_is_commutative(pow2(149) as int, pow2(1074) as int);
        rounding_is_exact_on_numbers(d, one_magnitude(d), pow2(149));
        lemma_converted(s, d, one_magnitude(s));
    }
}

impl Binary64 {
    /// A length less a smaller one lies between zero and the length.
    pub proof fn differences_stay_within(self, other: Binary64)
        requires
            self.finite(),
            other.finite(),
            0 <= other.rank() <= self.rank(),
        ensures
            self.minus(other).finite(),
            0 <= self.minus(other).rank() <= self.rank(),
    {
        let f = Format::Double;
        reveal(Binary64::finite);
        reveal(Binary64::rank);
        reveal(Binary64::plus);
        reveal(Binary64::negated);
        lemma_sizes(f);
        let (a, b) = (self.bits as nat, other.bits as nat);
        lemma_unpack(f, a);
        lemma_unpack(f, b);
        lemma_mirrored(f, b);
        lemma_units_monotone(f, f.magnitude(b), f.magnitude(a));
        crate::float::ieee::lemma_units_zero(f);
        sums_round_once(f, a, f.neg(b));
        let z = f.value(a) - f.value(b);
        lemma_round_at_most(f, z as nat, 1, f.magnitude(a));
        lemma_pack(f, false, f.round(z as nat, 1));
        lemma_pack(f, false, 0);
        lemma_pack(f, true, 0);
        crate::float::ieee::lemma_round_zero(f, 1);
    }
}

} // verus!
