//! The sizes of double-precision numbers, by powers of two.
//!
//! Every operation says how large its result can be from how large its
//! arguments are, which shows that a computation stays finite.
use vstd::prelude::*;
use vstd::arithmetic::power2::*;
use vstd::arithmetic::div_mod::*;
use vstd::arithmetic::mul::*;
use crate::float::binary32::Binary32;
use crate::float::binary64::Binary64;
use crate::float::format::{bit_len, nearest_even, Format};
use crate::float::grid::{lemma_single, most, step};
use crate::float::ieee::{lemma_root_bounded, lemma_units_zero};
use crate::float::laws::{lemma_one, lemma_pack, lemma_product_parts, lemma_round_at_least, lemma_round_at_most, lemma_round_limit, lemma_sizes, lemma_unpack, rounding_keeps_the_order, sums_round_once};
use crate::float::magnitude::{isqrt, lemma_isqrt, lemma_units_monotone, lemma_units_strictly_monotone};
use crate::float::round::{lemma_bit_len_bounds, lemma_bit_len_unique};

verus! {

/// How far a number lies from zero, in units.
pub open spec fn size(x: Binary64) -> nat {
    Format::Double.units(Format::Double.magnitude(x.bits as nat))
}

/// Whether a number is finite and at most `pow2(e)` units from zero.
pub open spec fn up_to(x: Binary64, e: nat) -> bool {
    x.finite() && size(x) <= pow2(e)
}

/// Whether a number is finite and at least `pow2(e)` units from zero.
pub open spec fn at_least(x: Binary64, e: nat) -> bool {
    x.finite() && size(x) >= pow2(e)
}

/// A power of two is a number.
proof fn lemma_power(e: nat) -> (mag: nat)
    requires
        e <= 2097,
    ensures
        mag < Format::Double.inf(),
        Format::Double.units(mag) == pow2(e),
{
    let d = Format::Double;
    let h = d.hidden();
    lemma_sizes(d);
    lemma2_to64();
    lemma2_to64_rest();
    reveal(Format::units);
    if e < 52 {
        lemma_pow2_strictly_increases(e, 52);
        let mag = pow2(e);
        lemma_small_mod(mag, h);
        lemma_basic_div(mag as int, h as int);
        mag
    } else {
        let mag = ((e - 51) * h) as nat;
        lemma_fundamental_div_mod_converse(mag as int, h as int, e - 51, 0);
        lemma_pow2_adds(52, (e - 52) as nat);
        mag
    }
}

/// What is at most a power of two is so when rounded.
pub proof fn lemma_rounds_up_to(n: nat, d: nat, e: nat)
    requires
        d > 0,
        e <= 2097,
        n <= pow2(e) * d,
    ensures
        Format::Double.round(n, d) < Format::Double.inf(),
        Format::Double.units(Format::Double.round(n, d)) <= pow2(e),
{
    let f = Format::Double;
    let mag = lemma_power(e);
    lemma_round_at_most(f, n, d, mag);
    lemma_units_monotone(f, f.round(n, d), mag);
}

/// What is at least a power of two is so when rounded.
proof fn lemma_rounds_at_least(n: nat, d: nat, e: nat)
    requires
        d > 0,
        e <= 2097,
        pow2(e) * d <= n,
    ensures
        Format::Double.units(Format::Double.round(n, d)) >= pow2(e),
{
    let f = Format::Double;
    let mag = lemma_power(e);
    lemma_round_at_least(f, n, d, mag);
    lemma_units_monotone(f, mag, f.round(n, d));
}

/// The size of a product is at most the product of the sizes.
pub proof fn lemma_product_up_to(x: Binary64, y: Binary64, a: nat, b: nat)
    requires
        up_to(x, a),
        up_to(y, b),
        1074 <= a + b <= 1074 + 2097,
    ensures
        up_to(x.times(y), (a + b - 1074) as nat),
{
    let f = Format::Double;
    reveal(Binary64::finite);
    reveal(Binary64::times);
    lemma_sizes(f);
    lemma_product_parts(f, x.bits as nat, y.bits as nat);
    let c = (a + b - 1074) as nat;
    lemma_pow2_adds(a, b);
    lemma_pow2_adds(c, 1074);
    lemma_pow2_pos(1074);
    lemma_mul_upper_bound(size(x) as int, pow2(a) as int, size(y) as int, pow2(b) as int);
    lemma_rounds_up_to(size(x) * size(y), pow2(1074), c);
}

/// The size of a product is at least the product of the sizes.
pub proof fn lemma_product_at_least(x: Binary64, y: Binary64, a: nat, b: nat)
    requires
        at_least(x, a),
        at_least(y, b),
        x.times(y).finite(),
        1074 <= a + b <= 1074 + 2097,
    ensures
        at_least(x.times(y), (a + b - 1074) as nat),
{
    let f = Format::Double;
    reveal(Binary64::finite);
    reveal(Binary64::times);
    lemma_sizes(f);
    lemma_product_parts(f, x.bits as nat, y.bits as nat);
    let c = (a + b - 1074) as nat;
    lemma_pow2_adds(a, b);
    lemma_pow2_adds(c, 1074);
    lemma_pow2_pos(1074);
    assert(pow2(a) * pow2(b) <= size(x) * size(y)) by (nonlinear_arith)
        requires
            pow2(a) <= size(x),
            pow2(b) <= size(y),
    ;
    lemma_rounds_at_least(size(x) * size(y), pow2(1074), c);
}

/// A number that is not zero is at least one unit from it.
proof fn lemma_not_zero(mag: nat)
    requires
        mag > 0,
    ensures
        Format::Double.units(mag) >= 1,
{
    lemma_units_zero(Format::Double);
    lemma_units_strictly_monotone(Format::Double, 0, mag);
}

/// The size of a quotient is at most the quotient of the sizes.
pub proof fn lemma_quotient_up_to(x: Binary64, y: Binary64, a: nat, b: nat)
    requires
        up_to(x, a),
        at_least(y, b),
        b <= a + 1074 <= b + 2097,
    ensures
        up_to(x.over(y), (a + 1074 - b) as nat),
{
    let f = Format::Double;
    reveal(Binary64::finite);
    reveal(Binary64::over);
    lemma_sizes(f);
    let c = (a + 1074 - b) as nat;
    lemma_pow2_pos(b);
    lemma_units_zero(f);
    lemma_pow2_adds(a, 1074);
    lemma_pow2_adds(c, b);
    let n = size(x) * pow2(1074);
    lemma_mul_inequality(size(x) as int, pow2(a) as int, pow2(1074) as int);
    assert(pow2(c) * pow2(b) <= pow2(c) * size(y)) by (nonlinear_arith)
        requires
            pow2(b) <= size(y),
    ;
    lemma_rounds_up_to(n, size(y), c);
    lemma_pack(f, f.negative(x.bits as nat) != f.negative(y.bits as nat), f.round(n, size(y)));
}

/// A quarter of the spacing is lost in a sum.
proof fn lemma_lost(e: nat)
    requires
        e + 54 <= 2097,
    ensures
        Format::Double.round(pow2(e + 54) + pow2(e), 1) < Format::Double.inf(),
        Format::Double.units(Format::Double.round(pow2(e + 54) + pow2(e), 1)) == pow2(e + 54),
{
    let f = Format::Double;
    let h = f.hidden();
    lemma_sizes(f);
    lemma2_to64();
    lemma2_to64_rest();
    reveal(Format::round);
    let n = pow2(e + 54) + pow2(e);
    lemma_pow2_strictly_increases(e, e + 54);
    lemma_pow2_adds(1, e + 54);
    lemma_bit_len_unique(n, e + 55);
    let j = e + 2;
    assert(n / 1 == n);
    assert(f.spacing(n) == j);
    lemma_pow2_adds(52, j);
    lemma_pow2_adds(2, e);
    lemma_pow2_pos(e);
    let w = pow2(j);
    assert(1 * w == w);
    lemma_fundamental_div_mod_converse(n as int, w as int, h as int, pow2(e) as int);
    assert(nearest_even(n, w) == h);
    let mag = j * h + h;
    assert(mag == (e + 3) * h) by (nonlinear_arith)
        requires
            mag == j * h + h,
            j == e + 2,
    ;
    assert(mag < f.inf());
    reveal(Format::units);
    lemma_fundamental_div_mod_converse(mag as int, h as int, (e + 3) as int, 0);
}

/// Adding small numbers one after the other never leads beyond a limit: the
/// spacing there is so wide that one more is lost.
pub proof fn lemma_sum_up_to(s: Binary64, x: Binary64, e: nat)
    requires
        up_to(s, e + 54),
        up_to(x, e),
        e + 54 <= 2097,
    ensures
        up_to(s.plus(x), e + 54),
{
    let f = Format::Double;
    reveal(Binary64::finite);
    reveal(Binary64::plus);
    lemma_sizes(f);
    let (a, b) = (s.bits as nat, x.bits as nat);
    sums_round_once(f, a, b);
    lemma_lost(e);
    lemma_units_zero(f);
    lemma_pow2_pos(e + 54);
    let z = f.value(a) + f.value(b);
    let n = (if z < 0 { -z } else { z }) as nat;
    let limit = pow2(e + 54) + pow2(e);
    assert(n <= limit);
    rounding_keeps_the_order(f, n, 1, limit, 1);
    lemma_units_monotone(f, f.round(n, 1), f.round(limit, 1));
    lemma_pack(f, f.negative(a) && f.negative(b), 0);
    lemma_pack(f, true, f.round(n, 1));
    lemma_pack(f, false, f.round(n, 1));
}

/// The root of a power of four bounds the roots of what lies below it.
pub proof fn lemma_root_up_to(x: Binary64, k: nat)
    requires
        up_to(x, 2 * k),
        0 < x.rank(),
        k <= 1024,
    ensures
        up_to(x.root(), k + 537),
{
    let f = Format::Double;
    reveal(Binary64::finite);
    reveal(Binary64::root);
    reveal(Binary64::rank);
    lemma_sizes(f);
    let a = x.bits as nat;
    lemma_unpack(f, a);
    let (n, p) = (f.units(a) * pow2(1074), pow2(k + 537));
    lemma_pow2_adds(k + 537, k + 537);
    lemma_pow2_adds(2 * k, 1074);
    lemma_mul_inequality(f.units(a) as int, pow2(2 * k) as int, pow2(1074) as int);
    let y = isqrt(n);
    lemma_isqrt(n);
    let m = 2 * y + if y * y == n { 0nat } else { 1nat };
    assert(y <= p) by (nonlinear_arith)
        requires
            y * y <= n,
            n <= p * p,
    ;
    assert(m <= p * 2) by {
        if y == p {
            assert(y * y == p * p);
        }
    }
    lemma_rounds_up_to(m, 2, k + 537);
    lemma_small_mod(f.round_sqrt(f.units(a)), f.sign_weight());
}

/// And of what lies above it.
pub proof fn lemma_root_at_least(x: Binary64, k: nat)
    requires
        at_least(x, 2 * k),
        0 < x.rank(),
        x.root().finite(),
        k <= 1024,
    ensures
        at_least(x.root(), k + 537),
{
    let f = Format::Double;
    reveal(Binary64::finite);
    reveal(Binary64::root);
    reveal(Binary64::rank);
    lemma_sizes(f);
    let a = x.bits as nat;
    lemma_unpack(f, a);
    let (n, p) = (f.units(a) * pow2(1074), pow2(k + 537));
    lemma_pow2_adds(k + 537, k + 537);
    lemma_pow2_adds(2 * k, 1074);
    lemma_mul_inequality(pow2(2 * k) as int, f.units(a) as int, pow2(1074) as int);
    let y = isqrt(n);
    lemma_isqrt(n);
    let m = 2 * y + if y * y == n { 0nat } else { 1nat };
    assert(p <= y) by (nonlinear_arith)
        requires
            n < (y + 1) * (y + 1),
            p * p <= n,
    ;
    lemma_rounds_at_least(m, 2, k + 537);
    lemma_root_bounded(f, f.units(a));
    lemma_small_mod(f.round_sqrt(f.units(a)), f.sign_weight());
}

/// A positive number is at least one unit.
pub proof fn lemma_positive_at_least(x: Binary64)
    requires
        x.finite(),
        0 < x.rank(),
    ensures
        at_least(x, 0),
{
    reveal(Binary64::rank);
    lemma2_to64();
    lemma_not_zero(Format::Double.magnitude(x.bits as nat));
}

/// Of two numbers that are not negative the larger has the larger size.
pub proof fn lemma_sizes_ordered(x: Binary64, y: Binary64)
    requires
        0 <= x.rank() <= y.rank(),
    ensures
        size(x) <= size(y),
{
    reveal(Binary64::rank);
    let f = Format::Double;
    lemma_unpack(f, x.bits as nat);
    lemma_unpack(f, y.bits as nat);
    lemma_units_monotone(f, f.magnitude(x.bits as nat), f.magnitude(y.bits as nat));
}

/// A finite single-precision number is below 2^128.
pub proof fn lemma_single_up_to(x: Binary32)
    requires
        x.finite(),
    ensures
        up_to(x.as_binary64(), 1202),
{
    lemma_single(x);
    lemma2_to64();
    lemma_pow2_adds(27, 1175);
    assert(most() * step() <= pow2(27) * pow2(1175)) by (nonlinear_arith)
        requires
            most() <= pow2(27),
            step() == pow2(1175),
    ;
}

/// A larger limit holds too.
pub proof fn lemma_up_to_more(x: Binary64, a: nat, b: nat)
    requires
        up_to(x, a),
        a <= b,
    ensures
        up_to(x, b),
{
    if a < b {
        lemma_pow2_strictly_increases(a, b);
    }
}

/// Zero is within every limit.
pub proof fn lemma_zero_up_to(x: Binary64, e: nat)
    requires
        x.rank() == 0,
        x.finite(),
    ensures
        up_to(x, e),
{
    reveal(Binary64::rank);
    lemma_units_zero(Format::Double);
    lemma_pow2_pos(e);
}

/// The power of two next below the size of a positive number.
pub proof fn lemma_exponent(x: Binary64) -> (e: nat)
    requires
        x.finite(),
        0 < x.rank(),
    ensures
        at_least(x, e),
        size(x) < pow2(e + 1),
{
    lemma_positive_at_least(x);
    lemma2_to64();
    lemma_bit_len_bounds(size(x));
    (bit_len(size(x)) - 1) as nat
}

/// A single-precision number other than zero is at least 2^-149.
pub proof fn lemma_single_at_least(x: Binary32)
    requires
        x.finite(),
        x.rank() != 0,
    ensures
        at_least(x.as_binary64(), 925),
{
    let (s, d) = (Format::Single, Format::Double);
    x.widening_is_exact();
    reveal(Binary32::rank);
    let m = s.magnitude(x.bits as nat);
    lemma_units_zero(s);
    lemma_units_strictly_monotone(s, 0, m);
    lemma_pow2_pos(925);
    let v = s.value(x.bits as nat);
    assert(v >= 1 ==> v * pow2(925) >= pow2(925)) by (nonlinear_arith);
    assert(v <= -1 ==> v * pow2(925) <= -pow2(925)) by (nonlinear_arith);
}

/// What is some way from zero is not zero.
pub proof fn lemma_at_least_not_zero(x: Binary64, e: nat)
    requires
        at_least(x, e),
    ensures
        x.rank() != 0,
{
    reveal(Binary64::rank);
    lemma_pow2_pos(e);
    lemma_units_zero(Format::Double);
}

/// A number and its negative lie equally far from zero.
pub proof fn lemma_negated_up_to(x: Binary64, e: nat)
    requires
        up_to(x, e),
    ensures
        up_to(x.negated(), e),
{
    let f = Format::Double;
    reveal(Binary64::finite);
    reveal(Binary64::negated);
    lemma_sizes(f);
    lemma_unpack(f, x.bits as nat);
    lemma_pack(f, !f.negative(x.bits as nat), f.magnitude(x.bits as nat));
}

/// A number from zero to one is at most 2^1074 units.
pub proof fn lemma_at_most_one_up_to(x: Binary64)
    requires
        x.finite(),
        0 <= x.rank() <= Binary64::unit().rank(),
    ensures
        up_to(x, 1074),
{
    Binary64::unit().unsigned_patterns();
    lemma_sizes_ordered(x, Binary64::unit());
    lemma_one(Format::Double);
}

/// The size of a finite quotient is at least the quotient of the sizes.
pub proof fn lemma_quotient_at_least(x: Binary64, y: Binary64, a: nat, b: nat)
    requires
        at_least(x, a),
        up_to(y, b),
        size(y) > 0,
        x.over(y).finite(),
        b <= a + 1074 <= b + 2097,
    ensures
        at_least(x.over(y), (a + 1074 - b) as nat),
{
    let f = Format::Double;
    reveal(Binary64::finite);
    reveal(Binary64::over);
    lemma_sizes(f);
    let c = (a + 1074 - b) as nat;
    lemma_units_zero(f);
    lemma_pow2_adds(a, 1074);
    lemma_pow2_adds(c, b);
    let n = size(x) * pow2(1074);
    lemma_mul_inequality(pow2(a) as int, size(x) as int, pow2(1074) as int);
    assert(pow2(c) * size(y) <= pow2(c) * pow2(b)) by (nonlinear_arith)
        requires
            size(y) <= pow2(b),
    ;
    lemma_rounds_at_least(n, size(y), c);
    lemma_round_limit(f, n, size(y));
    lemma_pack(f, f.negative(x.bits as nat) != f.negative(y.bits as nat), f.round(n, size(y)));
}

} // verus!
