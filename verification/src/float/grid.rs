//! Double-precision arithmetic between the multiples of a power of two.
//!
//! Numbers that lie between two multiples of the same power of two keep lying
//! between such multiples when they are added, whatever rounding does to
//! them, as long as the multiples themselves are numbers.
use vstd::prelude::*;
use vstd::arithmetic::power2::*;
use vstd::arithmetic::div_mod::*;
use vstd::arithmetic::mul::*;
use crate::float::binary32::Binary32;
use crate::float::binary64::Binary64;
use crate::float::format::{bit_len, Format};
use crate::float::laws::{lemma_one, lemma_pack, lemma_product_parts, lemma_round_at_most, lemma_sizes, lemma_unpack, products_commute, rounding_is_exact_on_numbers, small_factors_do_not_grow, sums_round_once, whole_numbers_are_finite};
use crate::float::magnitude::{lemma_hidden, lemma_units_monotone};
use crate::float::round::{lemma_bit_len_bounds, lemma_bit_len_shifted};

verus! {

/// The step of the grid, in units of double precision: 2^101.
pub open spec fn step() -> nat {
    pow2(1175)
}

/// How many steps the largest single-precision number is.
pub open spec fn most() -> nat {
    134_217_720
}

/// The number a double-precision bit pattern stands for, in units.
pub open spec fn amount(x: Binary64) -> int {
    Format::Double.value(x.bits as nat)
}

/// Whether a number is finite and lies between `low` steps below zero and
/// `high` steps above it.
pub open spec fn within(x: Binary64, low: nat, high: nat) -> bool {
    x.finite() && -(low * step()) <= amount(x) <= high * step()
}

/// A multiple of a power of two with at most 53 binary digits is a number.
pub proof fn lemma_multiple(k: nat, e: nat) -> (mag: nat)
    requires
        k < pow2(53),
        53 <= e <= 1900,
    ensures
        mag < Format::Double.inf(),
        Format::Double.units(mag) == k * pow2(e),
{
    let d = Format::Double;
    lemma_sizes(d);
    lemma_hidden(d);
    lemma2_to64();
    lemma2_to64_rest();
    reveal(Format::units);
    let h = d.hidden();
    if k == 0 {
        lemma_small_mod(0, h);
        lemma_div_of0(h as int);
        assert(0 * pow2(e) == 0);
        0
    } else {
        let b = bit_len(k);
        lemma_bit_len_bounds(k);
        if b > 53 {
            if b - 1 > 53 {
                lemma_pow2_strictly_increases(53, (b - 1) as nat);
            }
        }
        let t = (53 - b) as nat;
        let s = (k * pow2(t)) as nat;
        lemma_bit_len_shifted(k, t);
        lemma_bit_len_bounds(s);
        assert(s > 0) by (nonlinear_arith)
            requires
                k > 0,
                pow2(t) > 0,
                s == k * pow2(t),
        {
            lemma_pow2_pos(t);
        }
        let j = (e - t) as nat;
        let mag = (j * h + s) as nat;
        assert(mag == (j + 1) * h + (s - h)) by (nonlinear_arith)
            requires
                mag == j * h + s,
        ;
        lemma_fundamental_div_mod_converse(mag as int, h as int, (j + 1) as int, s - h);
        lemma_pow2_adds(t, j);
        assert((k * pow2(t)) * pow2(j) == k * pow2(e)) by (nonlinear_arith)
            requires
                pow2(t) * pow2(j) == pow2(e),
        ;
        mag
    }
}

/// Rounding keeps what lies between two multiples there.
proof fn lemma_round_within(n: nat, d: nat, k: nat)
    requires
        d > 0,
        k < pow2(53),
        n <= (k * step()) * d,
    ensures
        Format::Double.round(n, d) < Format::Double.inf(),
        Format::Double.units(Format::Double.round(n, d)) <= k * step(),
{
    let f = Format::Double;
    let mag = lemma_multiple(k, 1175);
    lemma_round_at_most(f, n, d, mag);
    lemma_units_monotone(f, f.round(n, d), mag);
}

/// A sum whose exact value lies between two multiples does so when rounded.
pub proof fn lemma_sum_within(x: Binary64, y: Binary64, low: nat, high: nat)
    requires
        x.finite(),
        y.finite(),
        low < pow2(53),
        high < pow2(53),
        -(low * step()) <= amount(x) + amount(y) <= high * step(),
    ensures
        within(x.plus(y), low, high),
{
    let f = Format::Double;
    reveal(Binary64::finite);
    reveal(Binary64::plus);
    lemma_sizes(f);
    let (a, b) = (x.bits as nat, y.bits as nat);
    sums_round_once(f, a, b);
    let s = f.sum(a, b);
    lemma_unpack(f, s);
    let z = f.value(a) + f.value(b);
    crate::float::ieee::lemma_units_zero(f);
    assert(0 <= low * step()) by (nonlinear_arith);
    assert(0 <= high * step()) by (nonlinear_arith);
    if z == 0 {
        lemma_pack(f, f.negative(a) && f.negative(b), 0);
    } else if z < 0 {
        let n = (-z) as nat;
        assert((low * step()) * 1 == low * step());
        lemma_round_within(n, 1, low);
        lemma_pack(f, true, f.round(n, 1));
    } else {
        let n = z as nat;
        assert((high * step()) * 1 == high * step());
        lemma_round_within(n, 1, high);
        lemma_pack(f, false, f.round(n, 1));
    }
}

/// Negation turns the amount round.
pub proof fn lemma_negated(x: Binary64)
    requires
        x.finite(),
    ensures
        x.negated().finite(),
        amount(x.negated()) == -amount(x),
{
    let f = Format::Double;
    reveal(Binary64::finite);
    reveal(Binary64::negated);
    lemma_sizes(f);
    lemma_unpack(f, x.bits as nat);
    lemma_pack(f, !f.negative(x.bits as nat), f.magnitude(x.bits as nat));
}

/// A finite single-precision number is at most the largest one.
pub proof fn lemma_single(x: Binary32)
    requires
        x.finite(),
    ensures
        within(x.as_binary64(), most(), most()),
{
    let f = Format::Single;
    x.widening_is_exact();
    reveal(Binary32::finite);
    lemma_sizes(f);
    let m = f.magnitude(x.bits as nat);
    let top = (f.inf() - 1) as nat;
    lemma_units_monotone(f, m, top);
    assert(f.units(top) == 0xff_ffff * pow2(253)) by {
        reveal(Format::units);
        lemma_fundamental_div_mod_converse(top as int, f.hidden() as int, 254, 0x7f_ffff);
    }
    lemma2_to64();
    lemma_pow2_adds(253, 925);
    lemma_pow2_adds(3, 1175);
    assert((0xff_ffff * pow2(253)) * pow2(925) == most() * step()) by (nonlinear_arith)
        requires
            pow2(253) * pow2(925) == pow2(1178),
            pow2(3) * pow2(1175) == pow2(1178),
            pow2(3) == 8,
            step() == pow2(1175),
            most() == 8 * 0xff_ffff,
    ;
    lemma_mul_inequality(f.units(m) as int, (0xff_ffff * pow2(253)) as int, pow2(925) as int);
    assert(-(f.units(m) as int) * pow2(925) == -((f.units(m) * pow2(925)) as int)) by (nonlinear_arith);
}

/// A factor between zero and one brings a number no farther from zero, and
/// not to its other side.
pub proof fn lemma_scaled_within(x: Binary64, factor: Binary64, low: nat, high: nat)
    requires
        within(x, low, high),
        factor.finite(),
        0 <= factor.rank() <= Binary64::unit().rank(),
    ensures
        within(x.times(factor), low, high),
{
    let f = Format::Double;
    reveal(Binary64::finite);
    reveal(Binary64::times);
    reveal(Binary64::rank);
    lemma_sizes(f);
    lemma_one(f);
    let (a, b) = (x.bits as nat, factor.bits as nat);
    lemma_unpack(f, a);
    lemma_unpack(f, b);
    lemma_product_parts(f, a, b);
    products_commute(f, a, b);
    small_factors_do_not_grow(f, a, b);
    let p = f.product(a, b);
    lemma_units_monotone(f, f.magnitude(p), f.magnitude(a));
    assert(0 <= low * step()) by (nonlinear_arith);
    assert(0 <= high * step()) by (nonlinear_arith);
    crate::float::ieee::lemma_units_zero(f);
    if f.negative(b) {
        // then the factor is zero, and so is the product
        assert(f.magnitude(b) == 0);
        assert(f.units(f.magnitude(a)) * 0 == 0);
        lemma_pow2_pos(f.one_exp());
        crate::float::ieee::lemma_round_zero(f, pow2(f.one_exp()));
    }
}

/// A small whole number is held exactly.
proof fn lemma_whole(n: nat)
    requires
        n < pow2(53),
    ensures
        Binary64::whole(n).finite(),
        !Format::Double.negative(Binary64::whole(n).bits as nat),
        Format::Double.units(Format::Double.magnitude(Binary64::whole(n).bits as nat)) == n * pow2(
            1074,
        ),
{
    let f = Format::Double;
    lemma2_to64();
    lemma2_to64_rest();
    lemma_sizes(f);
    let mag = lemma_multiple(n, 1074);
    rounding_is_exact_on_numbers(f, mag, 1);
    assert(f.units(mag) * 1 == f.units(mag));
    whole_numbers_are_finite(f, n);
    reveal(Binary64::whole);
    reveal(Binary64::finite);
    lemma_small_mod(mag, f.sign_weight());
}

/// The mean of numbers between two multiples lies between them.
pub proof fn lemma_mean_within(x: Binary64, n: nat, low: nat, high: nat)
    requires
        0 < n < pow2(53),
        low < pow2(53),
        high < pow2(53),
        within(x, n * low, n * high),
    ensures
        within(x.over(Binary64::whole(n)), low, high),
{
    let f = Format::Double;
    lemma_whole(n);
    let w = Binary64::whole(n);
    reveal(Binary64::finite);
    reveal(Binary64::over);
    lemma_sizes(f);
    let (a, b) = (x.bits as nat, w.bits as nat);
    lemma_unpack(f, a);
    crate::float::ieee::lemma_units_zero(f);
    lemma_pow2_pos(1074);
    let one = pow2(1074);
    assert(n * one > 0) by (nonlinear_arith) requires n > 0, one > 0;
    assert(f.magnitude(b) != 0);
    let u = f.units(f.magnitude(a));
    let d = f.units(f.magnitude(b));
    assert(0 <= low * step()) by (nonlinear_arith);
    assert(0 <= high * step()) by (nonlinear_arith);
    let bound = if f.negative(a) {
        low
    } else {
        high
    };
    assert(u <= (n * bound) * step());
    assert(u * one <= (bound * step()) * d) by (nonlinear_arith)
        requires
            u <= (n * bound) * step(),
            d == n * one,
    {
        assert(u * one <= ((n * bound) * step()) * one);
        assert(((n * bound) * step()) * one == (bound * step()) * (n * one));
    }
    lemma_round_within(u * one, d, bound);
    lemma_pack(f, f.negative(a), f.round(u * one, d));
}

} // verus!
