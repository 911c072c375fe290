//! What a step of a server optimizer is, by what it leads to.
//!
//! The moments and the weight of a coordinate are compared as they come out of
//! a step, but for roundings in single precision.
use vstd::prelude::*;
use vstd::arithmetic::mul::*;
use vstd::arithmetic::power2::*;
use crate::aggregator::Aggregator;
use crate::delta::Delta;
use crate::float::binary32::Binary32;
use crate::float::binary64::Binary64;
use crate::float::format::Format;
use crate::float::ieee::{lemma_round_zero, lemma_units_zero};
use crate::float::laws::{lemma_pack, lemma_product_parts, lemma_round_limit, lemma_sizes, lemma_unpack};
use crate::float::magnitude::lemma_units_strictly_monotone;
use crate::float::scale::{at_least, lemma_at_least_not_zero, lemma_at_most_one_up_to, lemma_negated_up_to, lemma_product_at_least, lemma_product_up_to, lemma_quotient_up_to, lemma_root_up_to, lemma_single_at_least, lemma_single_up_to, lemma_sizes_ordered, lemma_sum_up_to, lemma_up_to_more, lemma_zero_up_to, size, up_to};
use crate::float::slip::{lemma_narrowed_slip, lemma_nearly_at_most, lemma_nearly_chain, lemma_nearly_coarser, lemma_nearly_more, lemma_nearly_root, lemma_nearly_scaled, lemma_nearly_sum, lemma_nearly_zero, lemma_over_slip, lemma_plus_slip, lemma_square_root_slip, lemma_times_slip, nearly, size32};
use crate::float::twice::lemma_size_zero;
use crate::laws::length::lemma_large_product;
use crate::laws::optimizers::fedopt_continues;
use crate::optimization::fedopt::{base_step, fedopt_coordinate, fedopt_step, fedopt_stepped, one64, second_moment, FedOptMemory, FedOptParams, FedOptVariant};
use crate::weights::validated;

verus! {

/// Whether the parameters are finite, the factors fractions, the rate and the
/// floor of adaptivity positive.
pub open spec fn are_usual(p: FedOptParams) -> bool {
    &&& p.server_learning_rate.finite() && 0 < p.server_learning_rate.rank()
    &&& p.tau.finite() && 0 < p.tau.rank()
    &&& p.beta1.finite() && 0 <= p.beta1.rank() <= Binary32::unit().rank()
    &&& p.beta2.finite() && 0 <= p.beta2.rank() <= Binary32::unit().rank()
}

/// A single-precision number that is not negative is one in double precision.
proof fn lemma_wide_length(x: Binary32)
    requires
        x.finite(),
        0 <= x.rank(),
    ensures
        x.as_binary64().finite(),
        0 <= x.as_binary64().rank(),
        0 < x.rank() ==> 0 < x.as_binary64().rank(),
{
    x.widening_is_exact();
    Binary32::nothing().zeros();
    Binary32::nothing().widens_to_nothing();
    Binary32::nothing().widening_keeps_the_order(x);
    if 0 < x.rank() {
        lemma_single_at_least(x);
        lemma_at_least_not_zero(x.as_binary64(), 925);
    }
}

/// What is left of one by a fraction.
proof fn lemma_complement(b: Binary32)
    requires
        b.finite(),
        0 <= b.rank() <= Binary32::unit().rank(),
    ensures
        one64().minus(b.as_binary64()).finite(),
        0 <= one64().minus(b.as_binary64()).rank() <= one64().rank(),
        up_to(one64().minus(b.as_binary64()), 1074),
        up_to(b.as_binary64(), 1074),
{
    let x = b.as_binary64();
    lemma_wide_length(b);
    Binary32::unit().unsigned_patterns();
    b.widening_keeps_the_order(Binary32::unit());
    Binary32::one_is_one();
    Binary64::unit().unsigned_patterns();
    one64().differences_stay_within(x);
    lemma_at_most_one_up_to(x);
    lemma_at_most_one_up_to(one64().minus(x));
}

/// The numbers a step is made of, none of which leaves the finite numbers.
pub struct Parts {
    pub delta: Binary64,
    pub m: Binary64,
    pub v: Binary64,
    pub root: Binary64,
    pub divisor: Binary64,
    pub step: Binary64,
}

spec fn parts(
    variant: FedOptVariant,
    p: FedOptParams,
    target: Binary32,
    previous: Binary32,
    m0: Binary32,
    v0: Binary32,
) -> Parts {
    let delta = target.as_binary64().minus(previous.as_binary64());
    let beta1 = p.beta1.as_binary64();
    let m = beta1.times(m0.as_binary64()).plus(one64().minus(beta1).times(delta));
    let raw = second_moment(variant, p.beta2.as_binary64(), v0.as_binary64(), delta.times(delta));
    let v = raw.larger(p.tau.times(p.tau).as_binary64());
    let divisor = v.root().plus(p.tau.as_binary64());
    let step = p.server_learning_rate.as_binary64().times(m).over(divisor);
    Parts { delta, m, v, root: v.root(), divisor, step }
}

proof fn lemma_parts(
    variant: FedOptVariant,
    p: FedOptParams,
    target: Binary32,
    previous: Binary32,
    m0: Binary32,
    v0: Binary32,
)
    requires
        are_usual(p),
        target.finite(),
        previous.finite(),
        m0.finite(),
        v0.finite(),
        0 <= v0.rank(),
        p.tau.times(p.tau).finite(),
    ensures
        ({
            let q = parts(variant, p, target, previous, m0, v0);
            let rate = p.server_learning_rate.as_binary64();
            &&& fedopt_coordinate(variant, p, target, previous, m0, v0) == (
                q.m.as_binary32(),
                q.v.as_binary32(),
                previous.as_binary64().plus(q.step).as_binary32(),
            )
            &&& up_to(q.delta, 1256)
            &&& up_to(q.m, 1310)
            &&& up_to(q.v, 1546)
            &&& 0 <= q.v.rank()
            &&& up_to(q.root, 1310)
            &&& 0 <= q.root.rank()
            &&& up_to(q.divisor, 1364)
            &&& 0 < q.divisor.rank()
            &&& at_least(q.divisor, 925)
            &&& up_to(rate.times(q.m), 1438)
            &&& q.step.finite()
        }),
{
    reveal(fedopt_coordinate);
    let q = parts(variant, p, target, previous, m0, v0);
    lemma_single_up_to(target);
    lemma_single_up_to(previous);
    lemma_single_up_to(m0);
    lemma_single_up_to(v0);
    lemma_negated_up_to(previous.as_binary64(), 1202);
    lemma_up_to_more(target.as_binary64(), 1202, 1256);
    lemma_sum_up_to(target.as_binary64(), previous.as_binary64().negated(), 1202);
    lemma_complement(p.beta1);
    lemma_complement(p.beta2);
    // the first moment
    let beta1 = p.beta1.as_binary64();
    lemma_product_up_to(beta1, m0.as_binary64(), 1074, 1202);
    let rest = one64().minus(beta1).times(q.delta);
    lemma_product_up_to(one64().minus(beta1), q.delta, 1074, 1256);
    lemma_up_to_more(beta1.times(m0.as_binary64()), 1202, 1310);
    lemma_sum_up_to(beta1.times(m0.as_binary64()), rest, 1256);
    // the second moment
    let square = q.delta.times(q.delta);
    lemma_product_up_to(q.delta, q.delta, 1256, 1256);
    let before = v0.as_binary64();
    let beta2 = p.beta2.as_binary64();
    lemma_up_to_more(before, 1202, 1492);
    lemma_sum_up_to(before, square, 1438);
    lemma_product_up_to(beta2, before, 1074, 1202);
    lemma_up_to_more(beta2.times(before), 1202, 1492);
    let part = one64().minus(beta2).times(square);
    lemma_product_up_to(one64().minus(beta2), square, 1074, 1438);
    lemma_sum_up_to(beta2.times(before), part, 1438);
    lemma_yogi_bound(before, part, square);
    let raw = second_moment(variant, beta2, before, square);
    assert(up_to(raw, 1492));
    let floor = p.tau.times(p.tau);
    p.tau.finite_is_a_number();
    p.tau.square_is_not_negative();
    lemma_wide_length(floor);
    lemma_single_up_to(floor);
    lemma_up_to_more(raw, 1492, 1546);
    lemma_up_to_more(floor.as_binary64(), 1202, 1546);
    raw.finite_is_a_number();
    floor.as_binary64().finite_is_a_number();
    let v = q.v;
    assert(up_to(v, 1546) && 0 <= v.rank());
    // the divisor
    v.finite_is_a_number();
    v.root_of_a_length();
    if v.rank() == 0 {
        v.root_of_nothing();
        lemma_zero_up_to(q.root, 1310);
    } else {
        lemma_root_up_to(v, 773);
    }
    let tau = p.tau.as_binary64();
    lemma_wide_length(p.tau);
    lemma_single_up_to(p.tau);
    lemma_up_to_more(q.root, 1310, 1364);
    lemma_up_to_more(tau, 1202, 1310);
    lemma_sum_up_to(q.root, tau, 1310);
    q.root.plus_grows(tau);
    tau.plus_grows(q.root);
    q.root.plus_commutes(tau);
    lemma_single_at_least(p.tau);
    lemma_sizes_ordered(tau, q.divisor);
    // the step
    let rate = p.server_learning_rate.as_binary64();
    lemma_single_up_to(p.server_learning_rate);
    lemma_product_up_to(rate, q.m, 1202, 1310);
    lemma_quotient_up_to(rate.times(q.m), q.divisor, 1438, 925);
}

proof fn lemma_yogi_bound(before: Binary64, part: Binary64, square: Binary64)
    requires
        up_to(before, 1492),
        up_to(part, 1438),
        up_to(square, 1438),
    ensures
        ({
            let diff = before.minus(square);
            let sign = if Binary64::nothing().below(diff) {
                one64()
            } else if diff.below(Binary64::nothing()) {
                Binary64 { bits: 0xbff0_0000_0000_0000 }
            } else {
                Binary64::nothing()
            };
            up_to(before.minus(part.times(sign)), 1492)
        }),
{
    let diff = before.minus(square);
    let minus = Binary64 { bits: 0xbff0_0000_0000_0000 };
    let sign = if Binary64::nothing().below(diff) {
        one64()
    } else if diff.below(Binary64::nothing()) {
        minus
    } else {
        Binary64::nothing()
    };
    Binary64::unit().unsigned_patterns();
    Binary64::nothing().zeros();
    lemma_at_most_one_up_to(one64());
    lemma_at_most_one_up_to(Binary64::nothing());
    assert(one64().negated() == minus) by {
        reveal(Binary64::negated);
        vstd::arithmetic::div_mod::lemma_small_mod(
            0x3ff0_0000_0000_0000,
            Format::Double.sign_weight(),
        );
    }
    lemma_negated_up_to(one64(), 1074);
    lemma_product_up_to(part, sign, 1438, 1074);
    lemma_negated_up_to(part.times(sign), 1438);
    lemma_sum_up_to(before, part.times(sign).negated(), 1438);
}

/// The sign of a quotient of a product by a positive number is that of the
/// factor other than a positive one.
proof fn lemma_step_sign(rate: Binary64, m: Binary64, divisor: Binary64)
    requires
        rate.finite(),
        0 < rate.rank(),
        m.finite(),
        divisor.finite(),
        0 < divisor.rank(),
        rate.times(m).finite(),
        rate.times(m).over(divisor).finite(),
    ensures
        0 <= m.rank() ==> 0 <= rate.times(m).over(divisor).rank(),
        m.rank() <= 0 ==> rate.times(m).over(divisor).rank() <= 0,
        0 <= m.rank() ==> 0 <= rate.times(m).rank(),
        m.rank() <= 0 ==> rate.times(m).rank() <= 0,
{
    let f = Format::Double;
    reveal(Binary64::finite);
    reveal(Binary64::rank);
    reveal(Binary64::times);
    reveal(Binary64::over);
    lemma_sizes(f);
    let (a, b, c) = (rate.bits as nat, m.bits as nat, divisor.bits as nat);
    lemma_unpack(f, a);
    lemma_unpack(f, b);
    lemma_unpack(f, c);
    lemma_product_parts(f, a, b);
    let x = f.product(a, b);
    lemma_unpack(f, x);
    lemma_units_zero(f);
    lemma_pow2_pos(1074);
    if f.magnitude(b) == 0 {
        assert(f.units(f.magnitude(a)) * 0 == 0);
        lemma_round_zero(f, pow2(1074));
    }
    lemma_units_strictly_monotone(f, 0, f.magnitude(c));
    let (n, d) = (f.units(f.magnitude(x)) * pow2(1074), f.units(f.magnitude(c)));
    lemma_round_limit(f, n, d);
    lemma_pack(f, f.negative(x) != f.negative(c), f.round(n, d));
    if f.magnitude(x) == 0 {
        assert(0 * pow2(1074) == 0);
        lemma_round_zero(f, d);
    }
}

/// Adding a step leads no way but its own.
proof fn lemma_moved(previous: Binary32, step: Binary64)
    requires
        previous.finite(),
        step.finite(),
    ensures
        0 <= step.rank() ==> previous.rank() <= previous.as_binary64().plus(
            step,
        ).as_binary32().rank(),
        step.rank() <= 0 ==> previous.as_binary64().plus(step).as_binary32().rank()
            <= previous.rank(),
{
    let x = previous.as_binary64();
    previous.widening_is_exact();
    x.finite_is_a_number();
    x.running_sums_are_numbers(step);
    Binary64::nothing().zeros();
    x.zero_adds_nothing(Binary64::nothing());
    if 0 <= step.rank() {
        x.plus_grows(step);
        x.narrowing_keeps_the_order(x.plus(step));
    }
    if step.rank() <= 0 {
        step.plus_keeps_the_order(Binary64::nothing(), x);
        step.plus_commutes(x);
        x.plus(step).narrowing_keeps_the_order(x);
    }
}

/// A weight moves the way of its new first moment, whatever way the aggregate
/// lies: up where the moment is positive, down where it is negative.
pub proof fn weights_follow_the_first_moment(
    variant: FedOptVariant,
    p: FedOptParams,
    target: Binary32,
    previous: Binary32,
    m0: Binary32,
    v0: Binary32,
)
    requires
        are_usual(p),
        target.finite(),
        previous.finite(),
        m0.finite(),
        v0.finite(),
        0 <= v0.rank(),
        p.tau.times(p.tau).finite(),
    ensures
        ({
            let (m, v, w) = fedopt_coordinate(variant, p, target, previous, m0, v0);
            &&& 0 < m.rank() ==> previous.rank() <= w.rank()
            &&& m.rank() < 0 ==> w.rank() <= previous.rank()
        }),
{
    let q = parts(variant, p, target, previous, m0, v0);
    lemma_parts(variant, p, target, previous, m0, v0);
    lemma_wide_length(p.server_learning_rate);
    lemma_step_sign(p.server_learning_rate.as_binary64(), q.m, q.divisor);
    lemma_moved(previous, q.step);
    let zero = Binary64::nothing();
    zero.zeros();
    zero.finite_is_a_number();
    q.m.finite_is_a_number();
    zero.narrows_to_nothing();
    if q.m.rank() <= 0 {
        q.m.narrowing_keeps_the_order(zero);
    }
    if 0 <= q.m.rank() {
        zero.narrowing_keeps_the_order(q.m);
    }
}

/// Whether the sizes agree but for `k` roundings in single precision.
pub open spec fn agree(a: nat, b: nat, k: nat) -> bool {
    nearly(Format::Single, a, b, k) && nearly(Format::Single, b, a, k)
}

/// Whether `step` leads from `previous` to `w`.
pub open spec fn leads(previous: Binary32, step: Binary64, w: Binary32) -> bool {
    step.finite() && w == previous.as_binary64().plus(step).as_binary32()
}

/// A weight moves by the rate times its new first moment over the root of its
/// new second moment and tau: the step, times that root and tau, is the rate
/// times the moment, but for roundings. (Moments that are lost to single
/// precision, or leave it, are left out.)
pub proof fn steps_are_the_moment_over_the_root(
    variant: FedOptVariant,
    p: FedOptParams,
    target: Binary32,
    previous: Binary32,
    m0: Binary32,
    v0: Binary32,
)
    requires
        are_usual(p),
        target.finite(),
        previous.finite(),
        m0.finite(),
        v0.finite(),
        0 <= v0.rank(),
        p.tau.times(p.tau).finite(),
        ({
            let (m, v, w) = fedopt_coordinate(variant, p, target, previous, m0, v0);
            m.finite() && v.finite() && size32(m) >= pow2(25) && size32(v) >= pow2(25)
        }),
    ensures
        ({
            let (m, v, w) = fedopt_coordinate(variant, p, target, previous, m0, v0);
            exists|step: Binary64| #[trigger]
                leads(previous, step, w) && agree(
                    size(step) * size(v.as_binary64().root().plus(p.tau.as_binary64())),
                    size(p.server_learning_rate.as_binary64()) * size(m.as_binary64()),
                    16,
                )
        }),
{
    let s = Format::Single;
    let q = parts(variant, p, target, previous, m0, v0);
    lemma_parts(variant, p, target, previous, m0, v0);
    let (m, v, w) = fedopt_coordinate(variant, p, target, previous, m0, v0);
    let rate = p.server_learning_rate.as_binary64();
    let tau = p.tau.as_binary64();
    lemma_narrowed_slip(q.m);
    lemma_narrowed_slip(q.v);
    lemma_wide_length(p.server_learning_rate);
    lemma_wide_length(p.tau);
    lemma_single_at_least(p.server_learning_rate);
    // the divisor by the second moment as it comes out
    let wide = v.as_binary64();
    v.widening_is_exact();
    lemma_single_up_to(v);
    lemma_not_negative_narrowed(q.v);
    lemma_wide_length(v);
    lemma_size_zero(q.v);
    lemma_size_zero(wide);
    lemma_pow2_pos(949);
    lemma_positive_sizes(q.v, wide);
    wide.finite_is_a_number();
    wide.root_of_a_length();
    lemma_up_to_more(wide, 1202, 1546);
    lemma_root_up_to(wide, 773);
    lemma_single_up_to(p.tau);
    lemma_divisors_agree(q.v, wide, tau);
    let divisor = wide.root().plus(tau);
    // the step
    let x = rate.times(q.m);
    lemma_large_product(size(rate), size(q.m), 925, 949, 1127);
    lemma_product_at_least(rate, q.m, 925, 949);
    lemma_times_slip(rate, q.m);
    lemma_large_product(size(x), pow2(1074), 800, 1074, 1874);
    lemma_pow2_adds(53, 1364);
    lemma_pow2_strictly_increases(1417, 1874);
    lemma_mul_inequality(size(q.divisor) as int, pow2(1364) as int, pow2(53) as int);
    lemma_mul_is_commutative(size(q.divisor) as int, pow2(53) as int);
    lemma_mul_is_commutative(pow2(1364) as int, pow2(53) as int);
    lemma_pow2_pos(925);
    lemma_over_slip(x, q.divisor);
    let (a, d, e, r, n, k, y, u) = (
        size(q.step),
        size(q.divisor),
        size(divisor),
        size(rate),
        size(q.m),
        size(m.as_binary64()),
        size(x),
        pow2(1074),
    );
    lemma_nearly_coarser(a * d, y * u, 1);
    lemma_nearly_coarser(y * u, a * d, 2);
    lemma_nearly_coarser(y * u, r * n, 1);
    lemma_nearly_coarser(r * n, y * u, 2);
    lemma_nearly_chain(s, a * d, y * u, r * n, 1, 1);
    lemma_nearly_chain(s, r * n, y * u, a * d, 2, 2);
    lemma_nearly_scaled(s, n, k, r, 2);
    lemma_nearly_scaled(s, k, n, r, 1);
    lemma_nearly_chain(s, a * d, r * n, r * k, 2, 2);
    lemma_nearly_chain(s, r * k, r * n, a * d, 1, 4);
    lemma_nearly_scaled(s, d, e, a, 11);
    lemma_nearly_scaled(s, e, d, a, 11);
    lemma_nearly_chain(s, a * e, a * d, r * k, 11, 4);
    lemma_nearly_chain(s, r * k, a * d, a * e, 5, 11);
    lemma_nearly_more(s, a * e, r * k, 15, 16);
    assert(leads(previous, q.step, w));
}

proof fn lemma_positive_sizes(x: Binary64, y: Binary64)
    requires
        x.finite(),
        y.finite(),
        0 <= x.rank(),
        0 <= y.rank(),
        size(x) >= pow2(949),
        nearly(Format::Single, size(x), size(y), 2),
    ensures
        0 < x.rank(),
        0 < y.rank(),
{
    lemma_pow2_pos(949);
    lemma_size_zero(x);
    lemma_size_zero(y);
    if size(y) == 0 {
        lemma_nearly_zero(Format::Single, size(x), 2);
    }
}

/// What is not negative is so when narrowed.
proof fn lemma_not_negative_narrowed(x: Binary64)
    requires
        x.finite(),
        0 <= x.rank(),
    ensures
        0 <= x.as_binary32().rank(),
{
    let zero = Binary64::nothing();
    zero.zeros();
    zero.finite_is_a_number();
    x.finite_is_a_number();
    zero.narrows_to_nothing();
    zero.narrowing_keeps_the_order(x);
}

/// Divisors of second moments that agree but for narrowing do.
proof fn lemma_divisors_agree(x: Binary64, y: Binary64, tau: Binary64)
    requires
        up_to(x, 1546),
        up_to(y, 1546),
        0 < x.rank(),
        0 < y.rank(),
        up_to(x.root(), 1310),
        up_to(y.root(), 1310),
        up_to(tau, 1202),
        0 < tau.rank(),
        nearly(Format::Single, size(y), size(x), 1),
        nearly(Format::Single, size(x), size(y), 2),
    ensures
        nearly(Format::Single, size(x.root().plus(tau)), size(y.root().plus(tau)), 11),
        nearly(Format::Single, size(y.root().plus(tau)), size(x.root().plus(tau)), 11),
{
    let s = Format::Single;
    let (a, b, t, u) = (size(x.root()), size(y.root()), size(tau), pow2(1074));
    lemma_square_root_slip(x);
    lemma_square_root_slip(y);
    lemma_nearly_coarser(a * a, size(x) * u, 3);
    lemma_nearly_coarser(size(y) * u, b * b, 5);
    lemma_nearly_scaled(s, size(x), size(y), u, 2);
    lemma_nearly_chain(s, a * a, size(x) * u, size(y) * u, 3, 2);
    lemma_nearly_chain(s, a * a, size(y) * u, b * b, 5, 5);
    lemma_nearly_more(s, a * a, b * b, 10, 16);
    lemma_nearly_root(s, a, b, 8);
    lemma_nearly_coarser(b * b, size(y) * u, 3);
    lemma_nearly_coarser(size(x) * u, a * a, 5);
    lemma_nearly_scaled(s, size(y), size(x), u, 1);
    lemma_nearly_chain(s, b * b, size(y) * u, size(x) * u, 3, 1);
    lemma_nearly_chain(s, b * b, size(x) * u, a * a, 4, 5);
    lemma_nearly_more(s, b * b, a * a, 9, 16);
    lemma_nearly_root(s, b, a, 8);
    x.finite_is_a_number();
    y.finite_is_a_number();
    x.root_of_a_length();
    y.root_of_a_length();
    lemma_up_to_more(x.root(), 1310, 1364);
    lemma_up_to_more(y.root(), 1310, 1364);
    lemma_up_to_more(tau, 1202, 1310);
    lemma_sum_up_to(x.root(), tau, 1310);
    lemma_sum_up_to(y.root(), tau, 1310);
    lemma_plus_slip(x.root(), tau);
    lemma_plus_slip(y.root(), tau);
    let (d, e) = (size(x.root().plus(tau)), size(y.root().plus(tau)));
    lemma_nearly_at_most(s, t, t, 8);
    lemma_nearly_sum(s, a, b, t, t, 8);
    lemma_nearly_sum(s, b, a, t, t, 8);
    lemma_nearly_coarser(d, a + t, 1);
    lemma_nearly_coarser(a + t, d, 2);
    lemma_nearly_coarser(e, b + t, 1);
    lemma_nearly_coarser(b + t, e, 2);
    lemma_nearly_chain(s, d, a + t, b + t, 1, 8);
    lemma_nearly_chain(s, d, b + t, e, 9, 2);
    lemma_nearly_chain(s, e, b + t, a + t, 1, 8);
    lemma_nearly_chain(s, e, a + t, d, 9, 2);
}

/// The same of the optimizer as a whole: after a round that goes on from a
/// model, every weight has moved the way of its moment, by the rate times the
/// moment over the root of the second one and tau.
pub proof fn optimizers_move_every_weight_so<B: Aggregator>(
    s: FedOptMemory<B::State>,
    batch: Seq<Delta>,
    i: int,
)
    requires
        are_usual(s.params),
        s.params.tau.times(s.params.tau).finite(),
        batch.len() > 0,
        validated(batch) is Ok,
        fedopt_continues(s, batch),
        fedopt_step::<B>(s, batch).0 is Ok,
        base_step::<B>(s.base, batch, validated(batch)->Ok_0).0 is Ok,
        0 <= i < base_step::<B>(s.base, batch, validated(batch)->Ok_0).0->Ok_0.len(),
        base_step::<B>(s.base, batch, validated(batch)->Ok_0).0->Ok_0[i].finite(),
        s.optimizer->0.global[i].finite(),
        s.optimizer->0.m[i].finite(),
        s.optimizer->0.v[i].finite(),
        0 <= s.optimizer->0.v[i].rank(),
    ensures
        ({
            let (o, n) = (s.optimizer->0, fedopt_step::<B>(s, batch).1.optimizer->0);
            &&& 0 < n.m[i].rank() ==> o.global[i].rank() <= n.global[i].rank()
            &&& n.m[i].rank() < 0 ==> n.global[i].rank() <= o.global[i].rank()
            &&& n.m[i].finite() && n.v[i].finite() && size32(n.m[i]) >= pow2(25) && size32(n.v[i])
                >= pow2(25) ==> exists|step: Binary64| #[trigger]
                leads(o.global[i], step, n.global[i]) && agree(
                    size(step) * size(
                        n.v[i].as_binary64().root().plus(s.params.tau.as_binary64()),
                    ),
                    size(s.params.server_learning_rate.as_binary64()) * size(
                        n.m[i].as_binary64(),
                    ),
                    16,
                )
        }),
{
    reveal(fedopt_step);
    let (o, n) = (s.optimizer->0, fedopt_step::<B>(s, batch).1.optimizer->0);
    let aggregate = base_step::<B>(s.base, batch, validated(batch)->Ok_0).0->Ok_0;
    let target = aggregate[i];
    assert(n == fedopt_stepped(s.variant, s.params, aggregate, o));
    assert((n.m[i], n.v[i], n.global[i]) == fedopt_coordinate(
        s.variant,
        s.params,
        target,
        o.global[i],
        o.m[i],
        o.v[i],
    ));
    weights_follow_the_first_moment(s.variant, s.params, target, o.global[i], o.m[i], o.v[i]);
    if n.m[i].finite() && n.v[i].finite() && size32(n.m[i]) >= pow2(25) && size32(n.v[i]) >= pow2(
        25,
    ) {
        steps_are_the_moment_over_the_root(
            s.variant,
            s.params,
            target,
            o.global[i],
            o.m[i],
            o.v[i],
        );
    }
}

} // verus!
