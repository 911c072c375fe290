//! What the server optimizers remember and where they move, in exact numbers.
use vstd::prelude::*;
use vstd::arithmetic::mul::*;
use vstd::arithmetic::power2::*;
use crate::aggregator::Aggregator;
use crate::delta::Delta;
use crate::float::binary32::Binary32;
use crate::float::binary64::Binary64;
use crate::float::drift::{far, lemma_far_product, lemma_val, unity, val};
use crate::float::format::Format;
use crate::float::ieee::lemma_units_zero;
use crate::float::laws::{lemma_one, lemma_sizes, lemma_unpack};
use crate::float::magnitude::lemma_units_strictly_monotone;
use crate::float::wide::{lemma_rough_gap, lemma_rough_minus, lemma_rough_more, lemma_rough_narrowed, lemma_rough_plus, lemma_rough_times, lemma_wide, rough, val64};
use crate::laws::optimizers::{fedopt_continues, momentum_continues};
use crate::optimization::fedavgm::{momentum_base, momentum_coordinate, momentum_step, MomentumMemory};
use crate::optimization::fedopt::{base_step, fedopt_coordinate, fedopt_step, fedopt_stepped, one64, second_moment, FedOptMemory, FedOptParams, FedOptVariant};
use crate::weights::validated;

verus! {

/// Whether `x`, times `scale`, is `e`, but for one part in 2^23 of `w`, or one
/// unit of `x`.
pub open spec fn is_rounded(x: Binary32, e: int, w: nat, scale: nat) -> bool {
    0x80_0000 * far(val(x) * scale - e) <= w + 0x80_0000 * scale
}

/// Factors within powers of two have a product within theirs.
pub proof fn lemma_within(a: nat, b: nat, i: nat, j: nat)
    requires
        a <= pow2(i),
        b <= pow2(j),
    ensures
        a * b <= pow2(i + j),
{
    lemma_pow2_adds(i, j);
    lemma_mul_upper_bound(a as int, pow2(i) as int, b as int, pow2(j) as int);
}

/// A finite number in single precision is below 2^128.
pub proof fn lemma_single_within(x: Binary32)
    requires
        x.finite(),
    ensures
        far(val(x)) <= pow2(277),
{
    lemma_val(x);
    lemma2_to64();
    lemma_pow2_adds(24, 253);
    lemma_pow2_pos(253);
}

proof fn lemma_wide_one()
    ensures
        one64().finite(),
        val64(one64()) == unity() * pow2(925),
{
    let f = Format::Double;
    Binary64::unit().unsigned_patterns();
    reveal(Binary64::finite);
    lemma_sizes(f);
    lemma_one(f);
    lemma_pow2_adds(149, 925);
}

/// Two finite numbers are ordered as their values.
pub proof fn lemma_values_ordered(x: Binary64, y: Binary64)
    requires
        x.finite(),
        y.finite(),
    ensures
        x.below(y) <==> val64(x) < val64(y),
        !x.nan(),
        !y.nan(),
{
    let f = Format::Double;
    x.finite_is_a_number();
    y.finite_is_a_number();
    reveal(Binary64::finite);
    reveal(Binary64::rank);
    lemma_sizes(f);
    lemma_units_zero(f);
    let (a, b) = (x.bits as nat, y.bits as nat);
    lemma_unpack(f, a);
    lemma_unpack(f, b);
    let (p, q) = (f.magnitude(a), f.magnitude(b));
    if p < q {
        lemma_units_strictly_monotone(f, p, q);
    }
    if q < p {
        lemma_units_strictly_monotone(f, q, p);
    }
    if 0 < p {
        lemma_units_strictly_monotone(f, 0, p);
    }
    if 0 < q {
        lemma_units_strictly_monotone(f, 0, q);
    }
}

/// The widths that the exact numbers are written in.
proof fn lemma_widths()
    ensures
        pow2(925) == unity() * pow2(776),
        pow2(776) == unity() * pow2(627),
        pow2(925) * pow2(925) == pow2(776) * pow2(1074),
        pow2(925) * pow2(776) == pow2(627) * pow2(1074),
        pow2(925) == (unity() * unity()) * pow2(627),
        pow2(776) >= pow2(49),
        pow2(627) >= pow2(49),
{
    lemma_pow2_adds(149, 776);
    lemma_pow2_adds(149, 627);
    lemma_pow2_adds(925, 925);
    lemma_pow2_adds(776, 1074);
    lemma_pow2_adds(925, 776);
    lemma_pow2_adds(627, 1074);
    lemma_pow2_strictly_increases(49, 776);
    lemma_pow2_strictly_increases(49, 627);
    lemma_mul_is_associative(unity() as int, unity() as int, pow2(627) as int);
}

/// A product of two exact numbers in double precision.
pub proof fn lemma_first_product(x: Binary64, y: Binary64, e: int, g: int, i: nat, j: nat)
    requires
        x.finite(),
        y.finite(),
        rough(val64(x), e * pow2(925), far(e) * pow2(925), i),
        rough(val64(y), g * pow2(925), far(g) * pow2(925), j),
        i <= 0x10_0000,
        j <= 0x10_0000,
        far(e) * far(g) <= pow2(600),
    ensures
        x.times(y).finite(),
        rough(val64(x.times(y)), (e * g) * pow2(776), far(e * g) * pow2(776), 2 * i + j + 2),
{
    let (k, q, t) = (pow2(925), pow2(776), pow2(1074));
    lemma_widths();
    lemma_far_product(e, g);
    let w = far(e * g) * q;
    assert(((e * g) * q) * t == (e * k) * (g * k)) by (nonlinear_arith)
        requires
            k * k == q * t,
    ;
    let (fe, fg) = (far(e), far(g));
    assert(((fe * fg) * q) * t == (fe * k) * (fg * k)) by (nonlinear_arith)
        requires
            k * k == q * t,
    ;
    lemma_large_or_none(fe * fg, q);
    lemma_within(fe * fg, q, 600, 776);
    lemma_pow2_strictly_increases(1376, 2080);
    lemma_rough_times(x, y, e * k, g * k, fe * k, fg * k, i, j, (e * g) * q, w);
}

/// A product of an exact number with a product of two.
proof fn lemma_second_product(
    x: Binary64,
    y: Binary64,
    e: int,
    g: int,
    a: nat,
    b: nat,
    i: nat,
    j: nat,
)
    requires
        x.finite(),
        y.finite(),
        rough(val64(x), e * pow2(925), a * pow2(925), i),
        rough(val64(y), g * pow2(776), b * pow2(776), j),
        i <= 0x10_0000,
        j <= 0x10_0000,
        a * b <= pow2(1200),
    ensures
        x.times(y).finite(),
        rough(val64(x.times(y)), (e * g) * pow2(627), (a * b) * pow2(627), 2 * i + j + 2),
{
    let (k, q, r, t) = (pow2(925), pow2(776), pow2(627), pow2(1074));
    lemma_widths();
    assert(((e * g) * r) * t == (e * k) * (g * q)) by (nonlinear_arith)
        requires
            k * q == r * t,
    ;
    assert(((a * b) * r) * t == (a * k) * (b * q)) by (nonlinear_arith)
        requires
            k * q == r * t,
    ;
    lemma_large_or_none(a * b, r);
    lemma_within(a * b, r, 1200, 627);
    lemma_pow2_strictly_increases(1827, 2080);
    lemma_rough_times(x, y, e * k, g * q, a * k, b * q, i, j, (e * g) * r, (a * b) * r);
}

/// A multiple is none or large.
pub proof fn lemma_large_or_none(a: nat, q: nat)
    requires
        q >= pow2(49),
    ensures
        a * q == 0 || a * q >= pow2(49),
{
    if a == 0 {
        assert(0 * q == 0);
    } else {
        assert(a * q >= q) by (nonlinear_arith)
            requires
                a >= 1,
        ;
    }
}

/// What one less a decay rate, and the move of a coordinate, are.
pub proof fn lemma_inputs(beta: Binary32, target: Binary32, previous: Binary32)
    requires
        beta.finite(),
        target.finite(),
        previous.finite(),
    ensures
        ({
            let c = one64().minus(beta.as_binary64());
            let d = target.as_binary64().minus(previous.as_binary64());
            let (e, g) = (unity() - val(beta), val(target) - val(previous));
            &&& c.finite() && d.finite()
            &&& rough(val64(c), e * pow2(925), far(e) * pow2(925), 1)
            &&& rough(val64(d), g * pow2(925), far(g) * pow2(925), 1)
            &&& far(e) <= pow2(278)
            &&& far(g) <= pow2(278)
        }),
{
    let k = pow2(925);
    let (e, g) = (unity() - val(beta), val(target) - val(previous));
    lemma_single_within(beta);
    lemma_single_within(target);
    lemma_single_within(previous);
    lemma_wide(beta);
    lemma_wide(target);
    lemma_wide(previous);
    lemma_wide_one();
    lemma_pow2_unfold(278);
    lemma_pow2_strictly_increases(149, 277);
    assert(unity() * k - val(beta) * k == e * k) by (nonlinear_arith)
        requires
            e == unity() - val(beta),
    ;
    assert(val(target) * k - val(previous) * k == g * k) by (nonlinear_arith)
        requires
            g == val(target) - val(previous),
    ;
    lemma_far_product(e, k as int);
    lemma_far_product(g, k as int);
    lemma_within(far(e), k, 278, 925);
    lemma_within(far(g), k, 278, 925);
    lemma_pow2_strictly_increases(1203, 2080);
    lemma_rough_gap(one64(), beta.as_binary64());
    lemma_rough_gap(target.as_binary64(), previous.as_binary64());
}

/// What is left of a narrowed number in smaller widths.
proof fn lemma_narrowed(x: Binary64, e: int, w: nat, i: nat, scale: nat, r: nat)
    requires
        x.finite(),
        x.as_binary32().finite(),
        rough(val64(x), e * r, w * r, i),
        i <= 0x10_0000,
        pow2(925) == scale * r,
        r > 0,
    ensures
        is_rounded(x.as_binary32(), e, w, scale),
{
    lemma_rough_narrowed(x, e * r, w * r, i);
    let v = val(x.as_binary32());
    let g = v * scale - e;
    assert(v * pow2(925) - e * r == g * r) by (nonlinear_arith)
        requires
            pow2(925) == scale * r,
            g == v * scale - e,
    ;
    lemma_far_product(g, r as int);
    let f = far(g);
    assert(0x80_0000 * (f * r) == (0x80_0000 * f) * r) by (nonlinear_arith);
    let b = w + 0x80_0000 * scale;
    assert(w * r + 0x80_0000 * pow2(925) == b * r) by (nonlinear_arith)
        requires
            pow2(925) == scale * r,
            b == w + 0x80_0000 * scale,
    ;
    if 0x80_0000 * f > b {
        lemma_mul_strict_inequality(b as int, (0x80_0000 * f) as int, r as int);
    }
}

/// The new first moment is the old one, decayed, and the rest of one times the
/// move from the model to the aggregate, but for one rounding.
pub proof fn first_moments_decay_to_the_move(
    variant: FedOptVariant,
    p: FedOptParams,
    target: Binary32,
    previous: Binary32,
    m: Binary32,
    v: Binary32,
)
    requires
        p.beta1.finite(),
        target.finite(),
        previous.finite(),
        m.finite(),
        fedopt_coordinate(variant, p, target, previous, m, v).0.finite(),
    ensures
        ({
            let (b, d) = (val(p.beta1), val(target) - val(previous));
            is_rounded(
                fedopt_coordinate(variant, p, target, previous, m, v).0,
                b * val(m) + (unity() - b) * d,
                far(b * val(m)) + far((unity() - b) * d),
                unity(),
            )
        }),
{
    reveal(fedopt_coordinate);
    let (b, d, c) = (val(p.beta1), val(target) - val(previous), unity() - val(p.beta1));
    let q = pow2(776);
    lemma_widths();
    lemma_pow2_pos(776);
    lemma_inputs(p.beta1, target, previous);
    lemma_wide(p.beta1);
    lemma_wide(m);
    lemma_single_within(p.beta1);
    lemma_single_within(m);
    lemma_within(far(b), far(val(m)), 277, 277);
    lemma_within(far(c), far(d), 278, 278);
    lemma_pow2_strictly_increases(554, 600);
    lemma_pow2_strictly_increases(556, 600);
    let beta = p.beta1.as_binary64();
    let rest = one64().minus(beta);
    let delta = target.as_binary64().minus(previous.as_binary64());
    lemma_first_product(beta, m.as_binary64(), b, val(m), 0, 0);
    lemma_first_product(rest, delta, c, d, 1, 1);
    let (x, y) = (beta.times(m.as_binary64()), rest.times(delta));
    let (e, g) = (b * val(m), c * d);
    let (fe, fg) = (far(e), far(g));
    lemma_rough_more(val64(x), e * q, fe * q, 2, 5);
    lemma_far_product(b, val(m));
    lemma_far_product(c, d);
    lemma_within(fe, q, 600, 776);
    lemma_within(fg, q, 600, 776);
    lemma_pow2_unfold(1377);
    lemma_pow2_strictly_increases(1377, 2080);
    lemma_rough_plus(x, y, e * q, g * q, fe * q, fg * q, 5);
    assert(e * q + g * q == (e + g) * q) by (nonlinear_arith);
    assert(fe * q + fg * q == (fe + fg) * q) by (nonlinear_arith);
    lemma_narrowed(x.plus(y), e + g, fe + fg, 6, unity(), q);
}

/// The new second moment before its floor, in exact numbers: Adagrad adds the
/// square of the move, Adam decays to it, and Yogi steps towards it by the
/// rest of one times the square.
pub open spec fn exact_square(variant: FedOptVariant, b: int, v: int, d: int) -> int {
    let u = unity() as int;
    match variant {
        FedOptVariant::Adagrad => v * (u * u) + u * (d * d),
        FedOptVariant::Adam => (b * v) * u + (u - b) * (d * d),
        FedOptVariant::Yogi => if v * u < d * d {
            v * (u * u) + (u - b) * (d * d)
        } else {
            v * (u * u) - (u - b) * (d * d)
        },
    }
}

/// What its terms come to without their signs.
pub open spec fn square_weight(variant: FedOptVariant, b: int, v: int, d: int) -> nat {
    let u = unity() as int;
    match variant {
        FedOptVariant::Adagrad => far(v * (u * u)) + far(u * (d * d)),
        FedOptVariant::Adam => far((b * v) * u) + far((u - b) * (d * d)),
        FedOptVariant::Yogi => far(v * (u * u)) + far((u - b) * (d * d)),
    }
}

/// The square of a move in double precision.
pub proof fn lemma_square(target: Binary32, previous: Binary32)
    requires
        target.finite(),
        previous.finite(),
    ensures
        ({
            let delta = target.as_binary64().minus(previous.as_binary64());
            let d = val(target) - val(previous);
            &&& delta.times(delta).finite()
            &&& d * d >= 0
            &&& rough(
                val64(delta.times(delta)),
                (d * d) * pow2(776),
                far(d * d) * pow2(776),
                5,
            )
            &&& far(d * d) <= pow2(556)
        }),
{
    let delta = target.as_binary64().minus(previous.as_binary64());
    let d = val(target) - val(previous);
    lemma_inputs(target, target, previous);
    lemma_within(far(d), far(d), 278, 278);
    lemma_pow2_strictly_increases(556, 600);
    lemma_first_product(delta, delta, d, d, 1, 1);
    lemma_far_product(d, d);
    assert(d * d >= 0) by (nonlinear_arith);
}

/// A widened number, and a product of two, in the smallest width.
proof fn lemma_same_width(e: int, scale: nat, k: nat, r: nat)
    requires
        k == scale * r,
    ensures
        e * k == (e * scale) * r,
        far(e) * k == far(e * scale) * r,
{
    lemma_mul_is_associative(e, scale as int, r as int);
    lemma_far_product(e, scale as int);
    lemma_mul_is_associative(far(e) as int, scale as int, r as int);
}

/// Two terms added up in double precision.
proof fn lemma_two_terms(x: Binary64, y: Binary64, e: int, g: int, a: nat, b: nat, i: nat, r: nat)
    requires
        x.finite(),
        y.finite(),
        rough(val64(x), e * r, a * r, i),
        rough(val64(y), g * r, b * r, i),
        i <= 0x1000,
        a * r <= pow2(2000),
        b * r <= pow2(2000),
    ensures
        x.plus(y).finite(),
        rough(val64(x.plus(y)), (e + g) * r, (a + b) * r, i + 1),
        x.minus(y).finite(),
        rough(val64(x.minus(y)), (e - g) * r, (a + b) * r, i + 1),
{
    lemma_pow2_unfold(2001);
    lemma_pow2_strictly_increases(2001, 2080);
    lemma_rough_plus(x, y, e * r, g * r, a * r, b * r, i);
    lemma_rough_minus(x, y, e * r, g * r, a * r, b * r, i);
    assert(e * r + g * r == (e + g) * r) by (nonlinear_arith);
    assert(e * r - g * r == (e - g) * r) by (nonlinear_arith);
    assert(a * r + b * r == (a + b) * r) by (nonlinear_arith);
}

/// The second moment before its floor is what it should be.
proof fn lemma_second_moment(
    variant: FedOptVariant,
    beta: Binary32,
    target: Binary32,
    previous: Binary32,
    v: Binary32,
)
    requires
        beta.finite(),
        target.finite(),
        previous.finite(),
        v.finite(),
        0 <= v.rank(),
        ({
            let d = val(target) - val(previous);
            variant is Yogi ==> 2 * (d * d) <= val(v) * unity() || 2 * (val(v) * unity()) <= d * d
        }),
    ensures
        ({
            let delta = target.as_binary64().minus(previous.as_binary64());
            let d = val(target) - val(previous);
            let raw = second_moment(
                variant,
                beta.as_binary64(),
                v.as_binary64(),
                delta.times(delta),
            );
            &&& raw.finite()
            &&& rough(
                val64(raw),
                exact_square(variant, val(beta), val(v), d) * pow2(627),
                square_weight(variant, val(beta), val(v), d) * pow2(627),
                30,
            )
            &&& square_weight(variant, val(beta), val(v), d) * pow2(627) <= pow2(2001)
        }),
{
    let delta = target.as_binary64().minus(previous.as_binary64());
    let sq = delta.times(delta);
    let (b, d, vv) = (val(beta), val(target) - val(previous), val(v));
    let u = unity() as int;
    let uu = unity() * unity();
    let c = u - b;
    let dd = d * d;
    let (k, q, r) = (pow2(925), pow2(776), pow2(627));
    let (w64, b64) = (v.as_binary64(), beta.as_binary64());
    let raw = second_moment(variant, b64, w64, sq);
    let rest = one64().minus(b64);
    lemma_widths();
    lemma_pow2_pos(627);
    lemma_inputs(beta, target, previous);
    lemma_square(target, previous);
    lemma_wide(v);
    lemma_wide(beta);
    lemma_val(v);
    lemma_single_within(v);
    lemma_single_within(beta);
    // the old moment
    lemma_same_width(vv, uu, k, r);
    lemma_within(far(vv), k, 277, 925);
    lemma_pow2_strictly_increases(1202, 2000);
    lemma_pow2_unfold(2001);
    // the rest of one times the square
    let t = rest.times(sq);
    lemma_within(far(c), far(dd), 278, 556);
    lemma_pow2_strictly_increases(834, 1200);
    lemma_second_product(rest, sq, c, dd, far(c), far(dd), 1, 5);
    lemma_far_product(c, dd);
    lemma_within(far(c * dd), r, 834, 627);
    lemma_pow2_strictly_increases(1461, 2000);
    assert(far(c * dd) == far(c) * far(dd));
    match variant {
        FedOptVariant::Adagrad => {
            // the square in the smallest width
            lemma_same_width(dd, unity(), q, r);
            assert(dd * u == u * dd) by (nonlinear_arith);
            lemma_within(far(dd), q, 556, 776);
            lemma_pow2_strictly_increases(1332, 2000);
            lemma_rough_more(val64(w64), vv * k, far(vv) * k, 0, 5);
            lemma_two_terms(w64, sq, vv * uu, u * dd, far(vv * uu), far(u * dd), 5, r);
            assert(raw == w64.plus(sq));
            let (e, w) = (vv * uu + u * dd, far(vv * uu) + far(u * dd));
            lemma_rough_more(val64(raw), e * r, w * r, 6, 30);
            assert(w * r == far(vv * uu) * r + far(u * dd) * r) by (nonlinear_arith)
                requires
                    w == far(vv * uu) + far(u * dd),
            ;
        },
        FedOptVariant::Adam => {
            lemma_within(far(b), far(vv), 277, 277);
            lemma_pow2_strictly_increases(554, 600);
            lemma_first_product(b64, w64, b, vv, 0, 0);
            let x = b64.times(w64);
            let bv = b * vv;
            lemma_same_width(bv, unity(), q, r);
            lemma_far_product(b, vv);
            lemma_within(far(bv), q, 554, 776);
            lemma_pow2_strictly_increases(1330, 2000);
            lemma_rough_more(val64(x), bv * q, far(bv) * q, 2, 9);
            lemma_two_terms(x, t, bv * u, c * dd, far(bv * u), far(c * dd), 9, r);
            let (e, w) = (bv * u + c * dd, far(bv * u) + far(c * dd));
            lemma_rough_more(val64(raw), e * r, w * r, 10, 30);
            assert(w * r == far(bv * u) * r + far(c * dd) * r) by (nonlinear_arith)
                requires
                    w == far(bv * u) + far(c * dd),
            ;
        },
        FedOptVariant::Yogi => {
            let w = far(vv * uu) + far(c * dd);
            assert(w * r == far(vv * uu) * r + far(c * dd) * r) by (nonlinear_arith)
                requires
                    w == far(vv * uu) + far(c * dd),
            ;
            lemma_towards(w64, sq, t, vv, dd, c * dd);
            let e = if vv * u < dd {
                vv * uu + c * dd
            } else {
                vv * uu - c * dd
            };
            assert(raw == yogi_step(w64, sq, t));
            lemma_rough_more(val64(raw), e * r, w * r, 21, 30);
        },
    }
}

/// Yogi's step, with the rest of one times the square.
spec fn yogi_step(before: Binary64, square: Binary64, term: Binary64) -> Binary64 {
    let diff = before.minus(square);
    let sign = if Binary64::nothing().below(diff) {
        one64()
    } else if diff.below(Binary64::nothing()) {
        Binary64 { bits: 0xbff0_0000_0000_0000 }
    } else {
        Binary64::nothing()
    };
    before.minus(term.times(sign))
}

/// Zero, one and its opposite.
pub proof fn lemma_signs()
    ensures
        Binary64::nothing().finite(),
        val64(Binary64::nothing()) == 0,
        (Binary64 { bits: 0xbff0_0000_0000_0000 }).finite(),
        val64(Binary64 { bits: 0xbff0_0000_0000_0000 }) == -pow2(1074),
        one64().finite(),
        val64(one64()) == pow2(1074),
{
    let f = Format::Double;
    lemma_wide_one();
    lemma_pow2_adds(149, 925);
    lemma_sizes(f);
    lemma_units_zero(f);
    lemma_one(f);
    reveal(Binary64::finite);
    Binary64::nothing().zeros();
    lemma_unpack(f, 0xbff0_0000_0000_0000);
    lemma_unpack(f, 0);
}

/// Yogi steps towards the square.
proof fn lemma_towards(
    before: Binary64,
    square: Binary64,
    term: Binary64,
    v: int,
    dd: int,
    e: int,
)
    requires
        before.finite(),
        square.finite(),
        term.finite(),
        v >= 0,
        dd >= 0,
        val64(before) == v * pow2(925),
        far(v) <= pow2(277),
        dd <= pow2(556),
        rough(val64(square), dd * pow2(776), far(dd) * pow2(776), 5),
        rough(val64(term), e * pow2(627), far(e) * pow2(627), 9),
        far(e) <= pow2(834),
        dd == 0 ==> e == 0,
        2 * dd <= v * unity() || 2 * (v * unity()) <= dd,
    ensures
        yogi_step(before, square, term).finite(),
        rough(
            val64(yogi_step(before, square, term)),
            (if v * unity() < dd {
                v * (unity() * unity()) + e
            } else {
                v * (unity() * unity()) - e
            }) * pow2(627),
            (far(v * (unity() * unity())) + far(e)) * pow2(627),
            21,
        ),
{
    let (k, q, r, t) = (pow2(925), pow2(776), pow2(627), pow2(1074));
    let u = unity();
    let uu = u * u;
    lemma_widths();
    lemma_pow2_pos(776);
    lemma_pow2_pos(627);
    lemma_pow2_pos(1074);
    lemma_signs();
    let diff = before.minus(square);
    let z = val64(before) - val64(square);
    lemma_within(far(v), k, 277, 925);
    lemma_within(dd as nat, q, 556, 776);
    lemma_pow2_strictly_increases(1202, 1332);
    lemma_pow2_unfold(1333);
    lemma_pow2_unfold(1334);
    lemma_pow2_strictly_increases(1334, 2080);
    lemma_far_product(v, k as int);
    lemma_rough_gap(before, square);
    lemma_values_ordered(Binary64::nothing(), diff);
    lemma_values_ordered(diff, Binary64::nothing());
    // v k is v u q
    assert(v * k == (v * u) * q) by (nonlinear_arith)
        requires
            k == u * q,
    ;
    let (a, b) = ((v * u) * q, dd * q);
    if 2 * dd <= v * u {
        assert(2 * b <= a) by (nonlinear_arith)
            requires
                2 * dd <= v * u,
                a == (v * u) * q,
                b == dd * q,
        ;
    } else {
        assert(2 * a <= b) by (nonlinear_arith)
            requires
                2 * (v * u) <= dd,
                a == (v * u) * q,
                b == dd * q,
        ;
    }
    let sign = if Binary64::nothing().below(diff) {
        one64()
    } else if diff.below(Binary64::nothing()) {
        Binary64 { bits: 0xbff0_0000_0000_0000 }
    } else {
        Binary64::nothing()
    };
    let s: int = if 0 < z {
        1
    } else if z < 0 {
        -1
    } else {
        0
    };
    assert(1 * t == t && (-1) * t == -(t as int) && 0 * t == 0);
    assert(val64(sign) == s * t);
    assert(a >= 0 && b >= 0) by {
        assert(v * u >= 0) by (nonlinear_arith)
            requires
                v >= 0,
        ;
        lemma_mul_nonnegative(v * u, q as int);
        lemma_mul_nonnegative(dd, q as int);
    }
    // the sign is that of the exact difference, or nothing is at stake
    assert(s != 0 ==> (s < 0 <==> v * u < dd)) by {
        if v * u < dd {
            assert(a < b) by (nonlinear_arith)
                requires
                    v * u < dd,
                    a == (v * u) * q,
                    b == dd * q,
                    q > 0,
            ;
        } else {
            assert(b <= a) by (nonlinear_arith)
                requires
                    dd <= v * u,
                    a == (v * u) * q,
                    b == dd * q,
                    q > 0,
            ;
        }
    }
    assert(s == 0 ==> e == 0) by {
        if s == 0 {
            assert(b == 0);
            assert(dd == 0) by (nonlinear_arith)
                requires
                    dd * q == 0,
                    q > 0,
            ;
        }
    }
    // the term with its sign
    let x = term.times(sign);
    let fe = far(e);
    lemma_within(fe, r, 834, 627);
    lemma_pow2_strictly_increases(1461, 2000);
    lemma_pow2_strictly_increases(2000, 2080);
    lemma_large_or_none(fe, r);
    let g = e * s;
    assert((g * r) * t == (e * r) * (s * t)) by (nonlinear_arith)
        requires
            g == e * s,
    ;
    lemma_far_product(s, t as int);
    assert(far(s * t) <= t) by (nonlinear_arith)
        requires
            far(s * t) == far(s) * far(t as int),
            far(s) <= 1,
            far(t as int) == t,
    ;
    assert(rough(val64(sign), s * t, t, 0));
    lemma_rough_times(term, sign, e * r, s * t, fe * r, t, 9, 0, g * r, fe * r);
    lemma_same_width(v, uu, k, r);
    lemma_rough_exact(val64(before));
    lemma_within(far(v), k, 277, 925);
    lemma_pow2_strictly_increases(1202, 2000);
    lemma_rough_more(val64(before), v * k, far(v) * k, 0, 20);
    lemma_two_terms(before, x, v * uu, g, far(v * uu), fe, 20, r);
    assert(g == if v * u < dd { -e } else { e }) by {
        assert(e * 1 == e && e * (-1) == -e && e * 0 == 0);
    }
}

proof fn lemma_rough_exact(v: int)
    ensures
        rough(v, v, far(v), 0),
{
}

/// The new second moment is what the variant makes of the old one and the
/// square of the move, or the square of tau where that is more, but for one
/// rounding. (Yogi turns where the old moment and the square meet; moments
/// within a factor of two of the square are left out for it.)
pub proof fn second_moments_follow_the_square(
    variant: FedOptVariant,
    p: FedOptParams,
    target: Binary32,
    previous: Binary32,
    m: Binary32,
    v: Binary32,
)
    requires
        p.beta2.finite(),
        p.tau.times(p.tau).finite(),
        target.finite(),
        previous.finite(),
        v.finite(),
        0 <= v.rank(),
        ({
            let d = val(target) - val(previous);
            variant is Yogi ==> 2 * (d * d) <= val(v) * unity() || 2 * (val(v) * unity()) <= d * d
        }),
        fedopt_coordinate(variant, p, target, previous, m, v).1.finite(),
    ensures
        ({
            let d = val(target) - val(previous);
            let e = exact_square(variant, val(p.beta2), val(v), d);
            let floor = val(p.tau.times(p.tau)) * (unity() * unity());
            is_rounded(
                fedopt_coordinate(variant, p, target, previous, m, v).1,
                if e < floor {
                    floor
                } else {
                    e
                },
                square_weight(variant, val(p.beta2), val(v), d) + far(floor),
                unity() * unity(),
            )
        }),
{
    reveal(fedopt_coordinate);
    let delta = target.as_binary64().minus(previous.as_binary64());
    let d = val(target) - val(previous);
    let raw = second_moment(
        variant,
        p.beta2.as_binary64(),
        v.as_binary64(),
        delta.times(delta),
    );
    let e = exact_square(variant, val(p.beta2), val(v), d);
    let w = square_weight(variant, val(p.beta2), val(v), d);
    let uu = unity() * unity();
    let (k, r) = (pow2(925), pow2(627));
    let tt = p.tau.times(p.tau);
    let floor = val(tt) * uu;
    lemma_widths();
    lemma_pow2_pos(627);
    lemma_second_moment(variant, p.beta2, target, previous, v);
    lemma_wide(tt);
    lemma_same_width(val(tt), uu, k, r);
    let bound = tt.as_binary64();
    lemma_values_ordered(raw, bound);
    let x = raw.larger(bound);
    let most = if e < floor {
        floor
    } else {
        e
    };
    let all = w + far(floor);
    assert(all * r == w * r + far(floor) * r) by (nonlinear_arith)
        requires
            all == w + far(floor),
    ;
    assert(30 * (w * r) <= 30 * (all * r));
    assert(most * r == if e * r < floor * r { floor * r } else { e * r }) by {
        if e < floor {
            lemma_mul_strict_inequality(e, floor, r as int);
        } else {
            lemma_mul_inequality(floor, e, r as int);
        }
    }
    assert(far(floor * r) == far(floor) * r) by {
        lemma_far_product(floor, r as int);
    }
    assert(rough(val64(x), most * r, all * r, 30));
    lemma_narrowed(x, most, all, 30, uu, r);
}

/// The new momentum is the old one, decayed, and the move from the model to
/// the aggregate; the new weight is the old one and the rate times the new
/// momentum; both but for one rounding.
pub proof fn momentum_carries_the_weights(
    beta: Binary32,
    rate: Binary32,
    target: Binary32,
    previous: Binary32,
    velocity: Binary32,
)
    requires
        beta.finite(),
        rate.finite(),
        target.finite(),
        previous.finite(),
        velocity.finite(),
    ensures
        ({
            let (b, s, d) = (val(beta), val(velocity), val(target) - val(previous));
            let e = b * s + d * unity();
            let w = far(b * s) + far(d * unity());
            let (after, weight) = momentum_coordinate(beta, rate, target, previous, velocity);
            &&& after.finite() ==> is_rounded(after, e, w, unity())
            &&& weight.finite() ==> is_rounded(
                weight,
                val(previous) * (unity() * unity()) + val(rate) * e,
                far(val(previous) * (unity() * unity())) + far(val(rate)) * w,
                unity() * unity(),
            )
        }),
{
    reveal(momentum_coordinate);
    let (b, s, d) = (val(beta), val(velocity), val(target) - val(previous));
    let u = unity();
    let uu = u * u;
    let (k, q, r) = (pow2(925), pow2(776), pow2(627));
    lemma_widths();
    lemma_pow2_pos(776);
    lemma_pow2_pos(627);
    lemma_inputs(beta, target, previous);
    lemma_wide(beta);
    lemma_wide(velocity);
    lemma_wide(rate);
    lemma_wide(previous);
    lemma_single_within(beta);
    lemma_single_within(velocity);
    lemma_single_within(rate);
    lemma_single_within(previous);
    let delta = target.as_binary64().minus(previous.as_binary64());
    let x = beta.as_binary64().times(velocity.as_binary64());
    lemma_within(far(b), far(s), 277, 277);
    lemma_pow2_strictly_increases(554, 600);
    lemma_first_product(beta.as_binary64(), velocity.as_binary64(), b, s, 0, 0);
    lemma_same_width(d, u, k, q);
    lemma_rough_more(val64(delta), d * k, far(d) * k, 1, 2);
    let (e1, e2) = (b * s, d * u);
    lemma_far_product(b, s);
    lemma_far_product(d, u as int);
    lemma_within(far(e1), q, 554, 776);
    lemma_within(far(d), u, 278, 149);
    lemma_within(far(e2), q, 427, 776);
    lemma_pow2_strictly_increases(1330, 2000);
    lemma_pow2_strictly_increases(1203, 2000);
    lemma_two_terms(x, delta, e1, e2, far(e1), far(e2), 2, q);
    let updated = x.plus(delta);
    let (e, w) = (e1 + e2, far(e1) + far(e2));
    if updated.as_binary32().finite() {
        lemma_narrowed(updated, e, w, 3, u, q);
    }
    // the weight
    let c = val(rate);
    lemma_pow2_strictly_increases(427, 554);
    lemma_pow2_unfold(555);
    lemma_within(far(c), w, 277, 555);
    lemma_pow2_strictly_increases(832, 1200);
    lemma_second_product(rate.as_binary64(), updated, c, e, far(c), w, 0, 3);
    let y = rate.as_binary64().times(updated);
    let before = previous.as_binary64();
    lemma_same_width(val(previous), uu, k, r);
    lemma_rough_more(val64(before), val(previous) * k, far(val(previous)) * k, 0, 5);
    lemma_within(far(val(previous)), k, 277, 925);
    lemma_within(far(c) * w, r, 832, 627);
    lemma_pow2_strictly_increases(1202, 2000);
    lemma_pow2_strictly_increases(1459, 2000);
    let vp = val(previous) * uu;
    lemma_two_terms(before, y, vp, c * e, far(vp), far(c) * w, 5, r);
    let z = before.plus(y);
    if z.as_binary32().finite() {
        lemma_narrowed(z, vp + c * e, far(vp) + far(c) * w, 6, uu, r);
    }
}

/// The same of the optimizer as a whole: what it remembers of every coordinate
/// after a round that goes on from a model.
pub proof fn optimizers_remember_so<B: Aggregator>(
    s: FedOptMemory<B::State>,
    batch: Seq<Delta>,
    i: int,
)
    requires
        s.params.beta1.finite(),
        s.params.beta2.finite(),
        s.params.tau.times(s.params.tau).finite(),
        batch.len() > 0,
        validated(batch) is Ok,
        fedopt_continues(s, batch),
        fedopt_step::<B>(s, batch).0 is Ok,
        base_step::<B>(s.base, batch, validated(batch)->Ok_0).0 is Ok,
        0 <= i < base_step::<B>(s.base, batch, validated(batch)->Ok_0).0->Ok_0.len(),
        base_step::<B>(s.base, batch, validated(batch)->Ok_0).0->Ok_0[i].finite(),
        s.optimizer->0.global[i].finite(),
        s.optimizer->0.m[i].finite(),
        s.optimizer->0.v[i].finite(),
        0 <= s.optimizer->0.v[i].rank(),
    ensures
        ({
            let (o, n) = (s.optimizer->0, fedopt_step::<B>(s, batch).1.optimizer->0);
            let target = base_step::<B>(s.base, batch, validated(batch)->Ok_0).0->Ok_0[i];
            let (b, c) = (val(s.params.beta1), val(s.params.beta2));
            let d = val(target) - val(o.global[i]);
            let e = exact_square(s.variant, c, val(o.v[i]), d);
            let floor = val(s.params.tau.times(s.params.tau)) * (unity() * unity());
            &&& n.m[i].finite() ==> is_rounded(
                n.m[i],
                b * val(o.m[i]) + (unity() - b) * d,
                far(b * val(o.m[i])) + far((unity() - b) * d),
                unity(),
            )
            &&& n.v[i].finite() && (s.variant is Yogi ==> 2 * (d * d) <= val(o.v[i]) * unity() || 2
                * (val(o.v[i]) * unity()) <= d * d) ==> is_rounded(
                n.v[i],
                if e < floor {
                    floor
                } else {
                    e
                },
                square_weight(s.variant, c, val(o.v[i]), d) + far(floor),
                unity() * unity(),
            )
        }),
{
    reveal(fedopt_step);
    let (o, n) = (s.optimizer->0, fedopt_step::<B>(s, batch).1.optimizer->0);
    let aggregate = base_step::<B>(s.base, batch, validated(batch)->Ok_0).0->Ok_0;
    let target = aggregate[i];
    let d = val(target) - val(o.global[i]);
    assert(n == fedopt_stepped(s.variant, s.params, aggregate, o));
    assert((n.m[i], n.v[i], n.global[i]) == fedopt_coordinate(
        s.variant,
        s.params,
        target,
        o.global[i],
        o.m[i],
        o.v[i],
    ));
    if n.m[i].finite() {
        first_moments_decay_to_the_move(
            s.variant,
            s.params,
            target,
            o.global[i],
            o.m[i],
            o.v[i],
        );
    }
    if n.v[i].finite() && (s.variant is Yogi ==> 2 * (d * d) <= val(o.v[i]) * unity() || 2 * (val(
        o.v[i],
    ) * unity()) <= d * d) {
        second_moments_follow_the_square(
            s.variant,
            s.params,
            target,
            o.global[i],
            o.m[i],
            o.v[i],
        );
    }
}

/// The same of server momentum as a whole.
pub proof fn momentum_carries_every_weight<B: Aggregator>(
    s: MomentumMemory<B::State>,
    batch: Seq<Delta>,
    i: int,
)
    requires
        s.beta.finite(),
        s.server_learning_rate.finite(),
        batch.len() > 0,
        validated(batch) is Ok,
        momentum_continues(s, batch),
        momentum_step::<B>(s, batch).0 is Ok,
        momentum_base::<B>(s.base, batch).0 is Ok,
        0 <= i < momentum_base::<B>(s.base, batch).0->Ok_0.len(),
        momentum_base::<B>(s.base, batch).0->Ok_0[i].finite(),
        (s.model->0).0[i].finite(),
        (s.model->0).1[i].finite(),
    ensures
        ({
            let (global, velocity) = s.model->0;
            let (weights, after) = momentum_step::<B>(s, batch).1.model->0;
            let target = momentum_base::<B>(s.base, batch).0->Ok_0[i];
            let d = val(target) - val(global[i]);
            let (b, r, v) = (val(s.beta), val(s.server_learning_rate), val(velocity[i]));
            let e = b * v + d * unity();
            let w = far(b * v) + far(d * unity());
            &&& after[i].finite() ==> is_rounded(after[i], e, w, unity())
            &&& weights[i].finite() ==> is_rounded(
                weights[i],
                val(global[i]) * (unity() * unity()) + r * e,
                far(val(global[i]) * (unity() * unity())) + far(r) * w,
                unity() * unity(),
            )
        }),
{
    reveal(momentum_step);
    let (global, velocity) = s.model->0;
    let target = momentum_base::<B>(s.base, batch).0->Ok_0[i];
    momentum_carries_the_weights(
        s.beta,
        s.server_learning_rate,
        target,
        global[i],
        velocity[i],
    );
}

} // verus!
