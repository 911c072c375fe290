//! What FoolsGold makes of how alike clients are.
use vstd::prelude::*;
use vstd::arithmetic::div_mod::lemma_small_mod;
use vstd::arithmetic::mul::*;
use vstd::arithmetic::power2::*;
use crate::averaging::{is_zero, weighted_rows};
use crate::float::binary32::Binary32;
use crate::float::drift::{ceiling, far, lemma_minus_drift, lemma_over_drift, lemma_plus_drift, lemma_val, unity, val};
use crate::float::format::Format;
use crate::float::laws::lemma_sizes;
use crate::float::slip::{lemma_nearly_cancelled, lemma_nearly_chain, lemma_nearly_more, lemma_nearly_scaled, lemma_over_slip32, lemma_product_bounds32, lemma_quotient_bounds32, lemma_sizes32, lemma_times_slip32, nearly, power, size32};
use crate::laws::accuracy::{are_moderate, is_combination, lemma_column_weight, lemma_equal_share, lemma_rows_drift, lemma_unit};
use crate::laws::averaging::lemma_number;
use crate::laws::length::lemma_large_product;
use crate::laws::statistics::lemma_sum_error;
use crate::laws::steps::agree;
use crate::linear::dot32;
use crate::robust::coordinate::column;
use crate::robust::faba::equal_share;
use crate::temporal::foolsgold::{cosine32, distinctness, extended, foolsgold_combined, held_in_unit, is_same_direction, largest, most_alike, pardoned, resemblance, sharpened};
use crate::weights::{all_finite, is_matrix};

verus! {

/// The cosine of two histories, times both lengths, is their inner product,
/// but for roundings.
pub proof fn cosines_are_inner_products_over_lengths(a: Seq<Binary32>, b: Seq<Binary32>)
    requires
        a.len() == b.len(),
        !is_same_direction(a, b),
        dot32(a, b).finite(),
        !is_zero(dot32(a, a).root()),
        !is_zero(dot32(b, b).root()),
        ({
            let p = dot32(a, a).root().times(dot32(b, b).root());
            &&& p.finite()
            &&& 0 < p.rank()
            &&& size32(dot32(a, b)) * unity() <= ceiling() * size32(p)
        }),
    ensures
        ({
            let p = dot32(a, a).root().times(dot32(b, b).root());
            &&& cosine32(a, b).finite()
            &&& 0x100_0000 * far(
                val(cosine32(a, b)) * size32(p) - val(dot32(a, b)) * unity(),
            ) <= size32(dot32(a, b)) * unity() + 0x80_0000 * size32(p)
        }),
{
    let p = dot32(a, a).root().times(dot32(b, b).root());
    lemma_over_drift(dot32(a, b), p);
}

/// A client that is less alike than another is to somebody is pardoned: its
/// resemblance to the other, times how alike the other is, is the resemblance
/// times how alike itself is. Nobody else is.
pub proof fn pardons_scale_by_how_alike_each_is(
    h: Seq<Seq<Binary32>>,
    most: Seq<Binary32>,
    i: int,
    j: int,
)
    requires
        i != j,
        resemblance(h, i, j).finite(),
        size32(resemblance(h, i, j)) == 0 || size32(resemblance(h, i, j)) >= pow2(120),
        most[i].finite(),
        most[j].finite(),
        0 <= most[i].rank(),
        size32(most[i]) == 0 || size32(most[i]) >= pow2(120),
        size32(most[j]) <= pow2(150),
        size32(resemblance(h, i, j)) <= pow2(150),
    ensures
        most[j].rank() <= most[i].rank() ==> pardoned(h, most, i, j) == resemblance(h, i, j),
        most[i].rank() < most[j].rank() ==> pardoned(h, most, i, j).finite() && agree(
            size32(pardoned(h, most, i, j)) * size32(most[j]),
            size32(resemblance(h, i, j)) * size32(most[i]),
            4,
        ),
{
    let f = Format::Single;
    lemma_number(most[i]);
    lemma_number(most[j]);
    if most[i].rank() < most[j].rank() {
        let r = resemblance(h, i, j);
        let q = most[i].over(most[j]);
        let p = r.times(q);
        let u = unity();
        let (a, b, s, t) = (size32(most[i]), size32(most[j]), size32(r), size32(q));
        lemma_pow2_pos(149);
        lemma_sizes32(most[i], most[j]);
        lemma_sizes32(most[j], most[j]);
        lemma_mul_inequality(a as int, b as int, u as int);
        lemma_mul_is_commutative(b as int, u as int);
        lemma_quotient_bounds32(most[i], most[j], 149);
        if a > 0 {
            lemma_pow2_adds(120, 149);
            lemma_pow2_adds(24, 150);
            lemma_pow2_strictly_increases(174, 269);
            lemma_mul_inequality(pow2(120) as int, a as int, u as int);
            lemma_mul_inequality(b as int, pow2(150) as int, pow2(24) as int);
            lemma_mul_is_commutative(b as int, pow2(24) as int);
            lemma_mul_is_commutative(pow2(150) as int, pow2(24) as int);
            // the quotient is at least 2^-31
            lemma_pow2_adds(118, 150);
            lemma_pow2_strictly_increases(268, 269);
            lemma_mul_inequality(b as int, pow2(150) as int, pow2(118) as int);
            lemma_mul_is_commutative(b as int, pow2(118) as int);
            lemma_mul_is_commutative(pow2(150) as int, pow2(118) as int);
            lemma_quotient_bounds32(most[i], most[j], 118);
        } else {
            most[i].zero_over(most[j]);
            lemma_sizes32(q, q);
        }
        lemma_over_slip32(most[i], most[j]);
        if s > 0 && t > 0 {
            lemma_large_product(s, t, 120, 118, 173);
        }
        lemma_mul_upper_bound(s as int, pow2(150) as int, t as int, u as int);
        lemma_product_bounds32(r, q, 150);
        lemma_times_slip32(r, q);
        let z = size32(p);
        // z u ~ s t and t b ~ a u
        lemma_nearly_scaled(f, z * u, s * t, b, 1);
        lemma_nearly_scaled(f, s * t, z * u, b, 2);
        lemma_nearly_scaled(f, t * b, a * u, s, 1);
        lemma_nearly_scaled(f, a * u, t * b, s, 2);
        assert((z * u) * b == (z * b) * u) by (nonlinear_arith);
        assert((s * t) * b == s * (t * b)) by (nonlinear_arith);
        assert(s * (a * u) == (s * a) * u) by (nonlinear_arith);
        lemma_nearly_chain(f, (z * b) * u, s * (t * b), (s * a) * u, 1, 1);
        lemma_nearly_chain(f, (s * a) * u, s * (t * b), (z * b) * u, 2, 2);
        lemma_nearly_cancelled(f, z * b, s * a, u, 2);
        lemma_nearly_more(f, z * b, s * a, 2, 4);
        lemma_nearly_cancelled(f, s * a, z * b, u, 4);
    }
}

/// The largest of numbers is no less than any of them, and one of them or
/// zero.
pub proof fn the_largest_is_largest(s: Seq<Binary32>)
    requires
        forall|k: int| 0 <= k < s.len() ==> !(#[trigger] s[k]).nan(),
    ensures
        !largest(s).nan(),
        0 <= largest(s).rank(),
        forall|k: int| 0 <= k < s.len() ==> (#[trigger] s[k]).rank() <= largest(s).rank(),
        largest(s) == Binary32::nothing() || s.contains(largest(s)),
    decreases s.len(),
{
    Binary32::nothing().zeros();
    lemma_number(Binary32::nothing());
    if s.len() > 0 {
        let t = s.drop_last();
        assert forall|k: int| 0 <= k < t.len() implies !(#[trigger] t[k]).nan() by {
            assert(!s[k].nan());
        }
        the_largest_is_largest(t);
        assert(!s[s.len() - 1].nan());
        let m = largest(s);
        assert forall|k: int| 0 <= k < s.len() implies (#[trigger] s[k]).rank() <= m.rank() by {
            if k < t.len() {
                assert(t[k].rank() <= largest(t).rank());
            }
        }
        if m == s.last() {
            assert(s[s.len() - 1] == m);
        } else if t.contains(m) {
            let k = choose|k: int| 0 <= k < t.len() && t[k] == m;
            assert(s[k] == m);
        }
    }
}

/// A client is as distinct as is left of one by the largest of its pardoned
/// resemblances.
pub proof fn the_distinct_resemble_nobody(h: Seq<Seq<Binary32>>, i: int)
    requires
        0 <= i < h.len(),
        forall|j: int|
            0 <= j < h.len() ==> (#[trigger] pardoned(h, most_alike(h), i, j)).finite(),
    ensures
        exists|p: Binary32|
            {
                &&& #[trigger] p.finite()
                &&& 0 <= p.rank()
                &&& forall|j: int|
                    0 <= j < h.len() ==> (#[trigger] pardoned(h, most_alike(h), i, j)).rank()
                        <= p.rank()
                &&& p == Binary32::nothing() || exists|j: int|
                    0 <= j < h.len() && p == #[trigger] pardoned(h, most_alike(h), i, j)
                &&& Binary32::unit().rank() <= p.rank() ==> distinctness(h)[i].rank() == 0
                &&& p.rank() < Binary32::unit().rank() ==> distinctness(h)[i].finite() && 0x100_0000
                    * far(val(distinctness(h)[i]) - (unity() - val(p))) <= unity()
            },
{
    let most = most_alike(h);
    let s = Seq::new(h.len(), |j: int| pardoned(h, most, i, j));
    assert forall|k: int| 0 <= k < s.len() implies !(#[trigger] s[k]).nan() by {
        assert(pardoned(h, most, i, k).finite());
        lemma_number(s[k]);
    }
    the_largest_is_largest(s);
    let p = largest(s);
    let one = Binary32::unit();
    Binary32::nothing().zeros();
    lemma_number(Binary32::nothing());
    lemma_unit();
    lemma_number(one);
    if p != Binary32::nothing() {
        let k = choose|k: int| 0 <= k < s.len() && s[k] == p;
        assert(pardoned(h, most, i, k).finite());
        assert(p == pardoned(h, most, i, k));
    }
    assert(p.finite());
    assert forall|j: int| 0 <= j < h.len() implies (#[trigger] pardoned(h, most, i, j)).rank()
        <= p.rank() by {
        assert(s[j].rank() <= p.rank());
    }
    lemma_val(p);
    lemma_val(one);
    lemma_number(p);
    lemma_sizes32(p, one);
    lemma_sizes32(one, p);
    assert(unity() <= ceiling()) by {
        lemma_pow2_strictly_increases(149, 253);
        lemma_pow2_pos(253);
    }
    assert(far(val(one) - val(p)) <= ceiling());
    lemma_minus_drift(one, p);
    let d = one.minus(p);
    lemma_val(d);
    lemma_number(d);
    lemma_sizes32(d, one);
    lemma_sizes32(one, d);
    let own = distinctness(h)[i];
    assert(own == held_in_unit(d));
    if one.rank() <= p.rank() {
        assert(val(one) - val(p) <= 0);
        assert(val(d) <= 0);
        assert(d.rank() <= 0) by {
            lemma_sizes32(d, d);
        }
    } else {
        assert(val(one) - val(p) >= 0);
        assert(val(d) >= 0);
        assert(0 <= d.rank()) by {
            lemma_sizes32(d, d);
        }
        if one.rank() < d.rank() {
            assert(own == one);
        }
    }
}

/// A weight is a half more than the logarithm of its odds, held between zero
/// and one.
pub proof fn weights_are_half_above_the_log_odds(x: Binary32)
    requires
        x.finite(),
        size32(x) <= pow2(200),
    ensures
        sharpened(x).finite(),
        2 * val(x) + unity() <= 0 ==> sharpened(x).rank() == 0,
        2 * val(x) >= 2 * unity() ==> sharpened(x) == Binary32::unit(),
        0 < 2 * val(x) + unity() && 2 * val(x) <= unity() ==> 0x80_0000 * far(
            2 * val(sharpened(x)) - (2 * val(x) + unity()),
        ) <= 8 * unity(),
{
    let half = Binary32 { bits: 0x3f00_0000 };
    let one = Binary32::unit();
    let u = unity();
    lemma_half_value();
    lemma_unit();
    lemma_val(x);
    lemma_val(half);
    lemma_val(one);
    lemma_pow2_pos(149);
    lemma_pow2_strictly_increases(149, 200);
    lemma_pow2_unfold(201);
    lemma_pow2_strictly_increases(201, 253);
    lemma_plus_drift(x, half);
    let s = x.plus(half);
    lemma_val(s);
    lemma_number(s);
    lemma_number(one);
    Binary32::nothing().zeros();
    lemma_number(Binary32::nothing());
    lemma_sizes32(s, one);
    lemma_sizes32(one, s);
    lemma_sizes32(s, s);
    if one.rank() == s.rank() {
        s.ranks_tell_apart(one);
    }
}

proof fn lemma_half_value()
    ensures
        (Binary32 { bits: 0x3f00_0000 }).finite(),
        0 < (Binary32 { bits: 0x3f00_0000 }).rank(),
        2 * size32(Binary32 { bits: 0x3f00_0000 }) == unity(),
{
    let f = Format::Single;
    let half = Binary32 { bits: 0x3f00_0000 };
    half.unsigned_patterns();
    lemma_sizes(f);
    lemma2_to64();
    lemma_pow2_adds(23, 125);
    lemma_pow2_unfold(149);
    assert(size32(half) == 0x80_0000 * pow2(125)) by {
        lemma_small_mod(0x3f00_0000, f.sign_weight());
        reveal(Format::units);
    }
}

/// A history grows by the update, but for one rounding.
pub proof fn histories_add_up(h: Seq<Binary32>, w: Seq<Binary32>, k: int)
    requires
        0 <= k < h.len(),
        k < w.len(),
        h[k].finite(),
        w[k].finite(),
        extended(h, w)[k].finite(),
    ensures
        0x100_0000 * far(val(extended(h, w)[k]) - (val(h[k]) + val(w[k]))) <= far(
            val(h[k]) + val(w[k]),
        ),
{
    lemma_sum_error(h[k], w[k]);
}

/// FoolsGold combines the updates by their weights over their number, unless
/// all of them are zero.
pub proof fn foolsgold_weighs_the_updates(
    weights: Seq<Binary32>,
    m: Seq<Seq<Binary32>>,
    c: int,
)
    requires
        0 < m.len() <= 0x10_0000,
        weights.len() == m.len(),
        is_matrix(m, m[0].len()),
        0 <= c < m[0].len(),
        are_moderate(m),
        forall|i: int| 0 <= i < m.len() ==> all_finite(#[trigger] m[i]),
        forall|i: int|
            0 <= i < m.len() ==> (#[trigger] weights[i]).finite() && size32(weights[i]) <= unity()
                && (size32(weights[i]) == 0 || size32(weights[i]) >= pow2(50)),
        exists|i: int| 0 <= i < m.len() && !is_zero(#[trigger] weights[i]),
    ensures
        exists|shares: Seq<Binary32>|
            {
                &&& shares.len() == m.len()
                &&& forall|i: int|
                    0 <= i < m.len() ==> agree(
                        size32(#[trigger] shares[i]) * m.len(),
                        size32(weights[i]),
                        5,
                    )
                &&& #[trigger] is_combination(
                    foolsgold_combined(weights, m)[c],
                    column(m, c),
                    shares,
                )
            },
{
    let n = m.len();
    let e = equal_share(n);
    let shares = Seq::new(n, |i: int| weights[i].times(e));
    let u = unity();
    lemma_equal_share(n);
    lemma_pow2_pos(149);
    let s = size32(e);
    assert(s >= pow2(124)) by {
        // n s is at least half of one
        lemma_share_size(s, n);
    }
    assert forall|i: int| 0 <= i < n implies (#[trigger] shares[i]).finite() && size32(shares[i])
        <= u && agree(size32(shares[i]) * n, size32(weights[i]), 5) by {
        let f = Format::Single;
        let w = size32(weights[i]);
        assert(weights[i].finite());
        lemma_mul_upper_bound(w as int, u as int, s as int, u as int);
        lemma_product_bounds32(weights[i], e, 149);
        if w > 0 {
            lemma_large_product(w, s, 50, 124, 173);
        }
        lemma_times_slip32(weights[i], e);
        let x = size32(shares[i]);
        // x u ~ w s, s n ~ u
        lemma_nearly_scaled(f, x * u, w * s, n, 1);
        lemma_nearly_scaled(f, w * s, x * u, n, 2);
        lemma_nearly_scaled(f, s * n, u, w, 3);
        lemma_nearly_scaled(f, u, s * n, w, 3);
        assert((x * u) * n == (x * n) * u) by (nonlinear_arith);
        assert((w * s) * n == w * (s * n)) by (nonlinear_arith);
        lemma_nearly_chain(f, (x * n) * u, w * (s * n), w * u, 1, 3);
        lemma_nearly_chain(f, w * u, w * (s * n), (x * n) * u, 3, 2);
        lemma_nearly_cancelled(f, x * n, w, u, 4);
        lemma_nearly_more(f, x * n, w, 4, 5);
        lemma_nearly_cancelled(f, w, x * n, u, 5);
    }
    let a = column(m, c);
    assert forall|i: int| 0 <= i < a.len() implies size32(#[trigger] a[i]) <= pow2(229) by {
        assert(m[i].len() == m[0].len());
        assert(size32(m[i][c]) <= pow2(229));
    }
    lemma_column_weight(a, shares);
    lemma_rows_drift(m, shares, m[0].len(), c);
    let k = choose|k: int| 0 <= k < m.len() && !is_zero(#[trigger] weights[k]);
    assert(!is_zero(weights[k]));
    assert(foolsgold_combined(weights, m)[c] == weighted_rows(m, shares, m[0].len(), n)[c]);
}

proof fn lemma_share_size(s: nat, n: nat)
    requires
        0 < n <= 0x10_0000,
        agree(s * n, unity(), 3),
    ensures
        s >= pow2(124),
{
    reveal(nearly);
    reveal_with_fuel(power, 4);
    lemma2_to64();
    lemma_pow2_adds(25, 124);
    assert(unity() <= 2 * (s * n)) by {
        let (x, u) = (s * n, unity());
        let (p, q) = (power(0x100_0000, 3), power(0x100_0001, 3));
        assert(q <= 2 * p);
        assert(u * p <= x * q);
        assert(x * q <= x * (2 * p)) by (nonlinear_arith)
            requires
                q <= 2 * p,
        ;
        assert(x * (2 * p) == (2 * x) * p) by (nonlinear_arith);
        if u > 2 * x {
            lemma_mul_strict_inequality((2 * x) as int, u as int, p as int);
        }
    }
    if s < pow2(124) {
        lemma_mul_inequality(s as int, pow2(124) as int, n as int);
        let t = pow2(124);
        assert(t * n <= t * 0x10_0000) by (nonlinear_arith)
            requires
                n <= 0x10_0000,
        ;
        lemma_pow2_pos(124);
    }
}

} // verus!
