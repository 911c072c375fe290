//! What clipping an update promises.
use vstd::prelude::*;
use vstd::arithmetic::power2::*;
use vstd::arithmetic::mul::*;
use crate::float::binary32::Binary32;
use crate::float::format::Format;
use crate::float::slip::{less_one, lemma_any_times_slip32, lemma_nearly_at_most, lemma_nearly_cancelled, lemma_nearly_chain, lemma_nearly_more, lemma_nearly_product, lemma_nearly_scaled, lemma_nearly_sum, lemma_nearly_zero, lemma_over_slip32, lemma_plus_slip32, lemma_sizes32, lemma_square_root_slip32, lemma_times_slip32, nearly, size32};
use crate::laws::averaging::lemma_number;
use crate::laws::finite::{is_length, lemma_lengths_add_up};
use crate::laws::length::{lemma_large_product, lemma_scaled_length, square};
use crate::linear::{dot32, products32};
use crate::privacy::mechanism::{norm32, GaussianClippingPrivacy};
use crate::weights::all_finite;

verus! {

/// Whether an update is scaled down.
pub open spec fn is_clipped(p: GaussianClippingPrivacy, w: Seq<Binary32>) -> bool {
    p.clip_norm.below(norm32(w)) && Binary32::nothing().below(norm32(w))
}

/// The norm of a finite update is a number and not negative.
proof fn lemma_norm(w: Seq<Binary32>)
    requires
        all_finite(w),
    ensures
        is_length(dot32(w, w)),
        is_length(norm32(w)),
        dot32(w, w).rank() == 0 ==> norm32(w).rank() == 0,
        norm32(w).finite() ==> dot32(w, w).finite(),
{
    let s = products32(w, w);
    assert forall|i: int| 0 <= i < s.len() implies is_length(#[trigger] s[i]) by {
        assert(w[i].finite());
        w[i].finite_is_a_number();
        w[i].square_is_not_negative();
    }
    lemma_lengths_add_up(s);
    dot32(w, w).root_of_a_length();
}

/// An update is scaled down by a factor between zero and one.
pub proof fn clipping_scales_by_a_fraction(p: GaussianClippingPrivacy, w: Seq<Binary32>)
    requires
        p.clip_norm.finite(),
        0 <= p.clip_norm.rank(),
        is_clipped(p, w),
    ensures
        p.clip_norm.over(norm32(w)).finite(),
        0 <= p.clip_norm.over(norm32(w)).rank() <= Binary32::unit().rank(),
        !norm32(w).finite() ==> p.clip_norm.over(norm32(w)).rank() == 0,
{
    let norm = norm32(w);
    Binary32::nothing().unsigned_patterns();
    p.clip_norm.over_a_length(norm);
    if norm.finite() {
        p.clip_norm.ratio_at_most_one(norm);
        p.clip_norm.over(norm).not_negative_is_absolute();
    } else {
        p.clip_norm.over_an_infinity(norm);
        Binary32::unit().unsigned_patterns();
    }
}

/// A finite update is finite after clipping.
pub proof fn clipped_updates_are_finite(p: GaussianClippingPrivacy, w: Seq<Binary32>)
    requires
        p.clip_norm.finite(),
        0 <= p.clip_norm.rank(),
        all_finite(w),
    ensures
        p.clipped(w).len() == w.len(),
        all_finite(p.clipped(w)),
{
    if is_clipped(p, w) {
        clipping_scales_by_a_fraction(p, w);
        let by = p.clip_norm.over(norm32(w));
        by.not_negative_is_absolute();
        let r = p.clipped(w);
        assert forall|i: int| 0 <= i < r.len() implies (#[trigger] r[i]).finite() by {
            assert(w[i].finite());
            w[i].small_factor_shrinks(by);
            w[i].times_commutes(by);
        }
    }
}

/// Whether no weight is so close to zero that its square is lost: each is
/// zero or at least 2^-62.
pub open spec fn are_ordinary(w: Seq<Binary32>) -> bool {
    forall|i: int| 0 <= i < w.len() ==> size32(#[trigger] w[i]) == 0 || size32(w[i]) >= pow2(87)
}

/// The sizes of the weights.
pub open spec fn sizes32(w: Seq<Binary32>) -> Seq<nat> {
    Seq::new(w.len(), |i: int| size32(w[i]))
}

/// The sizes of the weights, each less one unit.
pub open spec fn shrunk(w: Seq<Binary32>) -> Seq<nat> {
    Seq::new(w.len(), |i: int| less_one(size32(w[i])))
}

/// A finite sum of squares in single precision is not much below the exact
/// one.
proof fn lemma_squares32(w: Seq<Binary32>)
    requires
        all_finite(w),
        are_ordinary(w),
        dot32(w, w).finite(),
    ensures
        0 <= dot32(w, w).rank(),
        nearly(
            Format::Single,
            square(sizes32(w)),
            size32(dot32(w, w)) * pow2(149),
            2 * w.len() + 2,
        ),
    decreases w.len(),
{
    let f = Format::Single;
    let (s, u) = (products32(w, w), pow2(149));
    lemma_norm(w);
    if w.len() == 0 {
        lemma_nearly_at_most(f, 0, size32(dot32(w, w)) * u, 2);
    } else {
        let rest = w.drop_last();
        let k = rest.len();
        assert(s.drop_last() =~= products32(rest, rest));
        assert(sizes32(w).drop_last() =~= sizes32(rest));
        assert forall|i: int| 0 <= i < rest.len() implies (#[trigger] rest[i]).finite() by {
            assert(w[i].finite());
        }
        assert forall|i: int| 0 <= i < rest.len() implies size32(#[trigger] rest[i]) == 0 || size32(
            rest[i],
        ) >= pow2(87) by {
            assert(size32(w[i]) == 0 || size32(w[i]) >= pow2(87));
        }
        let y = w.last();
        assert(w[w.len() - 1].finite());
        assert(size32(w[w.len() - 1]) == 0 || size32(w[w.len() - 1]) >= pow2(87));
        let (before, p, after) = (dot32(rest, rest), y.times(y), dot32(w, w));
        assert(after == before.plus(p));
        if !before.finite() {
            before.overflow_stays(p);
        }
        if !p.finite() {
            p.overflow_stays(before);
        }
        lemma_squares32(rest);
        y.finite_is_a_number();
        y.square_is_not_negative();
        if size32(y) != 0 {
            lemma_large_product(size32(y), size32(y), 87, 87, 173);
        }
        lemma_times_slip32(y, y);
        lemma_plus_slip32(before, p);
        let (a, b, q) = (size32(before), size32(p), size32(y) * size32(y));
        let l = 2 * k + 2;
        lemma_nearly_more(f, q, b * u, 2, l);
        lemma_nearly_sum(f, square(sizes32(rest)), a * u, q, b * u, l);
        assert((a + b) * u == a * u + b * u) by (nonlinear_arith);
        lemma_nearly_scaled(f, a + b, size32(after), u, 2);
        lemma_nearly_chain(f, square(sizes32(w)), (a + b) * u, size32(after) * u, l, 2);
        assert(2 * w.len() + 2 == l + 2);
    }
}

/// A finite norm is not much below the exact length.
proof fn lemma_norm_covers(w: Seq<Binary32>)
    requires
        all_finite(w),
        are_ordinary(w),
        norm32(w).finite(),
    ensures
        nearly(
            Format::Single,
            square(sizes32(w)),
            size32(norm32(w)) * size32(norm32(w)),
            2 * w.len() + 7,
        ),
{
    let f = Format::Single;
    lemma_norm(w);
    lemma_squares32(w);
    let d = dot32(w, w);
    let (l, r) = (2 * w.len() + 2, size32(norm32(w)));
    lemma_sizes32(d, d);
    if d.rank() == 0 {
        assert(0 * pow2(149) == 0);
        lemma_nearly_zero(f, square(sizes32(w)), l);
        lemma_nearly_at_most(f, 0, r * r, l + 5);
    } else {
        lemma_square_root_slip32(d);
        lemma_nearly_chain(f, square(sizes32(w)), size32(d) * pow2(149), r * r, l, 5);
    }
}

/// After clipping an update is no longer than the clip norm, but for the
/// roundings, of which there are two for each weight and eleven, and for one
/// unit, 2^-149, in each weight. Left out are weights so close to zero that
/// their squares are lost, and a clip norm so far below the norm that the
/// factor between them is.
pub proof fn clipped_updates_keep_the_norm(p: GaussianClippingPrivacy, w: Seq<Binary32>)
    requires
        p.clip_norm.finite(),
        0 <= p.clip_norm.rank(),
        all_finite(w),
        are_ordinary(w),
        norm32(w).finite() && p.clip_norm.rank() != 0 ==> pow2(24) * size32(norm32(w)) <= size32(
            p.clip_norm,
        ) * pow2(149),
    ensures
        nearly(
            Format::Single,
            square(shrunk(p.clipped(w))),
            size32(p.clip_norm) * size32(p.clip_norm),
            2 * w.len() + 11,
        ),
{
    let f = Format::Single;
    let norm = norm32(w);
    let out = p.clipped(w);
    let (u, c, r) = (pow2(149), size32(p.clip_norm), size32(norm));
    let k = 2 * w.len() + 11;
    lemma_norm(w);
    Binary32::nothing().unsigned_patterns();
    lemma_number(p.clip_norm);
    lemma_pow2_pos(149);
    if !is_clipped(p, w) {
        // the norm is at most the clip norm
        if !norm.finite() {
            norm.between_finite_numbers(Binary32::nothing(), p.clip_norm);
        }
        lemma_norm_covers(w);
        lemma_sizes32(norm, p.clip_norm);
        assert forall|i: int| 0 <= i < w.len() implies nearly(
            f,
            #[trigger] shrunk(w)[i] * 1,
            sizes32(w)[i] * 1,
            0,
        ) by {
            let (a, b) = (shrunk(w)[i], sizes32(w)[i]);
            assert(a * 1 == a && b * 1 == b);
            lemma_nearly_at_most(f, a * 1, b * 1, 0);
        }
        lemma_scaled_length(f, shrunk(w), sizes32(w), 1, 1, 0);
        let (x, y) = (square(shrunk(w)), square(sizes32(w)));
        assert(x * (1 * 1) == x && y * (1 * 1) == y) by (nonlinear_arith);
        lemma_nearly_chain(f, x, y, r * r, 0, 2 * w.len() + 7);
        lemma_mul_upper_bound(r as int, c as int, r as int, c as int);
        lemma_nearly_at_most(f, r * r, c * c, 4);
        lemma_nearly_chain(f, x, r * r, c * c, 2 * w.len() + 7, 4);
    } else {
        clipping_scales_by_a_fraction(p, w);
        clipped_updates_are_finite(p, w);
        let by = p.clip_norm.over(norm);
        let b = size32(by);
        lemma_sizes32(by, by);
        assert forall|i: int| 0 <= i < w.len() implies nearly(
            f,
            #[trigger] shrunk(out)[i] * u,
            sizes32(w)[i] * b,
            1,
        ) by {
            assert(w[i].finite() && out[i].finite());
            lemma_any_times_slip32(w[i], by);
        }
        lemma_scaled_length(f, shrunk(out), sizes32(w), u, b, 1);
        let (x, y) = (square(shrunk(out)), square(sizes32(w)));
        lemma_mul_strictly_positive(u as int, u as int);
        if b == 0 {
            assert(y * (b * b) == 0) by (nonlinear_arith)
                requires
                    b == 0,
            ;
            lemma_nearly_at_most(f, 0, (c * c) * (u * u), (k - 2) as nat);
            lemma_nearly_chain(f, x * (u * u), y * (b * b), (c * c) * (u * u), 2, (k - 2) as nat);
        } else {
            lemma_norm_covers(w);
            lemma_sizes32(norm, norm);
            lemma_sizes32(p.clip_norm, p.clip_norm);
            lemma_over_slip32(p.clip_norm, norm);
            let l = 2 * w.len() + 7;
            lemma_nearly_scaled(f, y, r * r, b * b, l);
            lemma_nearly_chain(f, x * (u * u), y * (b * b), (r * r) * (b * b), 2, l);
            lemma_nearly_product(f, b * r, c * u, b * r, c * u, 1, 1);
            assert((r * r) * (b * b) == (b * r) * (b * r)) by (nonlinear_arith);
            assert((c * u) * (c * u) == (c * c) * (u * u)) by (nonlinear_arith);
            lemma_nearly_chain(
                f,
                x * (u * u),
                (r * r) * (b * b),
                (c * c) * (u * u),
                2 + l,
                2,
            );
        }
        lemma_nearly_cancelled(f, x, c * c, u * u, k);
    }
}

} // verus!
