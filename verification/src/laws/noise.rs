//! What clipping and noise make of an update.
use vstd::prelude::*;
use vstd::arithmetic::mul::*;
use vstd::arithmetic::power2::*;
use crate::float::binary32::Binary32;
use crate::float::binary64::Binary64;
use crate::float::drift::{ceiling, far, lemma_times_drift, lemma_val, unity, val};
use crate::float::format::Format;
use crate::float::slip::{lemma_nearly_more, lemma_over_slip32, lemma_quotient_bounds32, lemma_sizes32, size32};
use crate::float::wide::{lemma_wide, val64};
use crate::laws::averaging::lemma_number;
use crate::laws::moments::{lemma_signs, lemma_values_ordered};
use crate::laws::statistics::lemma_sum_error;
use crate::laws::steps::agree;
use crate::privacy::mechanism::{norm32, GaussianClippingPrivacy};

verus! {

/// An update no longer than the clip norm is left as it is.
pub proof fn short_updates_are_untouched(p: GaussianClippingPrivacy, w: Seq<Binary32>)
    requires
        norm32(w).rank() <= p.clip_norm.rank(),
    ensures
        p.clipped(w) == w,
{
}

/// A longer one is scaled by one factor, and this brings its norm to the clip
/// norm: the factor times the norm is the clip norm, but for roundings.
pub proof fn long_updates_are_scaled_to_the_clip_norm(p: GaussianClippingPrivacy, w: Seq<Binary32>)
    requires
        p.clip_norm.finite(),
        0 < p.clip_norm.rank() < norm32(w).rank(),
        norm32(w).finite(),
        pow2(24) * size32(norm32(w)) <= size32(p.clip_norm) * pow2(149),
        forall|i: int| 0 <= i < w.len() ==> (#[trigger] w[i]).finite(),
    ensures
        p.clipped(w).len() == w.len(),
        exists|by: Binary32|
            {
                &&& #[trigger] by.finite()
                &&& 0 <= by.rank()
                &&& agree(size32(by) * size32(norm32(w)), size32(p.clip_norm) * unity(), 2)
                &&& forall|i: int|
                    0 <= i < w.len() ==> (#[trigger] p.clipped(w)[i]).finite() && 0x100_0000 * far(
                        val(p.clipped(w)[i]) * unity() - val(w[i]) * val(by),
                    ) <= size32(w[i]) * size32(by) + 0x80_0000 * unity()
            },
{
    let f = Format::Single;
    let norm = norm32(w);
    let (c, n) = (p.clip_norm, norm);
    let by = c.over(n);
    let u = unity();
    lemma_pow2_pos(149);
    lemma_number(c);
    lemma_number(n);
    Binary32::nothing().zeros();
    lemma_number(Binary32::nothing());
    lemma_sizes32(c, n);
    lemma_sizes32(n, n);
    lemma_mul_inequality(size32(c) as int, size32(n) as int, u as int);
    lemma_mul_is_commutative(size32(n) as int, u as int);
    lemma_quotient_bounds32(c, n, 149);
    c.ratio_is_not_negative(n);
    lemma_over_slip32(c, n);
    lemma_nearly_more(f, size32(by) * size32(n), size32(c) * u, 1, 2);
    assert forall|i: int| 0 <= i < w.len() implies (#[trigger] p.clipped(w)[i]).finite()
        && 0x100_0000 * far(val(p.clipped(w)[i]) * u - val(w[i]) * val(by)) <= size32(w[i])
        * size32(by) + 0x80_0000 * u by {
        assert(w[i].finite());
        lemma_val(w[i]);
        lemma_mul_upper_bound(
            size32(w[i]) as int,
            ceiling() as int,
            size32(by) as int,
            u as int,
        );
        lemma_times_drift(w[i], by);
    }
}

/// The standard deviation of the noise is the multiplier times the clip norm,
/// but for one rounding, and there is noise exactly where that is positive.
pub proof fn the_deviation_is_a_multiple_of_the_clip_norm(p: GaussianClippingPrivacy)
    requires
        p.clip_norm.finite(),
        p.noise_multiplier.finite(),
        size32(p.noise_multiplier) * size32(p.clip_norm) <= ceiling() * unity(),
    ensures
        ({
            let d = p.noise_multiplier.times(p.clip_norm);
            &&& p.deviation() is Some <==> val(d) > 0
            &&& p.deviation() is Some ==> val64(p.deviation()->0) == val(d) * pow2(925)
            &&& 0x100_0000 * far(val(d) * unity() - val(p.noise_multiplier) * val(p.clip_norm))
                <= size32(p.noise_multiplier) * size32(p.clip_norm) + 0x80_0000 * unity()
        }),
{
    let d = p.noise_multiplier.times(p.clip_norm);
    lemma_times_drift(p.noise_multiplier, p.clip_norm);
    lemma_wide(d);
    lemma_signs();
    lemma_pow2_pos(925);
    lemma_values_ordered(Binary64::nothing(), d.as_binary64());
    let (v, k) = (val(d), pow2(925) as int);
    assert(v * k > 0 <==> v > 0) by (nonlinear_arith)
        requires
            k > 0,
    ;
}

/// Each weight gets its own sample of the noise, but for two roundings.
pub proof fn noise_is_added_to_every_weight(
    p: GaussianClippingPrivacy,
    w: Seq<Binary32>,
    noise: Seq<Binary64>,
    i: int,
)
    requires
        0 <= i < w.len(),
        w[i].finite(),
        noise[i].as_binary32().finite(),
    ensures
        p.noised(w, noise).len() == w.len(),
        p.deviation() is None ==> p.noised(w, noise)[i] == w[i],
        p.deviation() is Some && p.noised(w, noise)[i].finite() ==> 0x100_0000 * far(
            val(p.noised(w, noise)[i]) - (val(w[i]) + val(noise[i].as_binary32())),
        ) <= far(val(w[i]) + val(noise[i].as_binary32())),
{
    if p.deviation() is Some && p.noised(w, noise)[i].finite() {
        lemma_sum_error(w[i], noise[i].as_binary32());
    }
}

} // verus!
