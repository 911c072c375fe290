//! What centered clipping promises.
use vstd::prelude::*;
use vstd::arithmetic::power2::*;
use vstd::arithmetic::mul::*;
use crate::delta::Delta;
use crate::float::binary32::Binary32;
use crate::float::binary64::Binary64;
use crate::float::grid::{amount, lemma_mean_within, lemma_negated, lemma_scaled_within, lemma_sum_within, step, within};
use crate::averaging::weighted_rows;
use crate::float::format::Format;
use crate::float::scale::{lemma_at_most_one_up_to, lemma_negated_up_to, lemma_positive_at_least, lemma_product_up_to, lemma_root_up_to, lemma_single_at_least, lemma_single_up_to, lemma_sizes_ordered, lemma_sum_up_to, lemma_up_to_more, lemma_zero_up_to, size, up_to};
use crate::float::slip::{lemma_nearly_at_most, lemma_nearly_chain, lemma_over_slip, nearly};
use crate::float::twice::{lemma_size_zero, lemma_zero_quotient};
use crate::laws::averaging::same_numbers;
use crate::laws::confidence::{is_length64, lemma_bounded_sum, lemma_lengths};
use crate::laws::finite::lemma_even_mean;
use crate::linear::{distance_squared64, held_all, squared_differences64, zeros32, zeros64};
use crate::robust::faba::{equal_share, even_mean};
use crate::temporal::clipping::{clip_center, clip_scale, clipped_round, clipped_sum, clipping_step};
use crate::weights::{accepted_batches_are_fit, all_finite, is_matrix, plus_scaled_difference, plus_weighted, validated};

verus! {

/// A client keeps between none and all of its deviation.
pub proof fn clipping_keeps_a_fraction(radius: Binary32, distance: Binary64)
    requires
        radius.finite(),
        0 <= radius.rank(),
    ensures
        clip_scale(radius, distance).finite(),
        0 <= clip_scale(radius, distance).rank() <= Binary64::unit().rank(),
{
    let one = Binary64::unit();
    one.unsigned_patterns();
    Binary64::nothing().unsigned_patterns();
    if Binary64::nothing().below(distance) {
        radius.widening_is_exact();
        Binary32::nothing().zeros();
        Binary32::nothing().widening_keeps_the_order(radius);
        assert(Binary32::nothing().as_binary64().rank() == 0) by {
            Binary32::nothing().widens_to_nothing();
        }
        let r = radius.as_binary64();
        r.fractions_are_not_negative(distance);
        let ratio = r.over(distance);
        ratio.between_finite(Binary64::nothing(), one);
    }
}

/// The clipped deviations at one coordinate add up to a finite number.
pub proof fn lemma_clipped_sum(
    radius: Binary32,
    m: Seq<Seq<Binary32>>,
    v: Seq<Binary32>,
    k: nat,
    j: int,
)
    requires
        radius.finite(),
        0 <= radius.rank(),
        k <= m.len(),
        0 <= j < v.len(),
        is_matrix(m, v.len()),
        all_finite(v),
        forall|i: int| 0 <= i < m.len() ==> all_finite(#[trigger] m[i]),
    ensures
        clipped_sum(radius, m, v, k).len() == v.len(),
        up_to(clipped_sum(radius, m, v, k)[j], 1310),
    decreases k,
{
    if k == 0 {
        Binary64::nothing().zeros();
        lemma_zero_up_to(Binary64::nothing(), 1310);
    } else {
        let h = (k - 1) as nat;
        lemma_clipped_sum(radius, m, v, h, j);
        assert(all_finite(m[h as int]));
        assert(m[h as int].len() == v.len());
        let u = m[h as int][j];
        assert(u.finite() && v[j].finite());
        let scale = clip_scale(radius, distance_squared64(m[h as int], v).root());
        clipping_keeps_a_fraction(radius, distance_squared64(m[h as int], v).root());
        lemma_single_up_to(u);
        lemma_single_up_to(v[j]);
        lemma_negated_up_to(v[j].as_binary64(), 1202);
        lemma_up_to_more(u.as_binary64(), 1202, 1256);
        lemma_sum_up_to(u.as_binary64(), v[j].as_binary64().negated(), 1202);
        let deviation = u.as_binary64().minus(v[j].as_binary64());
        lemma_at_most_one_up_to(scale);
        lemma_product_up_to(deviation, scale, 1256, 1074);
        lemma_sum_up_to(clipped_sum(radius, m, v, h)[j], deviation.times(scale), 1256);
    }
}

proof fn lemma_small_steps()
    ensures
        pow2(53) == 0x20_0000_0000_0000,
{
    lemma2_to64();
    lemma2_to64_rest();
}

/// From a finite reference, or from none, a round leads to a finite reference,
/// whatever finite updates are submitted.
pub proof fn clipping_stays_finite(
    radius: Binary32,
    reference: Option<Seq<Binary32>>,
    batch: Seq<Delta>,
)
    requires
        radius.finite(),
        0 <= radius.rank(),
        0 < batch.len() <= usize::MAX,
        validated(batch) is Ok,
        reference is Some ==> all_finite(reference->0),
    ensures
        clipping_step((radius, reference), batch).0 is Ok,
        all_finite(clipping_step((radius, reference), batch).0->Ok_0),
        clipping_step((radius, reference), batch).1 == (
            radius,
            Some(clipping_step((radius, reference), batch).0->Ok_0),
        ),
{
    reveal(clipping_step);
    accepted_batches_are_fit(batch);
    let m = validated(batch)->Ok_0;
    let v = clip_center(reference, m);
    lemma_even_mean(m, m[0].len());
    let n = m.len();
    let sums = clipped_sum(radius, m, v, n);
    let next = clipped_round(radius, reference, m);
    assert forall|j: int| 0 <= j < next.len() implies (#[trigger] next[j]).finite() by {
        assert(v[j].finite());
        lemma_clipped_sum(radius, m, v, n, j);
        Binary64::words_are_finite(n);
        Binary64::unit().unsigned_patterns();
        sums[j].finite_is_a_number();
        sums[j].over_a_positive(Binary64::whole(n));
        v[j].widening_is_exact();
        let (x, y) = (v[j].as_binary64(), sums[j].over(Binary64::whole(n)));
        y.running_sums_are_numbers(x);
        y.plus_commutes(x);
        x.plus(y).narrowing_keeps_the_order(x.plus(y));
        x.plus(y).as_binary32().held_is_finite();
    }
}

/// A number of no steps either way is zero.
proof fn lemma_no_steps(x: Binary64)
    requires
        within(x, 0, 0),
    ensures
        x.rank() == 0,
{
    let f = crate::float::format::Format::Double;
    reveal(Binary64::rank);
    assert(0 * step() == 0);
    crate::float::ieee::lemma_units_zero(f);
    let m = f.magnitude(x.bits as nat);
    if m > 0 {
        crate::float::magnitude::lemma_units_strictly_monotone(f, 0, m);
    }
}

/// The difference of a number from the same number is nothing.
proof fn lemma_no_deviation(a: Binary32, b: Binary32)
    requires
        a.finite(),
        b.finite(),
        a.rank() == b.rank(),
    ensures
        within(a.as_binary64().minus(b.as_binary64()), 0, 0),
{
    let f = crate::float::format::Format::Single;
    a.widening_is_exact();
    b.widening_is_exact();
    crate::float::laws::ranks_order_numbers(f, a.bits as nat, b.bits as nat);
    assert(a.rank() == f.rank(a.bits as nat) && b.rank() == f.rank(b.bits as nat)) by {
        reveal(Binary32::rank);
    }
    lemma_negated(b.as_binary64());
    lemma_small_steps();
    assert(0 * step() == 0);
    lemma_sum_within(a.as_binary64(), b.as_binary64().negated(), 0, 0);
}

/// Nothings add up to nothing.
proof fn lemma_no_distance(s: Seq<Binary64>)
    requires
        forall|i: int| 0 <= i < s.len() ==> within(#[trigger] s[i], 0, 0),
    ensures
        within(crate::linear::sum64(s), 0, 0),
    decreases s.len(),
{
    assert(0 * step() == 0);
    if s.len() == 0 {
        let zero = crate::linear::empty_sum64();
        assert(Binary64::nothing().negated() == zero) by {
            reveal(Binary64::negated);
            assert(0nat % 0x8000_0000_0000_0000nat == 0);
        }
        zero.zeros();
        assert(amount(zero) == 0) by {
            let f = crate::float::format::Format::Double;
            crate::float::ieee::lemma_units_zero(f);
            assert(0x8000_0000_0000_0000nat % 0x8000_0000_0000_0000nat == 0);
        }
    } else {
        let rest = s.drop_last();
        assert forall|i: int| 0 <= i < rest.len() implies within(#[trigger] rest[i], 0, 0) by {
            assert(within(s[i], 0, 0));
        }
        lemma_no_distance(rest);
        assert(within(s[s.len() - 1], 0, 0));
        lemma_small_steps();
        lemma_sum_within(crate::linear::sum64(rest), s.last(), 0, 0);
    }
}

/// The plain mean of one row is that row.
pub proof fn lemma_mean_of_one(w: Seq<Binary32>)
    requires
        all_finite(w),
    ensures
        same_numbers(even_mean(seq![w], w.len()), w),
{
    let m = seq![w];
    let shares = Seq::new(m.len(), |i: int| equal_share(m.len()));
    Binary32::one_is_whole();
    Binary32::unit().unsigned_patterns();
    Binary32::unit().itself_over_itself();
    assert(shares[0] == Binary32::unit());
    assert(weighted_rows(m, shares, w.len(), 0) == zeros32(w.len()));
    let r = weighted_rows(m, shares, w.len(), 1);
    assert(r == held_all(plus_weighted(zeros32(w.len()), m[0], shares[0])));
    Binary32::nothing().zeros();
    assert forall|j: int| 0 <= j < r.len() implies (#[trigger] r[j]).finite() && w[j].finite()
        && r[j].rank() == w[j].rank() by {
        w[j].one_scales_nothing();
        w[j].zero_adds_nothing(Binary32::nothing());
    }
}

/// A lone client's update comes back unchanged from a method that has seen
/// nothing yet: it is its own center.
pub proof fn a_lone_client_is_its_own_center(radius: Binary32, w: Seq<Binary32>)
    requires
        all_finite(w),
    ensures
        same_numbers(clipped_round(radius, None, seq![w]), w),
{
    let m = seq![w];
    let v = even_mean(m, w.len());
    lemma_mean_of_one(w);
    let squares = squared_differences64(w, v);
    assert forall|i: int| 0 <= i < squares.len() implies within(#[trigger] squares[i], 0, 0) by {
        let d = w[i].as_binary64().minus(v[i].as_binary64());
        assert(v[i].finite());
        lemma_no_deviation(w[i], v[i]);
        lemma_no_steps(d);
        Binary64::unit().unsigned_patterns();
        lemma_scaled_within(d, d, 0, 0);
    }
    lemma_no_distance(squares);
    let distance = distance_squared64(w, v);
    lemma_no_steps(distance);
    distance.root_of_nothing();
    Binary64::nothing().zeros();
    let scale = clip_scale(radius, distance.root());
    assert(scale == Binary64::unit());
    let sums = clipped_sum(radius, m, v, 1);
    assert(clipped_sum(radius, m, v, 0) == zeros64(v.len()));
    assert(sums == plus_scaled_difference(zeros64(v.len()), m[0], v, scale));
    let next = clipped_round(radius, None, m);
    assert forall|j: int| 0 <= j < next.len() implies (#[trigger] next[j]).finite()
        && w[j].finite() && next[j].rank() == w[j].rank() by {
        assert(v[j].finite());
        let d = w[j].as_binary64().minus(v[j].as_binary64());
        lemma_no_deviation(w[j], v[j]);
        Binary64::unit().unsigned_patterns();
        lemma_scaled_within(d, scale, 0, 0);
        lemma_no_steps(d.times(scale));
        d.times(scale).zero_adds_nothing(Binary64::nothing());
        let sum = sums[j];
        assert(sum == Binary64::nothing().plus(d.times(scale)));
        lemma_small_steps();
        assert(0 * step() == 0);
        assert(within(sum, 0, 0)) by {
            lemma_zero_steps(sum);
        }
        assert(1 * 0 == 0);
        lemma_mean_within(sum, 1, 0, 0);
        let mean = sum.over(Binary64::whole(1));
        lemma_no_steps(mean);
        let wide = v[j].as_binary64();
        v[j].widening_is_exact();
        wide.zero_adds_nothing(mean);
        let r = wide.plus(mean);
        if wide.rank() == 0 {
            r.narrows_to_nothing();
            wide.narrows_to_nothing();
        } else {
            r.ranks_tell_apart(wide);
        }
    }
}

/// Zero is no step away from itself.
proof fn lemma_zero_steps(x: Binary64)
    requires
        x.finite(),
        x.rank() == 0,
    ensures
        within(x, 0, 0),
{
    reveal(Binary64::rank);
    assert(0 * step() == 0);
    crate::float::ieee::lemma_units_zero(crate::float::format::Format::Double);
}

/// The distance between finite vectors is finite and below 2^210.
pub proof fn lemma_distance(w: Seq<Binary32>, v: Seq<Binary32>)
    requires
        w.len() == v.len(),
        all_finite(w),
        all_finite(v),
    ensures
        distance_squared64(w, v).root().finite(),
        0 <= distance_squared64(w, v).root().rank(),
        0 < distance_squared64(w, v).root().rank() ==> up_to(
            distance_squared64(w, v).root(),
            1283,
        ),
{
    let s = squared_differences64(w, v);
    assert forall|i: int| 0 <= i < s.len() implies up_to(#[trigger] s[i], 1438) && is_length64(
        s[i],
    ) by {
        assert(w[i].finite() && v[i].finite());
        lemma_single_up_to(w[i]);
        lemma_single_up_to(v[i]);
        lemma_negated_up_to(v[i].as_binary64(), 1202);
        lemma_up_to_more(w[i].as_binary64(), 1202, 1256);
        lemma_sum_up_to(w[i].as_binary64(), v[i].as_binary64().negated(), 1202);
        let d = w[i].as_binary64().minus(v[i].as_binary64());
        lemma_product_up_to(d, d, 1256, 1256);
        d.finite_is_a_number();
        d.square_is_not_negative();
    }
    lemma_bounded_sum(s, 1438);
    lemma_lengths(s);
    let d = distance_squared64(w, v);
    d.root_of_a_length();
    if d.rank() > 0 {
        lemma_root_up_to(d, 746);
    } else {
        d.root_of_nothing();
        Binary64::nothing().zeros();
    }
}

/// What is kept of a client's deviation is no longer than the radius, but for
/// one rounding: so is the kept fraction times the client's distance.
pub proof fn clipping_brings_clients_within_the_radius(
    radius: Binary32,
    w: Seq<Binary32>,
    v: Seq<Binary32>,
)
    requires
        radius.finite(),
        0 <= radius.rank(),
        w.len() == v.len(),
        all_finite(w),
        all_finite(v),
    ensures
        nearly(
            Format::Double,
            size(clip_scale(radius, distance_squared64(w, v).root())) * size(
                distance_squared64(w, v).root(),
            ),
            size(radius.as_binary64()) * pow2(1074),
            1,
        ),
{
    lemma_distance(w, v);
    let distance = distance_squared64(w, v).root();
    let r = radius.as_binary64();
    let scale = clip_scale(radius, distance);
    let reach = size(r) * pow2(1074);
    let f = Format::Double;
    clipping_keeps_a_fraction(radius, distance);
    Binary64::nothing().zeros();
    Binary64::nothing().finite_is_a_number();
    distance.finite_is_a_number();
    lemma_size_zero(distance);
    lemma_pow2_pos(53);
    if distance.rank() == 0 {
        assert(size(scale) * 0 == 0) by (nonlinear_arith);
        lemma_nearly_at_most(f, 0, reach, 1);
    } else {
        radius.widening_is_exact();
        let q = r.over(distance);
        lemma_positive_at_least(distance);
        lemma_single_up_to(radius);
        if radius.rank() == 0 {
            radius.widens_to_nothing();
            lemma_size_zero(r);
            lemma_zero_quotient(r, distance);
        } else {
            lemma_single_at_least(radius);
            lemma_pow2_adds(925, 1074);
            lemma_pow2_adds(53, 1283);
            lemma_pow2_strictly_increases(1336, 1999);
            lemma_pow2_pos(1074);
            assert(size(r) * pow2(1074) >= pow2(53) * size(distance)) by (nonlinear_arith)
                requires
                    size(r) >= pow2(925),
                    size(distance) <= pow2(1283),
                    pow2(925) * pow2(1074) >= pow2(53) * pow2(1283),
            ;
        }
        Binary64::unit().unsigned_patterns();
        r.finite_is_a_number();
        assert(0 <= r.rank()) by {
            Binary32::nothing().zeros();
            Binary32::nothing().widens_to_nothing();
            Binary32::nothing().widening_keeps_the_order(radius);
        }
        r.fractions_are_not_negative(distance);
        if q.finite() {
            lemma_over_slip(r, distance);
            if Binary64::unit().below(q) {
                lemma_sizes_ordered(Binary64::unit(), q);
            }
            let (a, b, d) = (size(scale), size(q), size(distance));
            lemma_mul_inequality(a as int, b as int, d as int);
            lemma_nearly_at_most(f, a * d, b * d, 0);
            lemma_nearly_chain(f, a * d, b * d, reach, 0, 1);
        } else {
            // the client lies within the radius and keeps its whole deviation
            if r.rank() <= distance.rank() {
                r.ratio_at_most_one(distance);
            }
            lemma_sizes_ordered(distance, r);
            lemma_at_most_one_up_to(scale);
            let (a, b, d) = (size(scale), size(r), size(distance));
            assert(a * d <= reach) by (nonlinear_arith)
                requires
                    a <= pow2(1074),
                    d <= b,
                    reach == b * pow2(1074),
            ;
            lemma_nearly_at_most(f, a * d, reach, 1);
        }
    }
}

} // verus!
