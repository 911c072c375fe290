//! Where the geometric median is pulled to.
use vstd::prelude::*;
use vstd::arithmetic::div_mod::*;
use vstd::arithmetic::mul::*;
use vstd::arithmetic::power2::*;
use crate::averaging::{normalized, weighted_mean, weighted_rows, AveragingWeighting, SampleCountWeighting};
use crate::delta::Delta;
use crate::float::binary32::Binary32;
use crate::float::drift::unity;
use crate::float::format::Format;
use crate::float::laws::lemma_sizes;
use crate::float::slip::{grain, lemma_nearly_at_most, lemma_nearly_chain, lemma_nearly_more, lemma_nearly_scaled, lemma_over_slip32, lemma_quotient_bounds32, lemma_sizes32, lemma_whole_slip32, nearly, power, size32};
use crate::laws::accuracy::{are_moderate, are_weights, is_combination, lemma_combined, lemma_one_count, lemma_shares_of, lemma_somebody, samples, sizes_total};
use crate::laws::averaging::lemma_number;
use crate::laws::finite::{is_length, lemma_distance_is_number, lemma_lengths_add_up, the_geometric_median_is_finite};
use crate::laws::steps::agree;
use crate::linear::{distance32, sum32};
use crate::robust::coordinate::column;
use crate::robust::geometric::{combined_vectors, inverse_distance_weights, no_direction, sample_weights, weiszfeld, weiszfeld_floor, weiszfeld_start, GeometricMedianStatistic, RobustVectorStatistic};
use crate::weights::{accepted_batches_are_fit, all_finite, validated};

verus! {

/// A distance, but no less than one millionth, in units.
pub open spec fn reach(d: Binary32) -> nat {
    if 1_000_000 * size32(d) < unity() {
        unity() / 1_000_000
    } else {
        size32(d)
    }
}

proof fn lemma_floor()
    ensures
        weiszfeld_floor().finite(),
        0 < weiszfeld_floor().rank(),
        size32(weiszfeld_floor()) == 8796093 * pow2(106),
        pow2(129) <= size32(weiszfeld_floor()),
        unity() == 8796093022208 * pow2(106),
{
    weiszfeld_floor().unsigned_patterns();
    lemma_sizes(Format::Single);
    lemma2_to64();
    lemma2_to64_rest();
    assert(size32(weiszfeld_floor()) == 8796093 * pow2(106)) by {
        lemma_small_mod(0x3586_37bd, Format::Single.sign_weight());
        reveal(Format::units);
    }
    lemma_pow2_adds(23, 106);
    lemma_pow2_adds(43, 106);
}

/// The divisor of an iteration step is the distance, from below bounded by one
/// millionth.
proof fn lemma_reach(d: Binary32)
    requires
        d.finite(),
        0 <= d.rank(),
        size32(d) <= pow2(189),
    ensures
        ({
            let e = d.larger(weiszfeld_floor());
            &&& e.finite() && 0 < e.rank()
            &&& pow2(129) <= size32(e) <= pow2(189)
            &&& agree(size32(e), reach(d), 1)
        }),
{
    let f = Format::Single;
    let g = weiszfeld_floor();
    let e = d.larger(g);
    lemma_floor();
    lemma_number(d);
    lemma_number(g);
    lemma_sizes32(d, g);
    lemma_sizes32(g, d);
    let q = pow2(106);
    lemma_pow2_pos(106);
    lemma2_to64();
    lemma_pow2_adds(24, 106);
    lemma_pow2_strictly_increases(130, 189);
    let (s, x, n) = (size32(e), reach(d), size32(d));
    let w = unity() / 1_000_000;
    lemma_fundamental_div_mod(unity() as int, 1_000_000);
    lemma_mod_bound(unity() as int, 1_000_000);
    assert(1_000_000 * w <= 8796093022208 * q);
    assert(1_000_000 * w > 8796093022208 * q - 1_000_000);
    lemma_pow2_strictly_increases(64, 106);
    assert(8796093 * q <= w);
    assert(0x100_0000 * w <= 0x100_0001 * (8796093 * q));
    reveal(nearly);
    reveal_with_fuel(power, 2);
    assert(grain(f) == 0x100_0000);
    assert(power(0x100_0000, 1) == 0x100_0000 && power(0x100_0001, 1) == 0x100_0001);
    assert(s <= x) by {
        if 1_000_000 * n < unity() {
            assert(n <= w);
        }
    }
    lemma_nearly_at_most(f, s, x, 1);
    assert(0x100_0000 * x <= 0x100_0001 * s);
    assert(x * power(grain(f), 1) == 0x100_0000 * x);
    assert(s * power(grain(f) + 1, 1) == 0x100_0001 * s);
    assert(nearly(f, x, s, 1));
}

/// One step more is one step from where the others led.
proof fn lemma_last_step(
    weights: Seq<Binary32>,
    m: Seq<Seq<Binary32>>,
    estimate: Seq<Binary32>,
    k: nat,
)
    ensures
        weiszfeld(weights, m, estimate, k + 1) == weiszfeld(
            weights,
            m,
            weiszfeld(weights, m, estimate, k),
            1,
        ),
    decreases k,
{
    reveal_with_fuel(weiszfeld, 2);
    if k > 0 {
        let inverse = inverse_distance_weights(weights, m, estimate);
        let total = sum32(inverse);
        if !no_direction(total) {
            lemma_last_step(
                weights,
                m,
                weighted_rows(m, normalized(inverse, total), m[0].len(), m.len()),
                (k - 1) as nat,
            );
        }
    }
}

/// Whether `new` is where the rows of `m` pull from `old`: there are shares,
/// which come to one, by which each of its coordinates is combined, and each
/// share times the distance of its row is the weight of the row, in one
/// proportion for all rows. So every row pulls along the unit vector towards
/// it, with its weight, whatever its distance.
pub open spec fn is_pulled(
    samples: Seq<nat>,
    m: Seq<Seq<Binary32>>,
    old: Seq<Binary32>,
    new: Seq<Binary32>,
) -> bool {
    exists|shares: Seq<Binary32>, t: nat|
        {
            &&& t > 0
            &&& shares.len() == m.len()
            &&& #[trigger] agree(sizes_total(shares), unity(), 2 * m.len() + 2)
            &&& #[trigger] pulls_agree(samples, m, old, shares, t)
            &&& forall|c: int|
                0 <= c < m[0].len() ==> is_combination(#[trigger] new[c], column(m, c), shares)
        }
}

/// Whether each share times the distance of its row, in units of `t`, is the
/// weight of the row.
pub open spec fn pulls_agree(
    samples: Seq<nat>,
    m: Seq<Seq<Binary32>>,
    old: Seq<Binary32>,
    shares: Seq<Binary32>,
    t: nat,
) -> bool {
    forall|i: int|
        0 <= i < m.len() ==> agree(
            (size32(#[trigger] shares[i]) * reach(distance32(m[i], old))) * t,
            samples[i] * (unity() * unity() * unity()),
            7,
        )
}

/// The samples behind each update.
pub open spec fn sample_numbers(batch: Seq<Delta>) -> Seq<nat> {
    Seq::new(batch.len(), |i: int| batch[i].num_samples as nat)
}

/// Whether no distance from `old` is beyond 2^40.
pub open spec fn are_near(m: Seq<Seq<Binary32>>, old: Seq<Binary32>) -> bool {
    forall|i: int|
        0 <= i < m.len() ==> (#[trigger] distance32(m[i], old)).finite() && size32(
            distance32(m[i], old),
        ) <= pow2(189)
}

/// One step of the iteration behind the geometric median moves to where every
/// update pulls by its samples, however far it lies: the step is as if each
/// update held on a string of its own with a force that only its samples give.
pub proof fn each_step_balances_the_pulls(batch: Seq<Delta>, k: usize)
    requires
        k < usize::MAX,
        batch.len() <= 0x10_0000,
        samples(batch) > 0,
        combined_vectors(GeometricMedianStatistic { iterations: k }, batch) is Ok,
        are_moderate(validated(batch)->Ok_0),
        are_near(
            validated(batch)->Ok_0,
            combined_vectors(GeometricMedianStatistic { iterations: k }, batch)->Ok_0,
        ),
    ensures
        combined_vectors(
            GeometricMedianStatistic { iterations: (k + 1) as usize },
            batch,
        ) is Ok,
        is_pulled(
            sample_numbers(batch),
            validated(batch)->Ok_0,
            combined_vectors(GeometricMedianStatistic { iterations: k }, batch)->Ok_0,
            combined_vectors(
                GeometricMedianStatistic { iterations: (k + 1) as usize },
                batch,
            )->Ok_0,
        ),
{
    let statistic = GeometricMedianStatistic { iterations: k };
    the_geometric_median_is_finite(statistic, batch);
    reveal(combined_vectors);
    accepted_batches_are_fit(batch);
    let m = validated(batch)->Ok_0;
    let weights = sample_weights(batch);
    statistic.keeps_length(weights, m);
    let old = statistic.combines(weights, m);
    lemma_last_step(weights, m, weiszfeld_start(weights, m), k as nat);
    let new = weiszfeld(weights, m, old, 1);
    reveal_with_fuel(weiszfeld, 2);
    let inverse = inverse_distance_weights(weights, m, old);
    let t = sum32(inverse);
    let shares = normalized(inverse, t);
    let n = m.len();
    assert forall|i: int| 0 <= i < n implies pulls_by(
        #[trigger] inverse[i],
        batch[i].num_samples as nat,
        distance32(m[i], old),
    ) by {
        assert(all_finite(m[i]));
        assert(m[i].len() == m[0].len());
        lemma_distance_is_number(m[i], old);
        assert(distance32(m[i], old).finite());
        lemma_inverse(batch[i].num_samples as nat, distance32(m[i], old));
    }
    let j = lemma_somebody(batch);
    assert(pulls_by(inverse[j], batch[j].num_samples as nat, distance32(m[j], old)));
    lemma_pow2_pos(109);
    assert(are_weights(inverse)) by {
        assert(size32(inverse[j]) > 0);
        assert forall|i: int| 0 <= i < inverse.len() implies (#[trigger] inverse[i]).finite() && 0
            <= inverse[i].rank() && (size32(inverse[i]) == 0 || size32(inverse[i]) >= pow2(109))
            && size32(inverse[i]) <= pow2(209) by {
            assert(pulls_by(inverse[i], batch[i].num_samples as nat, distance32(m[i], old)));
        }
    }
    lemma_shares_of(inverse);
    Binary32::nothing().zeros();
    lemma_number(Binary32::nothing());
    lemma_number(t);
    assert(!no_direction(t));
    assert forall|c: int| 0 <= c < m[0].len() implies is_combination(
        #[trigger] new[c],
        column(m, c),
        shares,
    ) by {
        lemma_combined(m, inverse, m[0].len(), c);
    }
    assert(pulls_agree(sample_numbers(batch), m, old, shares, size32(t))) by {
        assert forall|i: int| 0 <= i < n implies agree(
            (size32(#[trigger] shares[i]) * reach(distance32(m[i], old))) * size32(t),
            sample_numbers(batch)[i] * (unity() * unity() * unity()),
            7,
        ) by {
            assert(pulls_by(inverse[i], batch[i].num_samples as nat, distance32(m[i], old)));
            lemma_pulls(
                size32(shares[i]),
                reach(distance32(m[i], old)),
                size32(t),
                size32(inverse[i]),
                batch[i].num_samples as nat,
            );
        }
    }
}

/// The iteration behind the geometric median starts from the mean by samples.
pub proof fn the_median_starts_at_the_mean(batch: Seq<Delta>)
    requires
        weighted_mean(SampleCountWeighting, batch) is Ok,
    ensures
        combined_vectors(GeometricMedianStatistic { iterations: 0 }, batch) == weighted_mean(
            SampleCountWeighting,
            batch,
        ),
{
    reveal(weighted_mean);
    reveal(combined_vectors);
    let weights = sample_weights(batch);
    assert(Seq::new(batch.len(), |i: int| SampleCountWeighting.weight_of(batch[i], batch))
        =~= weights);
    assert forall|i: int| 0 <= i < weights.len() implies is_length(#[trigger] weights[i]) by {
        Binary32::words_are_finite(batch[i].num_samples as nat);
        lemma_number(weights[i]);
    }
    lemma_lengths_add_up(weights);
    Binary32::nothing().zeros();
    lemma_number(Binary32::nothing());
}

/// Whether `x` is `n` over the distance `d`, and of a size to be normalized.
spec fn pulls_by(x: Binary32, n: nat, d: Binary32) -> bool {
    &&& x.finite() && 0 <= x.rank()
    &&& n == 0 ==> size32(x) == 0
    &&& n > 0 ==> size32(x) >= pow2(109)
    &&& size32(x) <= pow2(209)
    &&& agree(size32(x) * reach(d), n * (unity() * unity()), 5)
}

proof fn lemma_inverse(n: nat, d: Binary32)
    requires
        n <= 0x100_0000_0000,
        d.finite(),
        0 <= d.rank(),
        size32(d) <= pow2(189),
    ensures
        pulls_by(Binary32::whole(n).over(d.larger(weiszfeld_floor())), n, d),
{
    let f = Format::Single;
    let w = Binary32::whole(n);
    let e = d.larger(weiszfeld_floor());
    let x = w.over(e);
    let u = unity();
    lemma_one_count(n);
    lemma_reach(d);
    lemma_number(w);
    lemma_number(e);
    lemma_pow2_pos(129);
    lemma_pow2_pos(149);
    lemma2_to64();
    lemma2_to64_rest();
    if n > 0 {
        lemma_whole_slip32(n);
        assert(n <= pow2(40));
        assert(size32(w) <= pow2(189));
        lemma_pow2_adds(149, 149);
        lemma_pow2_adds(24, 189);
        lemma_pow2_strictly_increases(213, 298);
        lemma_mul_inequality(pow2(149) as int, size32(w) as int, u as int);
        lemma_mul_inequality(size32(e) as int, pow2(189) as int, pow2(24) as int);
    }
    lemma_quotient_sizes(w, e, n);
    lemma_over_slip32(w, e);
    // x e ~ w u, e ~ reach, w ~ n u
    let (a, b, s, r) = (size32(x), size32(w), size32(e), reach(d));
    lemma_nearly_scaled(f, b, n * u, u, 1);
    lemma_nearly_scaled(f, n * u, b, u, 2);
    lemma_nearly_scaled(f, r, s, a, 1);
    lemma_nearly_scaled(f, s, r, a, 1);
    assert((n * u) * u == n * (u * u)) by (nonlinear_arith);
    lemma_nearly_chain(f, a * r, a * s, b * u, 1, 1);
    lemma_nearly_chain(f, a * r, b * u, n * (u * u), 2, 1);
    lemma_nearly_more(f, a * r, n * (u * u), 3, 5);
    lemma_nearly_chain(f, n * (u * u), b * u, a * s, 2, 2);
    lemma_nearly_chain(f, n * (u * u), a * s, a * r, 4, 1);
}

/// How large a quotient of a count and a distance is.
proof fn lemma_quotient_sizes(w: Binary32, e: Binary32, n: nat)
    requires
        w.finite(),
        0 <= w.rank(),
        e.finite(),
        0 < e.rank(),
        n == 0 ==> size32(w) == 0,
        n > 0 ==> size32(w) >= pow2(149),
        size32(w) <= pow2(189),
        pow2(129) <= size32(e) <= pow2(189),
    ensures
        w.over(e).finite(),
        0 <= w.over(e).rank(),
        n == 0 ==> size32(w.over(e)) == 0,
        n > 0 ==> size32(w.over(e)) >= pow2(109),
        size32(w.over(e)) <= pow2(209),
{
    let u = unity();
    lemma_pow2_pos(129);
    lemma_pow2_pos(149);
    lemma_number(w);
    lemma_number(e);
    lemma_pow2_adds(189, 149);
    lemma_pow2_adds(129, 209);
    lemma_mul_inequality(size32(w) as int, pow2(189) as int, u as int);
    lemma_mul_inequality(pow2(129) as int, size32(e) as int, pow2(209) as int);
    lemma_mul_is_commutative(size32(e) as int, pow2(209) as int);
    lemma_quotient_bounds32(w, e, 209);
    w.ratio_is_not_negative(e);
    if n > 0 {
        lemma_pow2_adds(149, 149);
        lemma_pow2_adds(189, 109);
        lemma_mul_inequality(pow2(149) as int, size32(w) as int, u as int);
        lemma_mul_inequality(size32(e) as int, pow2(189) as int, pow2(109) as int);
        lemma_mul_is_commutative(size32(e) as int, pow2(109) as int);
        lemma_quotient_bounds32(w, e, 109);
    } else {
        lemma_sizes32(w, w);
        w.zero_over(e);
        lemma_sizes32(w.over(e), w);
    }
}

/// What a share, a distance and the sum of the quotients come to.
proof fn lemma_pulls(s: nat, r: nat, t: nat, x: nat, n: nat)
    requires
        nearly(Format::Single, s * t, x * unity(), 1),
        nearly(Format::Single, x * unity(), s * t, 2),
        agree(x * r, n * (unity() * unity()), 5),
    ensures
        agree((s * r) * t, n * (unity() * unity() * unity()), 7),
{
    let f = Format::Single;
    let u = unity();
    let uu = u * u;
    lemma_nearly_scaled(f, s * t, x * u, r, 1);
    lemma_nearly_scaled(f, x * u, s * t, r, 2);
    lemma_nearly_scaled(f, x * r, n * uu, u, 5);
    lemma_nearly_scaled(f, n * uu, x * r, u, 5);
    assert((s * t) * r == (s * r) * t) by (nonlinear_arith);
    assert((x * u) * r == (x * r) * u) by (nonlinear_arith);
    assert((n * uu) * u == n * (uu * u)) by (nonlinear_arith);
    lemma_nearly_chain(f, (s * r) * t, (x * r) * u, n * (uu * u), 1, 5);
    lemma_nearly_more(f, (s * r) * t, n * (uu * u), 6, 7);
    lemma_nearly_chain(f, n * (uu * u), (x * r) * u, (s * r) * t, 5, 2);
}

} // verus!
