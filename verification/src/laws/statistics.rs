//! What the statistics of single coordinates are, in exact numbers.
use vstd::prelude::*;
use vstd::arithmetic::div_mod::*;
use vstd::arithmetic::mul::*;
use vstd::arithmetic::power2::*;
use crate::float::binary32::Binary32;
use crate::float::drift::{ceiling, far, lemma_far_product, lemma_over_drift, lemma_sum_drift, lemma_total_within, lemma_val, total, unity, val, vals, weight};
use crate::float::format::Format;
use crate::float::ieee::{lemma_round_zero, lemma_units_zero};
use crate::float::laws::{lemma_pack, lemma_round_limit, lemma_sizes, sums_round_once};
use crate::float::slip::{grain, lemma_round_error, lemma_whole_slip32, size32};
use crate::linear::sum32;
use crate::order::{ranks32, sorted32, stable_order, stable_order_is_a_sorted_permutation};
use crate::robust::coordinate::{group_means, halfway, lemma_group_means, middle_of, plain_mean, trim_count, two, CoordinateWiseRobustStatistic, MedianOfMeansStatistic, MedianStatistic, TrimmedMeanStatistic};
use crate::robust::filter::assumed_byzantine;
use crate::weights::all_finite;

verus! {

/// Whether `x` is the mean of `values`: times their number it is their sum,
/// but for roundings, of which there are a few and two for each value.
pub open spec fn is_mean(x: Binary32, values: Seq<Binary32>) -> bool {
    &&& x.finite()
    &&& 0x100_0000 * far(val(x) * values.len() - total(vals(values))) <= (2 * values.len() + 10)
        * weight(vals(values)) + 0x200_0000 * values.len()
}

/// Whether values are finite and come to no more than half the largest number.
pub open spec fn can_be_added(values: Seq<Binary32>) -> bool {
    &&& 0 < values.len() <= 0x10_0000
    &&& all_finite(values)
    &&& 2 * weight(vals(values)) <= ceiling()
}

proof fn lemma_whole_error(n: nat)
    requires
        0 < n <= 0x10_0000,
    ensures
        Binary32::whole(n).finite(),
        0 < Binary32::whole(n).rank(),
        0x100_0000 * (size32(Binary32::whole(n)) - n * unity()) <= n * unity(),
        0x100_0000 * (n * unity() - size32(Binary32::whole(n))) <= n * unity(),
{
    let f = Format::Single;
    lemma_whole_slip32(n);
    lemma_sizes(f);
    let m = n * pow2(149);
    reveal(Binary32::finite);
    reveal(Binary32::whole);
    lemma_round_limit(f, m, 1);
    lemma_small_mod(f.round(m, 1), f.sign_weight());
    assert(grain(f) == 0x100_0000);
    lemma_round_error(f, m, 1);
    let u = f.units(f.round(m, 1));
    assert(u * 1 == u);
}

/// The mean of values is their sum over their number.
pub proof fn means_are_sums_over_counts(values: Seq<Binary32>)
    requires
        can_be_added(values),
    ensures
        is_mean(plain_mean(values), values),
{
    let n = values.len();
    let u = unity();
    let w = weight(vals(values));
    let s = total(vals(values));
    let count = Binary32::whole(n);
    let sum = sum32(values);
    lemma_pow2_pos(149);
    lemma_sum_drift(values);
    lemma_whole_error(n);
    lemma_total_within(vals(values));
    lemma_val(sum);
    let c = size32(count);
    let x = size32(sum);
    assert((2 * n) * w <= 0x100_0000 * w) by (nonlinear_arith)
        requires
            2 * n <= 0x100_0000,
    ;
    assert(x <= 2 * w);
    let nu = n * u;
    assert(nu >= u) by (nonlinear_arith)
        requires
            nu == n * u,
            n >= 1,
    ;
    assert(c >= u / 2);
    assert(x * u <= ceiling() * c) by {
        lemma_whole_slip32(n);
        assert(u <= c);
        lemma_mul_upper_bound(x as int, ceiling() as int, u as int, c as int);
    }
    lemma_over_drift(sum, count);
    let mean = sum.over(count);
    let m = val(mean);
    // val(mean) n u - s u, in three parts
    let (a, b, d) = (m * c - val(sum) * u, nu - c, val(sum) - s);
    assert((m * n - s) * u == a + m * b + d * u) by (nonlinear_arith)
        requires
            a == m * c - val(sum) * u,
            b == nu - c,
            d == val(sum) - s,
            nu == n * u,
    ;
    lemma_far_product(m * n - s, u as int);
    lemma_far_product(m, b);
    lemma_far_product(d, u as int);
    lemma_far_product(m, c as int);
    lemma_far_product(val(sum), u as int);
    let (fm, fb, fd) = (far(m), far(b), far(d));
    let wu = w * u;
    assert(x * u <= 2 * wu) by (nonlinear_arith)
        requires
            x <= 2 * w,
            wu == w * u,
    ;
    assert(0x100_0000 * (fd * u) <= (2 * n) * wu) by (nonlinear_arith)
        requires
            0x100_0000 * fd <= (2 * n) * w,
            wu == w * u,
    ;
    assert(fm * c <= 4 * wu + c);
    assert(fm * nu <= 2 * (fm * c)) by (nonlinear_arith)
        requires
            nu <= 2 * c,
    ;
    assert(0x100_0000 * (fm * fb) <= fm * nu) by (nonlinear_arith)
        requires
            0x100_0000 * fb <= nu,
    ;
    let g = far(m * n - s);
    assert(g * u <= far(a) + fm * fb + fd * u);
    assert(0x100_0000 * (g * u) <= 2 * wu + 0x80_0000 * c + 8 * wu + 2 * c + (2 * n) * wu);
    let bound = (2 * n + 10) * w + 0x200_0000 * n;
    assert(bound * u == (2 * n) * wu + 10 * wu + 0x200_0000 * nu) by (nonlinear_arith)
        requires
            bound == (2 * n + 10) * w + 0x200_0000 * n,
            wu == w * u,
            nu == n * u,
    ;
    assert(0x100_0000 * (g * u) == (0x100_0000 * g) * u) by (nonlinear_arith);
    if 0x100_0000 * g > bound {
        lemma_mul_strict_inequality(bound as int, (0x100_0000 * g) as int, u as int);
    }
}

/// The values at `places`.
pub open spec fn picked_values(values: Seq<Binary32>, places: Seq<usize>) -> Seq<Binary32> {
    Seq::new(places.len(), |a: int| values[places[a] as int])
}

/// Whether `places` lists the places of a list of ranks, each once, from the
/// lowest up.
pub open spec fn ranks_up(values: Seq<Binary32>, places: Seq<usize>) -> bool {
    &&& places.len() == values.len()
    &&& places.no_duplicates()
    &&& forall|a: int| 0 <= a < places.len() ==> #[trigger] places[a] < values.len()
    &&& forall|a: int, b: int|
        0 <= a < b < places.len() ==> values[#[trigger] places[a] as int].rank() <= values[
        #[trigger] places[b] as int].rank()
}

proof fn lemma_ranked(values: Seq<Binary32>) -> (places: Seq<usize>)
    requires
        values.len() <= usize::MAX,
    ensures
        ranks_up(values, places),
        sorted32(values) == picked_values(values, places),
{
    let ranks = ranks32(values);
    stable_order_is_a_sorted_permutation(ranks);
    let places = stable_order(ranks);
    assert forall|a: int, b: int| 0 <= a < b < places.len() implies values[
    #[trigger] places[a] as int].rank() <= values[#[trigger] places[b] as int].rank() by {
        assert(ranks[places[a] as int] <= ranks[places[b] as int]);
    }
    assert(sorted32(values) =~= picked_values(values, places));
    places
}

/// The trimmed mean is the mean of what is left when, of the values from the
/// lowest up, as many are dropped from each end as are to be trimmed.
pub proof fn trimmed_means_average_the_middle(fraction: Binary32, values: Seq<Binary32>)
    requires
        can_be_added(values),
        values.len() <= usize::MAX,
    ensures
        exists|places: Seq<usize>| #[trigger]
            ranks_up(values, places) && ({
                let n = values.len();
                let t = trim_count(fraction, n) as int;
                let middle = picked_values(values, places).subrange(t, n - t);
                can_be_added(middle) && is_mean(
                    (TrimmedMeanStatistic { byzantine_fraction: fraction }).combines(values),
                    middle,
                )
            }),
{
    let n = values.len();
    let t = trim_count(fraction, n) as int;
    let places = lemma_ranked(values);
    let all = picked_values(values, places);
    let middle = all.subrange(t, n - t);
    assert forall|i: int| 0 <= i < middle.len() implies (#[trigger] middle[i]).finite() by {
        assert(places[i + t] < n);
        assert(values[places[i + t] as int].finite());
    }
    lemma_weight_picked(values, places);
    lemma_weight_part(all, t, n - t);
    means_are_sums_over_counts(middle);
}

/// Part of a list weighs no more than the list.
proof fn lemma_weight_part(s: Seq<Binary32>, from: int, to: int)
    requires
        0 <= from <= to <= s.len(),
    ensures
        weight(vals(s.subrange(from, to))) <= weight(vals(s)),
    decreases s.len(),
{
    let part = s.subrange(from, to);
    if s.len() > 0 {
        let rest = s.drop_last();
        assert(vals(s).drop_last() =~= vals(rest));
        if to == s.len() {
            if from < to {
                lemma_weight_part(rest, from, to - 1);
                assert(part.drop_last() =~= rest.subrange(from, to - 1));
                assert(vals(part).drop_last() =~= vals(part.drop_last()));
            } else {
                assert(vals(part).len() == 0);
            }
        } else {
            lemma_weight_part(rest, from, to);
            assert(part =~= rest.subrange(from, to));
        }
    } else {
        assert(vals(part).len() == 0);
    }
}

/// Values of a list, none picked twice, weigh no more than the list.
proof fn lemma_weight_picked(values: Seq<Binary32>, places: Seq<usize>)
    requires
        places.no_duplicates(),
        forall|a: int| 0 <= a < places.len() ==> #[trigger] places[a] < values.len(),
        values.len() <= usize::MAX,
    ensures
        weight(vals(picked_values(values, places))) <= weight(vals(values)),
    decreases values.len(),
{
    let all = picked_values(values, places);
    if values.len() == 0 {
        if places.len() > 0 {
            assert(places[0] < values.len());
        }
        assert(vals(all).len() == 0);
    } else {
        let rest = values.drop_last();
        let l = (values.len() - 1) as usize;
        assert(vals(values).drop_last() =~= vals(rest));
        if places.contains(l) {
            let k = choose|k: int| 0 <= k < places.len() && places[k] == l;
            let others = places.remove(k);
            assert forall|a: int| 0 <= a < others.len() implies #[trigger] others[a] < rest.len() by {
                let b = if a < k {
                    a
                } else {
                    a + 1
                };
                assert(others[a] == places[b]);
                assert(places[b] < values.len());
            }
            assert(others.no_duplicates()) by {
                assert forall|a: int, b: int| 0 <= a < others.len() && 0 <= b < others.len() && a
                    != b implies others[a] != others[b] by {
                    let (c, d) = (
                        if a < k {
                            a
                        } else {
                            a + 1
                        },
                        if b < k {
                            b
                        } else {
                            b + 1
                        },
                    );
                    assert(others[a] == places[c] && others[b] == places[d]);
                }
            }
            lemma_weight_picked(rest, others);
            assert(all.remove(k) =~= picked_values(rest, others)) by {
                assert forall|a: int| 0 <= a < others.len() implies all.remove(k)[a]
                    == picked_values(rest, others)[a] by {
                    assert(others[a] < rest.len());
                }
            }
            lemma_weight_removed(all, k);
        } else {
            assert forall|a: int| 0 <= a < places.len() implies #[trigger] places[a] < rest.len() by {
                assert(places[a] < values.len());
                assert(places.contains(places[a]));
            }
            lemma_weight_picked(rest, places);
            assert(all =~= picked_values(rest, places)) by {
                assert forall|a: int| 0 <= a < places.len() implies all[a] == picked_values(
                    rest,
                    places,
                )[a] by {
                    assert(places[a] < rest.len());
                }
            }
        }
    }
}

proof fn lemma_weight_removed(t: Seq<Binary32>, k: int)
    requires
        0 <= k < t.len(),
    ensures
        weight(vals(t)) == weight(vals(t.remove(k))) + far(val(t[k])),
    decreases t.len(),
{
    let rest = t.drop_last();
    assert(vals(t).drop_last() =~= vals(rest));
    if k < t.len() - 1 {
        lemma_weight_removed(rest, k);
        assert(t.remove(k).drop_last() =~= rest.remove(k));
        assert(vals(t.remove(k)).drop_last() =~= vals(rest.remove(k)));
    } else {
        assert(t.remove(k) =~= rest);
    }
}

/// Whether `x` lies halfway between `a` and `b`, but for roundings.
pub open spec fn is_halfway(x: Binary32, a: Binary32, b: Binary32) -> bool {
    0x40_0000 * far(2 * val(x) - (val(a) + val(b))) <= far(val(a)) + far(val(b)) + 0x100_0000
}

/// The median of a list is the value in the middle of those from the lowest
/// up, or halfway between the two in the middle.
pub proof fn medians_are_in_the_middle(values: Seq<Binary32>)
    requires
        0 < values.len() <= usize::MAX,
        all_finite(values),
    ensures
        is_median(MedianStatistic.combines(values), values),
{
    lemma_median(values);
}

/// Whether `x` is the median of `values`.
pub open spec fn is_median(x: Binary32, values: Seq<Binary32>) -> bool {
    exists|places: Seq<usize>| #[trigger]
        ranks_up(values, places) && ({
            let h = values.len() as int / 2;
            if values.len() % 2 == 1 {
                x == values[places[h] as int]
            } else {
                is_halfway(x, values[places[h - 1] as int], values[places[h] as int])
            }
        })
}

proof fn lemma_median(values: Seq<Binary32>)
    requires
        0 < values.len() <= usize::MAX,
        all_finite(values),
    ensures
        is_median(middle_of(sorted32(values)), values),
{
    let places = lemma_ranked(values);
    let h = values.len() as int / 2;
    if values.len() % 2 == 0 {
        assert(places[h - 1] < values.len());
        assert(places[h] < values.len());
        let (a, b) = (values[places[h - 1] as int], values[places[h] as int]);
        assert(a.finite() && b.finite());
        lemma_halfway(a, b);
    }
}

proof fn lemma_two()
    ensures
        two().finite(),
        0 < two().rank(),
        size32(two()) == 2 * unity(),
{
    let f = Format::Single;
    two().unsigned_patterns();
    lemma_sizes(f);
    lemma2_to64();
    lemma_pow2_adds(23, 127);
    lemma_pow2_unfold(150);
    assert(size32(two()) == 0x80_0000 * pow2(127)) by {
        lemma_small_mod(0x4000_0000, f.sign_weight());
        reveal(Format::units);
    }
}

proof fn lemma_half(x: Binary32)
    requires
        x.finite(),
    ensures
        x.over(two()).finite(),
        0x100_0000 * far(2 * val(x.over(two())) - val(x)) <= far(val(x)) + 0x100_0000,
{
    let u = unity();
    lemma_two();
    lemma_pow2_pos(149);
    lemma_val(x);
    assert(size32(x) * u <= ceiling() * (2 * u)) by (nonlinear_arith)
        requires
            size32(x) <= ceiling(),
    ;
    lemma_over_drift(x, two());
    let h = val(x.over(two()));
    let g = 2 * h - val(x);
    assert(h * (2 * u) - val(x) * u == g * u) by (nonlinear_arith)
        requires
            g == 2 * h - val(x),
    ;
    lemma_far_product(g, u as int);
    let (f, s) = (far(g), far(val(x)));
    assert(0x100_0000 * (f * u) == (0x100_0000 * f) * u) by (nonlinear_arith);
    let b = s + 0x100_0000;
    assert(b * u == s * u + 0x80_0000 * (2 * u)) by (nonlinear_arith)
        requires
            b == s + 0x100_0000,
    ;
    if 0x100_0000 * f > b {
        lemma_mul_strict_inequality(b as int, (0x100_0000 * f) as int, u as int);
    }
}

proof fn lemma_halfway(a: Binary32, b: Binary32)
    requires
        a.finite(),
        b.finite(),
    ensures
        is_halfway(halfway(a, b), a, b),
{
    let sum = a.plus(b);
    lemma_val(a);
    lemma_val(b);
    if sum.finite() {
        lemma_half(sum);
        lemma_sum_error(a, b);
    } else {
        lemma_half(a);
        lemma_half(b);
        let (x, y) = (a.over(two()), b.over(two()));
        a.halves_add_up(b);
        lemma_sum_error(x, y);
    }
}

/// A finite sum is off by one part in 2^24.
pub proof fn lemma_sum_error(a: Binary32, b: Binary32)
    requires
        a.finite(),
        b.finite(),
        a.plus(b).finite(),
    ensures
        0x100_0000 * far(val(a.plus(b)) - (val(a) + val(b))) <= far(val(a) + val(b)),
{
    let f = Format::Single;
    reveal(Binary32::finite);
    reveal(Binary32::plus);
    lemma_sizes(f);
    lemma_units_zero(f);
    lemma_round_zero(f, 1);
    let (p, q) = (a.bits as nat, b.bits as nat);
    sums_round_once(f, p, q);
    let z = f.value(p) + f.value(q);
    let n = far(z);
    lemma_round_limit(f, n, 1);
    lemma_pack(f, true, f.round(n, 1));
    lemma_pack(f, false, f.round(n, 1));
    lemma_pack(f, true, 0);
    lemma_pack(f, false, 0);
    lemma_round_error(f, n, 1);
    let u = f.units(f.round(n, 1));
    assert(u * 1 == u);
    assert(grain(f) == 0x100_0000);
}

/// Group `g` of `values` in groups of `size`, the last of which takes what is
/// left.
pub open spec fn group(values: Seq<Binary32>, size: int, g: int) -> Seq<Binary32> {
    let to = (g + 1) * size;
    values.subrange(
        g * size,
        if to < values.len() {
            to
        } else {
            values.len() as int
        },
    )
}

proof fn lemma_groups(values: Seq<Binary32>, size: nat)
    requires
        can_be_added(values),
        size > 0,
    ensures
        group_means(values, size).len() == (values.len() + size - 1) / (size as int),
        forall|g: int|
            0 <= g < group_means(values, size).len() ==> is_mean(
                #[trigger] group_means(values, size)[g],
                group(values, size as int, g),
            ),
    decreases values.len(),
{
    let n = values.len();
    let s = size as int;
    let means = group_means(values, size);
    if n <= size {
        means_are_sums_over_counts(values);
        lemma_fundamental_div_mod_converse(n + s - 1, s, 1, n - 1);
        assert forall|g: int| 0 <= g < means.len() implies is_mean(
            #[trigger] means[g],
            group(values, s, g),
        ) by {
            assert(g == 0);
            assert(0 * s == 0 && 1 * s == s);
            assert(group(values, s, 0) =~= values);
        }
    } else {
        let (first, rest) = (values.take(s), values.skip(s));
        assert(first =~= values.subrange(0, s));
        assert(rest =~= values.subrange(s, n as int));
        lemma_weight_part(values, 0, s);
        lemma_weight_part(values, s, n as int);
        assert forall|i: int| 0 <= i < first.len() implies (#[trigger] first[i]).finite() by {
            assert(values[i].finite());
        }
        assert forall|i: int| 0 <= i < rest.len() implies (#[trigger] rest[i]).finite() by {
            assert(values[i + s].finite());
        }
        means_are_sums_over_counts(first);
        lemma_groups(rest, size);
        let others = group_means(rest, size);
        assert((n + s - 1) / s == (rest.len() + s - 1) / s + 1) by {
            lemma_div_plus_one(rest.len() + s - 1, s);
        }
        assert forall|g: int| 0 <= g < means.len() implies is_mean(
            #[trigger] means[g],
            group(values, s, g),
        ) by {
            if g == 0 {
                assert(0 * s == 0 && 1 * s == s);
                assert(group(values, s, 0) =~= first);
            } else {
                assert(means[g] == others[g - 1]);
                assert((g - 1) * s + s == g * s) by (nonlinear_arith);
                assert(g * s + s == (g + 1) * s) by (nonlinear_arith);
                assert((g - 1 + 1) * s == g * s);
                let m = others.len() as int;
                lemma_fundamental_div_mod(rest.len() + s - 1, s);
                lemma_mod_bound(rest.len() + s - 1, s);
                assert((g - 1) * s <= (m - 1) * s) by (nonlinear_arith)
                    requires
                        g - 1 <= m - 1,
                        s > 0,
                ;
                assert((m - 1) * s == s * m - s) by (nonlinear_arith);
                assert((g - 1) * s >= 0) by (nonlinear_arith)
                    requires
                        g >= 1,
                        s > 0,
                ;
                assert(group(values, s, g) =~= group(rest, s, g - 1));
            }
        }
    }
}

proof fn lemma_div_plus_one(x: int, s: int)
    requires
        s > 0,
    ensures
        (x + s) / s == x / s + 1,
{
    lemma_fundamental_div_mod(x, s);
    lemma_mod_bound(x, s);
    let q = x / s;
    assert((q + 1) * s == s * q + s) by (nonlinear_arith);
    lemma_fundamental_div_mod_converse(x + s, s, q + 1, x % s);
}

/// The median of means is the median of the means of the groups.
pub proof fn medians_of_means_are_medians_of_means(
    statistic: MedianOfMeansStatistic,
    values: Seq<Binary32>,
)
    requires
        can_be_added(values),
        values.len() <= usize::MAX,
        statistic.group_size > 0,
    ensures
        exists|means: Seq<Binary32>|
            {
                let size = statistic.group_size as int;
                &&& means.len() == (values.len() + size - 1) / size
                &&& forall|g: int|
                    0 <= g < means.len() ==> is_mean(#[trigger] means[g], group(values, size, g))
                &&& #[trigger] is_median(statistic.combines(values), means)
            },
{
    let size = statistic.group_size as nat;
    lemma_groups(values, size);
    lemma_group_means(values, size);
    let means = group_means(values, size);
    lemma_median(means);
    assert(is_median(statistic.combines(values), means));
}

/// As many values are trimmed from each end as updates are assumed hostile, or
/// as leave one or two of them.
pub proof fn as_many_are_trimmed_as_are_assumed_hostile(fraction: Binary32, n: nat)
    requires
        n > 0,
    ensures
        2 * trim_count(fraction, n) < n,
        trim_count(fraction, n) <= assumed_byzantine(fraction, n),
        trim_count(fraction, n) == assumed_byzantine(fraction, n) || n - 2 * trim_count(
            fraction,
            n,
        ) <= 2,
{
}

} // verus!
