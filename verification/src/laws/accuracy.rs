//! What sums, means and distances are, but for roundings.
use vstd::prelude::*;
use vstd::arithmetic::div_mod::lemma_small_mod;
use vstd::arithmetic::mul::*;
use vstd::arithmetic::power2::*;
use crate::averaging::{lemma_weighted_rows_len, normalized, weighted_mean, weighted_rows, AveragingWeighting, SampleCountWeighting};
use crate::delta::Delta;
use crate::float::binary32::Binary32;
use crate::float::drift::{ceiling, drift, far, lemma_far_product, lemma_minus_drift, lemma_running_products, lemma_sum_drift, lemma_times_drift, lemma_total_within, lemma_val, pairs, total, unity, val, vals, weight};
use crate::float::format::Format;
use crate::float::ieee::lemma_round_zero;
use crate::float::laws::{lemma_one, lemma_sizes};
use crate::float::slip::{gap32, lemma_minus_slip32, lemma_nearly_at_most, lemma_nearly_cancelled, lemma_nearly_chain, lemma_nearly_more, lemma_nearly_product, lemma_nearly_scaled, lemma_nearly_sum, lemma_over_slip32, lemma_plus_slip32, lemma_product_bounds32, lemma_quotient_bounds32, lemma_root_bounds32, lemma_sizes32, lemma_square_root_slip32, lemma_times_slip32, lemma_whole_slip32, nearly, size32};
use crate::laws::averaging::{counts, lemma_empty_sum, lemma_number};
use crate::laws::finite::{is_length, lemma_lengths_add_up};
use crate::laws::length::{lemma_large_product, square};
use crate::laws::nearest::lemma_terms_within;
use crate::laws::steps::agree;
use crate::linear::{distance32, empty_sum32, squared_differences, sum32};
use crate::robust::coordinate::column;
use crate::robust::divide::even_direction;
use crate::robust::faba::{equal_share, even_mean};
use crate::weights::{accepted_batches_are_fit, all_finite, is_matrix, validated};

verus! {

/// A column, each entry times its weight.
pub open spec fn scaled(m: Seq<Seq<Binary32>>, shares: Seq<Binary32>, c: int) -> Seq<Binary32> {
    Seq::new(m.len(), |i: int| column(m, c)[i].times(shares[i]))
}

/// The first `k` products of a column with its weights, added up from zero on.
pub open spec fn run(p: Seq<Binary32>, k: nat) -> Binary32
    decreases k,
{
    if k == 0 {
        Binary32::nothing()
    } else {
        run(p, (k - 1) as nat).plus(p[k - 1])
    }
}

/// Whether a coordinate of the result is the column, each entry times its
/// share, added up, but for the drift.
pub open spec fn is_combination(out: Binary32, entries: Seq<Binary32>, shares: Seq<Binary32>) -> bool {
    &&& out.finite()
    &&& 0x100_0000 * far(val(out) * unity() - total(pairs(entries, shares))) <= drift(
        entries.len(),
        weight(pairs(entries, shares)),
    )
}

/// Rows added up by weights are what they should be, coordinate by coordinate.
pub proof fn lemma_rows_drift(
    m: Seq<Seq<Binary32>>,
    shares: Seq<Binary32>,
    dim: nat,
    c: int,
)
    requires
        is_matrix(m, dim),
        shares.len() == m.len(),
        m.len() <= 0x10_0000,
        0 <= c < dim,
        forall|i: int| 0 <= i < m.len() ==> all_finite(#[trigger] m[i]),
        forall|i: int| 0 <= i < m.len() ==> (#[trigger] shares[i]).finite(),
        weight(pairs(column(m, c), shares)) <= pow2(400),
    ensures
        is_combination(weighted_rows(m, shares, dim, m.len())[c], column(m, c), shares),
{
    let a = column(m, c);
    let p = scaled(m, shares, c);
    let acc = Seq::new(m.len() + 1, |k: int| run(p, k as nat));
    Binary32::nothing().zeros();
    lemma_val(Binary32::nothing());
    lemma_sizes32(Binary32::nothing(), Binary32::nothing());
    assert forall|i: int| 0 <= i < a.len() implies (#[trigger] a[i]).finite() && shares[i].finite()
        && p[i] == a[i].times(shares[i]) by {
        assert(all_finite(m[i]));
        assert(m[i].len() == dim);
        assert(m[i][c].finite());
        assert(shares[i].finite());
    }
    assert forall|k: int| 0 <= k < p.len() implies #[trigger] acc[k + 1] == acc[k].plus(p[k]) by {}
    lemma_running_products(a, shares, p, acc);
    assert forall|j: nat| j <= m.len() implies (#[trigger] run(p, j)).finite() by {
        assert(acc[j as int].finite());
    }
    lemma_rows_run(m, shares, dim, c, m.len());
}

proof fn lemma_rows_run(
    m: Seq<Seq<Binary32>>,
    shares: Seq<Binary32>,
    dim: nat,
    c: int,
    k: nat,
)
    requires
        is_matrix(m, dim),
        shares.len() == m.len(),
        0 <= c < dim,
        k <= m.len(),
        forall|j: nat|
            j <= m.len() ==> (#[trigger] run(scaled(m, shares, c), j)).finite(),
    ensures
        weighted_rows(m, shares, dim, k)[c] == run(scaled(m, shares, c), k),
    decreases k,
{
    let p = scaled(m, shares, c);
    lemma_weighted_rows_len(m, shares, dim, k);
    if k > 0 {
        let h = (k - 1) as nat;
        lemma_rows_run(m, shares, dim, c, h);
        lemma_weighted_rows_len(m, shares, dim, h);
        assert(m[h as int].len() == dim);
        assert(run(p, k).finite());
        run(p, k).finite_is_a_number();
    }
}

/// The sizes of numbers, added up exactly.
pub open spec fn sizes_total(s: Seq<Binary32>) -> nat
    decreases s.len(),
{
    if s.len() == 0 {
        0
    } else {
        sizes_total(s.drop_last()) + size32(s.last())
    }
}

/// A finite sum of lengths is what it should be.
pub proof fn lemma_sum_slip32(s: Seq<Binary32>)
    requires
        forall|i: int| 0 <= i < s.len() ==> (#[trigger] s[i]).finite() && 0 <= s[i].rank(),
        sum32(s).finite(),
    ensures
        0 <= sum32(s).rank(),
        nearly(Format::Single, size32(sum32(s)), sizes_total(s), s.len()),
        nearly(Format::Single, sizes_total(s), size32(sum32(s)), 2 * s.len()),
    decreases s.len(),
{
    let f = Format::Single;
    if s.len() == 0 {
        lemma_empty_sum();
        lemma_sizes32(empty_sum32(), empty_sum32());
        lemma_nearly_at_most(f, 0, 0, 0);
    } else {
        let rest = s.drop_last();
        let n = rest.len();
        let (a, x) = (sum32(rest), s.last());
        assert(s[s.len() - 1].finite());
        if !a.finite() {
            a.overflow_stays(x);
        }
        assert forall|i: int| 0 <= i < rest.len() implies (#[trigger] rest[i]).finite() && 0
            <= rest[i].rank() by {
            assert(s[i].finite());
        }
        lemma_sum_slip32(rest);
        a.finite_is_a_number();
        x.finite_is_a_number();
        a.lengths_add_up(x);
        lemma_plus_slip32(a, x);
        let (p, q, t) = (size32(a), size32(x), sizes_total(rest));
        lemma_nearly_at_most(f, q, q, n);
        lemma_nearly_sum(f, p, t, q, q, n);
        lemma_nearly_chain(f, size32(sum32(s)), p + q, t + q, 1, n);
        lemma_nearly_at_most(f, q, q, 2 * n);
        lemma_nearly_sum(f, t, p, q, q, 2 * n);
        lemma_nearly_chain(f, t + q, p + q, size32(sum32(s)), 2 * n, 2);
        assert(2 * s.len() == 2 * n + 2);
    }
}

proof fn lemma_sizes_weigh(s: Seq<Binary32>)
    ensures
        weight(vals(s)) == sizes_total(s),
    decreases s.len(),
{
    if s.len() > 0 {
        lemma_sizes_weigh(s.drop_last());
        assert(vals(s).drop_last() =~= vals(s.drop_last()));
        lemma_val(s.last());
    }
}

/// Sizes that are each at most a power of two come to at most so many times
/// it.
pub proof fn lemma_sizes_bounded(s: Seq<Binary32>, e: nat)
    requires
        forall|i: int| 0 <= i < s.len() ==> size32(#[trigger] s[i]) <= pow2(e),
    ensures
        sizes_total(s) <= s.len() * pow2(e),
    decreases s.len(),
{
    if s.len() > 0 {
        let rest = s.drop_last();
        assert forall|i: int| 0 <= i < rest.len() implies size32(#[trigger] rest[i]) <= pow2(e) by {
            assert(size32(s[i]) <= pow2(e));
        }
        lemma_sizes_bounded(rest, e);
        assert(size32(s[s.len() - 1]) <= pow2(e));
        let (n, p) = (rest.len(), pow2(e));
        assert((n + 1) * p == n * p + p) by (nonlinear_arith);
    } else {
        assert(0 * pow2(e) == 0);
    }
}

/// Whether raw weights can be normalized without loss: each is zero, or
/// neither so small nor so large that its share would be lost.
pub open spec fn are_weights(raw: Seq<Binary32>) -> bool {
    &&& 0 < raw.len() <= 0x10_0000
    &&& forall|i: int|
        0 <= i < raw.len() ==> (#[trigger] raw[i]).finite() && 0 <= raw[i].rank() && (size32(raw[i])
            == 0 || size32(raw[i]) >= pow2(109)) && size32(raw[i]) <= pow2(209)
    &&& exists|i: int| 0 <= i < raw.len() && size32(#[trigger] raw[i]) > 0
}

/// Normalized weights are the weights over their sum, and come to one, but for
/// roundings.
pub proof fn lemma_shares_of(raw: Seq<Binary32>)
    requires
        are_weights(raw),
    ensures
        ({
            let t = sum32(raw);
            let shares = normalized(raw, t);
            &&& t.finite() && 0 < t.rank()
            &&& size32(t) > 0
            &&& shares.len() == raw.len()
            &&& forall|i: int|
                0 <= i < raw.len() ==> (#[trigger] shares[i]).finite() && 0 <= shares[i].rank()
                    && size32(shares[i]) <= unity() && nearly(
                    Format::Single,
                    size32(shares[i]) * size32(t),
                    size32(raw[i]) * unity(),
                    1,
                ) && nearly(
                    Format::Single,
                    size32(raw[i]) * unity(),
                    size32(shares[i]) * size32(t),
                    2,
                )
            &&& agree(sizes_total(shares), unity(), 2 * raw.len() + 2)
        }),
{
    let f = Format::Single;
    let n = raw.len();
    let t = sum32(raw);
    let shares = normalized(raw, t);
    let u = unity();
    lemma_pow2_pos(149);
    lemma_sizes_weigh(raw);
    lemma_sizes_bounded(raw, 209);
    lemma2_to64();
    lemma_pow2_adds(20, 209);
    lemma_mul_inequality(n as int, pow2(20) as int, pow2(209) as int);
    lemma_pow2_strictly_increases(229, 253);
    lemma_sum_drift(raw);
    lemma_sum_slip32(raw);
    // the sum is positive and not too large
    let k = choose|k: int| 0 <= k < raw.len() && size32(#[trigger] raw[k]) > 0;
    assert forall|i: int| 0 <= i < raw.len() implies is_length(#[trigger] raw[i]) by {
        lemma_number(raw[i]);
    }
    lemma_terms_within(raw, k);
    lemma_sizes32(raw[k], t);
    lemma_sizes32(t, t);
    lemma_val(t);
    let big = pow2(230);
    assert(size32(t) <= big) by {
        let w = weight(vals(raw));
        assert((2 * n) * w <= 0x100_0000 * w) by (nonlinear_arith)
            requires
                2 * n <= 0x100_0000,
        ;
        lemma_total_within(vals(raw));
        lemma_pow2_unfold(230);
    }
    assert forall|i: int| 0 <= i < raw.len() implies (#[trigger] shares[i]).finite() && 0
        <= shares[i].rank() && size32(shares[i]) <= u && nearly(
        f,
        size32(shares[i]) * size32(t),
        size32(raw[i]) * u,
        1,
    ) && nearly(f, size32(raw[i]) * u, size32(shares[i]) * size32(t), 2) by {
        lemma_terms_within(raw, i);
        raw[i].ratio_at_most_one(t);
        raw[i].ratio_is_not_negative(t);
        shares[i].not_negative_is_absolute();
        lemma_one(f);
        lemma_sizes32(shares[i], Binary32::unit());
        vstd::arithmetic::div_mod::lemma_small_mod(0x3f80_0000, f.sign_weight());
        if size32(raw[i]) != 0 {
            lemma_pow2_adds(109, 149);
            lemma_pow2_adds(24, 230);
            lemma_pow2_strictly_increases(254, 258);
            lemma_mul_inequality(pow2(109) as int, size32(raw[i]) as int, u as int);
            lemma_mul_inequality(size32(t) as int, big as int, pow2(24) as int);
            lemma_mul_is_commutative(size32(t) as int, pow2(24) as int);
            lemma_mul_is_commutative(big as int, pow2(24) as int);
        }
        lemma_over_slip32(raw[i], t);
    }
    lemma_shares_total(raw, shares, size32(t));
    let (st, rt, tt) = (sizes_total(shares), sizes_total(raw), size32(t));
    // st t <= rt u <= t u
    lemma_nearly_scaled(f, rt, tt, u, 2 * n);
    lemma_nearly_chain(f, st * tt, rt * u, tt * u, 1, 2 * n);
    lemma_mul_is_commutative(tt as int, u as int);
    lemma_nearly_cancelled(f, st, u, tt, 2 * n + 1);
    lemma_nearly_more(f, st, u, 2 * n + 1, 2 * n + 2);
    lemma_nearly_scaled(f, tt, rt, u, n);
    lemma_nearly_chain(f, tt * u, rt * u, st * tt, n, 2);
    lemma_nearly_cancelled(f, u, st, tt, n + 2);
    lemma_nearly_more(f, u, st, n + 2, 2 * n + 2);
}

proof fn lemma_shares_total(raw: Seq<Binary32>, shares: Seq<Binary32>, t: nat)
    requires
        raw.len() == shares.len(),
        forall|i: int|
            0 <= i < raw.len() ==> nearly(
                Format::Single,
                size32(#[trigger] shares[i]) * t,
                size32(raw[i]) * unity(),
                1,
            ) && nearly(
                Format::Single,
                size32(raw[i]) * unity(),
                size32(shares[i]) * t,
                2,
            ),
    ensures
        nearly(Format::Single, sizes_total(shares) * t, sizes_total(raw) * unity(), 1),
        nearly(Format::Single, sizes_total(raw) * unity(), sizes_total(shares) * t, 2),
    decreases raw.len(),
{
    let f = Format::Single;
    let u = unity();
    if raw.len() == 0 {
        assert(0 * t == 0 && 0 * u == 0);
        lemma_nearly_at_most(f, 0, 0, 1);
        lemma_nearly_at_most(f, 0, 0, 2);
    } else {
        let (a, b) = (raw.drop_last(), shares.drop_last());
        assert forall|i: int| 0 <= i < a.len() implies nearly(
            f,
            size32(#[trigger] b[i]) * t,
            size32(a[i]) * u,
            1,
        ) && nearly(f, size32(a[i]) * u, size32(b[i]) * t, 2) by {
            assert(nearly(f, size32(shares[i]) * t, size32(raw[i]) * u, 1));
        }
        lemma_shares_total(a, b, t);
        let k = raw.len() - 1;
        assert(nearly(f, size32(shares[k]) * t, size32(raw[k]) * u, 1));
        let (x, y, p, q) = (sizes_total(a), sizes_total(b), size32(raw.last()), size32(shares.last()));
        lemma_nearly_sum(f, y * t, x * u, q * t, p * u, 1);
        lemma_nearly_sum(f, x * u, y * t, p * u, q * t, 2);
        assert((y + q) * t == y * t + q * t) by (nonlinear_arith);
        assert((x + p) * u == x * u + p * u) by (nonlinear_arith);
    }
}

/// Products of moderate entries with shares stay moderate.
pub proof fn lemma_column_weight(entries: Seq<Binary32>, shares: Seq<Binary32>)
    requires
        entries.len() == shares.len(),
        entries.len() <= 0x10_0000,
        forall|i: int| 0 <= i < entries.len() ==> size32(#[trigger] entries[i]) <= pow2(229),
        forall|i: int| 0 <= i < shares.len() ==> size32(#[trigger] shares[i]) <= unity(),
    ensures
        weight(pairs(entries, shares)) <= entries.len() * pow2(378),
        weight(pairs(entries, shares)) <= pow2(400),
    decreases entries.len(),
{
    lemma2_to64();
    let n = entries.len();
    lemma_pow2_adds(20, 378);
    lemma_pow2_strictly_increases(398, 400);
    lemma_mul_inequality(n as int, pow2(20) as int, pow2(378) as int);
    if n > 0 {
        let (a, b) = (entries.drop_last(), shares.drop_last());
        assert forall|i: int| 0 <= i < a.len() implies size32(#[trigger] a[i]) <= pow2(229) by {
            assert(size32(entries[i]) <= pow2(229));
        }
        assert forall|i: int| 0 <= i < b.len() implies size32(#[trigger] b[i]) <= unity() by {
            assert(size32(shares[i]) <= unity());
        }
        lemma_column_weight(a, b);
        assert(pairs(entries, shares).drop_last() =~= pairs(a, b));
        let (x, y) = (entries.last(), shares.last());
        assert(size32(entries[n - 1]) <= pow2(229));
        assert(size32(shares[n - 1]) <= unity());
        lemma_val(x);
        lemma_val(y);
        lemma_far_product(val(x), val(y));
        lemma_pow2_adds(229, 149);
        lemma_mul_upper_bound(
            size32(x) as int,
            pow2(229) as int,
            size32(y) as int,
            unity() as int,
        );
        let (k, p) = (a.len(), pow2(378));
        assert((k + 1) * p == k * p + p) by (nonlinear_arith);
    } else {
        assert(0 * pow2(378) == 0);
    }
}

/// Whether every weight of every update lies within 2^80 of zero.
pub open spec fn are_moderate(m: Seq<Seq<Binary32>>) -> bool {
    forall|i: int, c: int|
        0 <= i < m.len() && 0 <= c < m[i].len() ==> size32(#[trigger] m[i][c]) <= pow2(229)
}

/// Rows combined by shares of weights are what they should be.
pub proof fn lemma_combined(m: Seq<Seq<Binary32>>, raw: Seq<Binary32>, dim: nat, c: int)
    requires
        are_weights(raw),
        raw.len() == m.len(),
        is_matrix(m, dim),
        0 <= c < dim,
        are_moderate(m),
        forall|i: int| 0 <= i < m.len() ==> all_finite(#[trigger] m[i]),
    ensures
        is_combination(
            weighted_rows(m, normalized(raw, sum32(raw)), dim, m.len())[c],
            column(m, c),
            normalized(raw, sum32(raw)),
        ),
{
    lemma_shares_of(raw);
    let shares = normalized(raw, sum32(raw));
    let a = column(m, c);
    assert forall|i: int| 0 <= i < a.len() implies size32(#[trigger] a[i]) <= pow2(229) by {
        assert(m[i].len() == dim);
        assert(size32(m[i][c]) <= pow2(229));
    }
    lemma_column_weight(a, shares);
    lemma_rows_drift(m, shares, dim, c);
}

/// The samples of a batch, counted.
pub open spec fn samples(batch: Seq<Delta>) -> nat
    decreases batch.len(),
{
    if batch.len() == 0 {
        0
    } else {
        samples(batch.drop_last()) + batch.last().num_samples as nat
    }
}

proof fn lemma_counts_total(batch: Seq<Delta>)
    ensures
        nearly(Format::Single, sizes_total(counts(batch)), samples(batch) * unity(), 1),
        nearly(Format::Single, samples(batch) * unity(), sizes_total(counts(batch)), 2),
    decreases batch.len(),
{
    let f = Format::Single;
    let u = unity();
    if batch.len() == 0 {
        assert(0 * u == 0);
        lemma_nearly_at_most(f, 0, 0, 1);
        lemma_nearly_at_most(f, 0, 0, 2);
    } else {
        let rest = batch.drop_last();
        lemma_counts_total(rest);
        assert(counts(batch).drop_last() =~= counts(rest));
        let n = batch.last().num_samples as nat;
        lemma_one_count(n);
        let (x, y) = (samples(rest), sizes_total(counts(rest)));
        let w = size32(Binary32::whole(n));
        lemma_nearly_sum(f, y, x * u, w, n * u, 1);
        lemma_nearly_sum(f, x * u, y, n * u, w, 2);
        assert((x + n) * u == x * u + n * u) by (nonlinear_arith);
    }
}

/// A count as a number.
pub proof fn lemma_one_count(n: nat)
    requires
        n <= u64::MAX,
    ensures
        Binary32::whole(n).finite(),
        0 <= Binary32::whole(n).rank(),
        n == 0 ==> size32(Binary32::whole(n)) == 0,
        nearly(Format::Single, size32(Binary32::whole(n)), n * unity(), 1),
        nearly(Format::Single, n * unity(), size32(Binary32::whole(n)), 2),
{
    if n == 0 {
        assert(Binary32::whole(0) == Binary32::nothing()) by {
            reveal(Binary32::whole);
            lemma_round_zero(Format::Single, 1);
            assert(0 * pow2(149) == 0);
        }
        Binary32::nothing().zeros();
        lemma_sizes32(Binary32::nothing(), Binary32::nothing());
        assert(0 * unity() == 0);
        lemma_nearly_at_most(Format::Single, 0, 0, 1);
        lemma_nearly_at_most(Format::Single, 0, 0, 2);
    } else {
        lemma_whole_slip32(n);
    }
}

/// Federated averaging weighs each update by its samples: there are shares,
/// each of which is the update's samples over all samples, by which every
/// coordinate of the result is combined, but for roundings.
pub proof fn means_are_weighted_by_samples(batch: Seq<Delta>)
    requires
        batch.len() <= 0x10_0000,
        weighted_mean(SampleCountWeighting, batch) is Ok,
        are_moderate(validated(batch)->Ok_0),
        samples(batch) > 0,
    ensures
        exists|shares: Seq<Binary32>|
            {
                &&& shares.len() == batch.len()
                &&& forall|i: int|
                    0 <= i < batch.len() ==> 0 <= (#[trigger] shares[i]).rank() && agree(
                        size32(shares[i]) * samples(batch),
                        batch[i].num_samples as nat * unity(),
                        2 * batch.len() + 7,
                    )
                &&& forall|c: int|
                    0 <= c < validated(batch)->Ok_0[0].len() ==> is_combination(
                        #[trigger] weighted_mean(SampleCountWeighting, batch)->Ok_0[c],
                        column(validated(batch)->Ok_0, c),
                        shares,
                    )
            },
{
    reveal(weighted_mean);
    let f = Format::Single;
    accepted_batches_are_fit(batch);
    let m = validated(batch)->Ok_0;
    let raw = counts(batch);
    let n = batch.len();
    let u = unity();
    assert(Seq::new(batch.len(), |i: int| SampleCountWeighting.weight_of(batch[i], batch)) =~= raw);
    lemma_pow2_strictly_increases(109, 149);
    lemma_pow2_strictly_increases(189, 209);
    lemma_pow2_pos(149);
    lemma2_to64();
    lemma2_to64_rest();
    assert forall|i: int| 0 <= i < raw.len() implies (#[trigger] raw[i]).finite() && 0
        <= raw[i].rank() && (size32(raw[i]) == 0 || size32(raw[i]) >= pow2(109)) && size32(raw[i])
        <= pow2(209) by {
        let k = batch[i].num_samples as nat;
        lemma_one_count(k);
        assert(batch[i].num_samples <= 0x100_0000_0000);
        if k > 0 {
            lemma_whole_slip32(k);
            assert(k <= pow2(40));
        }
    }
    let k = lemma_somebody(batch);
    assert(size32(raw[k]) > 0) by {
        lemma_whole_slip32(batch[k].num_samples as nat);
    }
    lemma_shares_of(raw);
    lemma_sum_slip32(raw);
    lemma_counts_total(batch);
    let t = sum32(raw);
    let shares = normalized(raw, t);
    let (tt, rt, all) = (size32(t), sizes_total(raw), samples(batch));
    // the sum is the samples
    lemma_nearly_chain(f, tt, rt, all * u, n, 1);
    lemma_nearly_chain(f, all * u, rt, tt, 2, 2 * n);
    assert forall|i: int| 0 <= i < n implies 0 <= (#[trigger] shares[i]).rank() && agree(
        size32(shares[i]) * all,
        batch[i].num_samples as nat * u,
        2 * n + 7,
    ) by {
        let (s, r, c) = (size32(shares[i]), size32(raw[i]), batch[i].num_samples as nat);
        lemma_one_count(c);
        // s all u <= s t <= r u <= c u u
        lemma_nearly_scaled(f, all * u, tt, s, 2 + 2 * n);
        lemma_nearly_chain(f, s * (all * u), s * tt, r * u, 2 + 2 * n, 1);
        lemma_nearly_scaled(f, r, c * u, u, 1);
        lemma_nearly_chain(f, s * (all * u), r * u, (c * u) * u, 3 + 2 * n, 1);
        assert(s * (all * u) == (s * all) * u) by (nonlinear_arith);
        lemma_nearly_cancelled(f, s * all, c * u, u, 4 + 2 * n);
        lemma_nearly_more(f, s * all, c * u, 4 + 2 * n, 2 * n + 7);
        lemma_nearly_scaled(f, c * u, r, u, 2);
        lemma_nearly_chain(f, (c * u) * u, r * u, s * tt, 2, 2);
        lemma_nearly_scaled(f, tt, all * u, s, n + 1);
        lemma_nearly_chain(f, (c * u) * u, s * tt, s * (all * u), 4, n + 1);
        lemma_nearly_cancelled(f, c * u, s * all, u, n + 5);
        lemma_nearly_more(f, c * u, s * all, n + 5, 2 * n + 7);
    }
    let out = weighted_mean(SampleCountWeighting, batch)->Ok_0;
    assert forall|c: int| 0 <= c < m[0].len() implies is_combination(
        #[trigger] out[c],
        column(m, c),
        shares,
    ) by {
        lemma_combined(m, raw, m[0].len(), c);
    }
}

/// Some update has samples.
pub proof fn lemma_somebody(batch: Seq<Delta>) -> (k: int)
    requires
        samples(batch) > 0,
    ensures
        0 <= k < batch.len(),
        batch[k].num_samples > 0,
    decreases batch.len(),
{
    if batch.last().num_samples > 0 {
        batch.len() - 1
    } else {
        lemma_somebody(batch.drop_last())
    }
}

/// How far two vectors lie apart in each coordinate, exactly, in units.
pub open spec fn gaps(v: Seq<Binary32>, w: Seq<Binary32>) -> Seq<nat> {
    Seq::new(v.len(), |i: int| far(val(v[i]) - val(w[i])))
}

/// Whether numbers are moderate, and each two of them equal or apart by more
/// than 2^-61, so that no square of a gap is lost or overflows.
pub open spec fn are_comparable(v: Seq<Binary32>, w: Seq<Binary32>) -> bool {
    &&& v.len() == w.len() <= 0x10_0000
    &&& forall|i: int|
        0 <= i < v.len() ==> (#[trigger] v[i]).finite() && w[i].finite() && size32(v[i]) <= pow2(
            199,
        ) && size32(w[i]) <= pow2(199) && (gaps(v, w)[i] == 0 || gaps(v, w)[i] >= pow2(88))
}

proof fn lemma_squared_gap(x: Binary32, y: Binary32)
    requires
        x.finite(),
        y.finite(),
        size32(x) <= pow2(199),
        size32(y) <= pow2(199),
        far(val(x) - val(y)) == 0 || far(val(x) - val(y)) >= pow2(88),
    ensures
        ({
            let d = x.minus(y);
            let q = d.times(d);
            let g = far(val(x) - val(y));
            &&& q.finite() && 0 <= q.rank()
            &&& size32(q) <= pow2(253)
            &&& nearly(Format::Single, size32(q) * unity(), g * g, 3)
            &&& nearly(Format::Single, g * g, size32(q) * unity(), 6)
        }),
{
    let f = Format::Single;
    let d = x.minus(y);
    let q = d.times(d);
    let g = far(val(x) - val(y));
    let s = size32(d);
    lemma_val(x);
    lemma_val(y);
    lemma_pow2_unfold(200);
    lemma_pow2_unfold(201);
    lemma_pow2_strictly_increases(201, 253);
    lemma_minus_drift(x, y);
    lemma_val(d);
    lemma_minus_slip32(x, y);
    assert(gap32(x, y) == g);
    assert(s <= pow2(201));
    lemma_pow2_unfold(88);
    assert(s == 0 || s >= pow2(87));
    lemma_pow2_adds(201, 201);
    lemma_pow2_adds(253, 149);
    lemma_mul_upper_bound(s as int, pow2(201) as int, s as int, pow2(201) as int);
    assert(ceiling() * unity() >= pow2(253) * unity()) by {
        lemma_mul_inequality(pow2(253) as int, ceiling() as int, unity() as int);
    }
    lemma_times_drift(d, d);
    if s > 0 {
        lemma_large_product(s, s, 87, 87, 173);
    }
    lemma_times_slip32(d, d);
    lemma_number(d);
    lemma_number(q);
    d.square_is_not_negative();
    lemma_nearly_product(f, s, g, s, g, 1, 1);
    lemma_nearly_product(f, g, s, g, s, 2, 2);
    lemma_nearly_chain(f, size32(q) * unity(), s * s, g * g, 1, 2);
    lemma_nearly_chain(f, g * g, s * s, size32(q) * unity(), 4, 2);
    assert(size32(q) <= pow2(253)) by {
        lemma_product_bounds32(d, d, 253);
    }
}

proof fn lemma_squared_gaps(v: Seq<Binary32>, w: Seq<Binary32>)
    requires
        are_comparable(v, w),
    ensures
        nearly(
            Format::Single,
            sizes_total(squared_differences(v, w)) * unity(),
            square(gaps(v, w)),
            3,
        ),
        nearly(
            Format::Single,
            square(gaps(v, w)),
            sizes_total(squared_differences(v, w)) * unity(),
            6,
        ),
    decreases v.len(),
{
    let f = Format::Single;
    let u = unity();
    if v.len() == 0 {
        assert(0 * u == 0);
        lemma_nearly_at_most(f, 0, 0, 3);
        lemma_nearly_at_most(f, 0, 0, 6);
    } else {
        let (a, b) = (v.drop_last(), w.drop_last());
        assert(gaps(v, w).drop_last() =~= gaps(a, b));
        assert(squared_differences(v, w).drop_last() =~= squared_differences(a, b));
        assert forall|i: int| 0 <= i < a.len() implies (#[trigger] a[i]).finite() && b[i].finite()
            && size32(a[i]) <= pow2(199) && size32(b[i]) <= pow2(199) && (gaps(a, b)[i] == 0
            || gaps(a, b)[i] >= pow2(88)) by {
            assert(v[i].finite());
            assert(gaps(v, w)[i] == gaps(a, b)[i]);
        }
        lemma_squared_gaps(a, b);
        let k = v.len() - 1;
        assert(v[k].finite());
        assert(gaps(v, w)[k] == far(val(v[k]) - val(w[k])));
        lemma_squared_gap(v[k], w[k]);
        let q = size32(squared_differences(v, w)[k]);
        let g = gaps(v, w)[k];
        let (x, y) = (sizes_total(squared_differences(a, b)), square(gaps(a, b)));
        lemma_nearly_sum(f, x * u, y, q * u, g * g, 3);
        lemma_nearly_sum(f, y, x * u, g * g, q * u, 6);
        assert((x + q) * u == x * u + q * u) by (nonlinear_arith);
    }
}

/// The distance of two vectors is the Euclidean one: its square is the squares
/// of the gaps, added up, but for roundings.
pub proof fn distances_are_euclidean(v: Seq<Binary32>, w: Seq<Binary32>)
    requires
        are_comparable(v, w),
        distance32(v, w).finite(),
    ensures
        0 <= distance32(v, w).rank(),
        agree(
            size32(distance32(v, w)) * size32(distance32(v, w)),
            square(gaps(v, w)),
            2 * v.len() + 11,
        ),
{
    let f = Format::Single;
    let s = squared_differences(v, w);
    let n = v.len();
    let u = unity();
    assert forall|i: int| 0 <= i < s.len() implies (#[trigger] s[i]).finite() && 0 <= s[i].rank()
        && is_length(s[i]) by {
        assert(v[i].finite());
        assert(gaps(v, w)[i] == far(val(v[i]) - val(w[i])));
        lemma_squared_gap(v[i], w[i]);
        lemma_number(s[i]);
    }
    lemma_lengths_add_up(s);
    let t = sum32(s);
    t.root_of_a_length();
    lemma_sum_slip32(s);
    lemma_squared_gaps(v, w);
    let d = size32(t.root());
    let (a, b, g) = (size32(t), sizes_total(s), square(gaps(v, w)));
    lemma_sizes32(t, t);
    lemma_sizes32(t.root(), t);
    if t.rank() > 0 {
        lemma_square_root_slip32(t);
    } else {
        assert(0 * u == 0 && 0 * d == 0);
        lemma_nearly_at_most(f, 0, 0, 3);
        lemma_nearly_at_most(f, 0, 0, 5);
    }
    lemma_nearly_scaled(f, a, b, u, n);
    lemma_nearly_scaled(f, b, a, u, 2 * n);
    lemma_nearly_chain(f, d * d, a * u, b * u, 3, n);
    lemma_nearly_chain(f, d * d, b * u, g, n + 3, 3);
    lemma_nearly_more(f, d * d, g, n + 6, 2 * n + 11);
    lemma_nearly_chain(f, g, b * u, a * u, 6, 2 * n);
    lemma_nearly_chain(f, g, a * u, d * d, 2 * n + 6, 5);
}

/// One over a count.
pub proof fn lemma_equal_share(n: nat)
    requires
        0 < n <= 0x10_0000,
    ensures
        equal_share(n).finite(),
        0 <= equal_share(n).rank(),
        size32(equal_share(n)) <= unity(),
        agree(size32(equal_share(n)) * n, unity(), 3),
{
    let f = Format::Single;
    let (one, count) = (Binary32::unit(), Binary32::whole(n));
    let u = unity();
    lemma2_to64();
    lemma_pow2_pos(149);
    lemma_whole_slip32(n);
    lemma_unit();
    let (s, c) = (size32(equal_share(n)), size32(count));
    lemma_pow2_adds(149, 149);
    lemma_pow2_adds(24, 169);
    lemma_pow2_strictly_increases(193, 298);
    assert(n <= pow2(20));
    lemma_mul_inequality(c as int, pow2(169) as int, pow2(24) as int);
    lemma_mul_is_commutative(c as int, pow2(24) as int);
    lemma_mul_is_commutative(pow2(169) as int, pow2(24) as int);
    lemma_mul_inequality(u as int, c as int, u as int);
    lemma_mul_is_commutative(c as int, u as int);
    lemma_quotient_bounds32(one, count, 149);
    lemma_number(one);
    lemma_number(count);
    one.ratio_is_not_negative(count);
    lemma_over_slip32(one, count);
    // s n u <= s c <= u u, and back
    lemma_nearly_scaled(f, n * u, c, s, 2);
    lemma_nearly_scaled(f, c, n * u, s, 1);
    lemma_nearly_chain(f, s * (n * u), s * c, u * u, 2, 1);
    lemma_nearly_chain(f, u * u, s * c, s * (n * u), 2, 1);
    assert(s * (n * u) == (s * n) * u) by (nonlinear_arith);
    lemma_nearly_cancelled(f, s * n, u, u, 3);
    lemma_nearly_cancelled(f, u, s * n, u, 3);
}

/// The number one.
pub proof fn lemma_unit()
    ensures
        Binary32::unit().finite(),
        0 < Binary32::unit().rank(),
        size32(Binary32::unit()) == unity(),
{
    let f = Format::Single;
    Binary32::unit().unsigned_patterns();
    lemma_sizes(f);
    lemma_one(f);
    lemma_small_mod(0x3f80_0000, f.sign_weight());
}

/// The plain mean of rows weighs them all alike: by one share, as often as
/// there are rows one.
pub proof fn even_means_are_even(m: Seq<Seq<Binary32>>, dim: nat, c: int)
    requires
        0 < m.len() <= 0x10_0000,
        is_matrix(m, dim),
        0 <= c < dim,
        are_moderate(m),
        forall|i: int| 0 <= i < m.len() ==> all_finite(#[trigger] m[i]),
    ensures
        exists|share: Binary32|
            {
                &&& #[trigger] agree(size32(share) * m.len(), unity(), 3)
                &&& is_combination(
                    even_mean(m, dim)[c],
                    column(m, c),
                    Seq::new(m.len(), |i: int| share),
                )
            },
{
    let share = equal_share(m.len());
    let shares = Seq::new(m.len(), |i: int| share);
    lemma_equal_share(m.len());
    let a = column(m, c);
    assert forall|i: int| 0 <= i < a.len() implies size32(#[trigger] a[i]) <= pow2(229) by {
        assert(m[i].len() == dim);
        assert(size32(m[i][c]) <= pow2(229));
    }
    lemma_column_weight(a, shares);
    assert(shares =~= Seq::new(m.len(), |i: int| equal_share(m.len())));
    lemma_rows_drift(m, shares, dim, c);
}

/// The even direction has all coordinates alike and positive, and is of length
/// one, but for roundings.
pub proof fn the_even_direction_is_even(dim: nat, c: int)
    requires
        0 < dim <= 0x10_0000,
        0 <= c < dim,
    ensures
        even_direction(dim)[c] == even_direction(dim)[0],
        even_direction(dim)[c].finite(),
        0 <= even_direction(dim)[c].rank(),
        agree(
            (size32(even_direction(dim)[c]) * size32(even_direction(dim)[c])) * dim,
            unity() * unity(),
            9,
        ),
{
    let f = Format::Single;
    let (one, count) = (Binary32::unit(), Binary32::whole(dim));
    let root = count.root();
    let u = unity();
    lemma2_to64();
    lemma_pow2_pos(149);
    lemma_whole_slip32(dim);
    lemma_unit();
    assert(dim <= pow2(20));
    let (n, r) = (size32(count), size32(root));
    // the root lies between one and 2^10
    lemma_pow2_adds(169, 149);
    lemma_pow2_adds(159, 159);
    lemma_pow2_adds(149, 149);
    lemma_mul_inequality(n as int, pow2(169) as int, u as int);
    lemma_mul_inequality(u as int, n as int, u as int);
    lemma_root_bounds32(count, 159);
    lemma_root_bounds32(count, 149);
    lemma_square_root_slip32(count);
    lemma_sizes32(root, root);
    lemma_number(root);
    lemma_number(one);
    let x = one.over(root);
    let s = size32(x);
    lemma_pow2_adds(24, 159);
    lemma_pow2_strictly_increases(183, 298);
    lemma_mul_inequality(r as int, pow2(159) as int, pow2(24) as int);
    lemma_mul_is_commutative(r as int, pow2(24) as int);
    lemma_mul_is_commutative(pow2(159) as int, pow2(24) as int);
    lemma_mul_inequality(u as int, r as int, u as int);
    lemma_mul_is_commutative(r as int, u as int);
    lemma_quotient_bounds32(one, root, 149);
    one.ratio_is_not_negative(root);
    lemma_over_slip32(one, root);
    // s s r r ~ u u u u
    let (ss, uu) = (s * s, u * u);
    lemma_nearly_product(f, s * r, uu, s * r, uu, 1, 1);
    lemma_nearly_product(f, uu, s * r, uu, s * r, 2, 2);
    assert((s * r) * (s * r) == ss * (r * r)) by (nonlinear_arith)
        requires
            ss == s * s,
    ;
    lemma_nearly_scaled(f, n * u, r * r, ss, 5);
    lemma_nearly_scaled(f, r * r, n * u, ss, 3);
    lemma_nearly_scaled(f, dim * u, n, u, 2);
    lemma_nearly_scaled(f, n, dim * u, u, 1);
    lemma_nearly_scaled(f, (dim * u) * u, n * u, ss, 2);
    lemma_nearly_scaled(f, n * u, (dim * u) * u, ss, 1);
    lemma_nearly_chain(f, ss * ((dim * u) * u), ss * (n * u), ss * (r * r), 2, 5);
    lemma_nearly_chain(f, ss * ((dim * u) * u), ss * (r * r), uu * uu, 7, 2);
    lemma_nearly_chain(f, uu * uu, ss * (r * r), ss * (n * u), 4, 3);
    lemma_nearly_chain(f, uu * uu, ss * (n * u), ss * ((dim * u) * u), 7, 1);
    assert(ss * ((dim * u) * u) == (ss * dim) * uu) by (nonlinear_arith)
        requires
            uu == u * u,
    ;
    lemma_mul_strictly_positive(u as int, u as int);
    lemma_nearly_cancelled(f, ss * dim, uu, uu, 9);
    lemma_nearly_more(f, uu * uu, (ss * dim) * uu, 8, 9);
    lemma_nearly_cancelled(f, uu, ss * dim, uu, 9);
}

} // verus!
