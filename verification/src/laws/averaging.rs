//! What federated averaging promises.
use vstd::prelude::*;
use crate::averaging::{is_zero, normalized, weighted_mean, weighted_rows, lemma_weighted_rows_len, SampleCountWeighting};
use crate::delta::Delta;
use crate::error::Rejection;
use crate::float::binary32::Binary32;
use crate::linear::{empty_sum32, held_all, sum32, zeros32};
use crate::weights::{accepted_batches_are_fit, all_finite, is_matrix, plus_weighted, validated};

verus! {

/// Whether two vectors hold the same finite numbers. A zero may change its
/// sign.
pub open spec fn same_numbers(a: Seq<Binary32>, b: Seq<Binary32>) -> bool {
    &&& a.len() == b.len()
    &&& forall|j: int|
        0 <= j < a.len() ==> (#[trigger] a[j]).finite() && b[j].finite() && a[j].rank()
            == b[j].rank()
}

/// The sample counts of a batch, as numbers.
pub open spec fn counts(batch: Seq<Delta>) -> Seq<Binary32> {
    Seq::new(batch.len(), |i: int| Binary32::whole(batch[i].num_samples as nat))
}

/// What each update of a batch weighs in its mean.
pub open spec fn shares(batch: Seq<Delta>) -> Seq<Binary32> {
    normalized(counts(batch), sum32(counts(batch)))
}

pub proof fn lemma_empty_sum()
    ensures
        empty_sum32().finite(),
        empty_sum32().rank() == 0,
{
    assert(Binary32::nothing().negated() == empty_sum32()) by {
        reveal(Binary32::negated);
        assert(0nat % 0x8000_0000nat == 0);
    }
    empty_sum32().zeros();
}

/// Sample counts that are each possible add up to a finite number, not below
/// any of them.
pub proof fn lemma_counts_add_up(batch: Seq<Delta>, k: nat)
    requires
        k <= batch.len(),
        forall|i: int|
            0 <= i < batch.len() ==> (#[trigger] batch[i]).num_samples <= 0x100_0000_0000,
    ensures
        sum32(counts(batch).take(k as int)).finite(),
        0 <= sum32(counts(batch).take(k as int)).rank() <= 0x6000_0000,
        forall|i: int|
            0 <= i < k ==> (#[trigger] counts(batch)[i]).finite() && 0 <= counts(batch)[i].rank()
                <= sum32(counts(batch).take(k as int)).rank(),
    decreases k,
{
    let c = counts(batch);
    if k == 0 {
        lemma_empty_sum();
    } else {
        let h = (k - 1) as nat;
        lemma_counts_add_up(batch, h);
        let before = sum32(c.take(h as int));
        assert(c.take(k as int).drop_last() =~= c.take(h as int));
        assert(c.take(k as int).last() == c[h as int]);
        assert(batch[h as int].num_samples <= 0x100_0000_0000);
        before.counts_do_not_overflow(batch[h as int].num_samples as nat);
        before.plus_grows(c[h as int]);
        before.plus_commutes(c[h as int]);
        c[h as int].plus_grows(before);
    }
}

/// Where the counts do not add up to zero, every share is finite and at most
/// one.
proof fn lemma_shares(batch: Seq<Delta>)
    requires
        forall|i: int|
            0 <= i < batch.len() ==> (#[trigger] batch[i]).num_samples <= 0x100_0000_0000,
        !is_zero(sum32(counts(batch))),
    ensures
        forall|i: int|
            0 <= i < batch.len() ==> (#[trigger] shares(batch)[i]).finite() && shares(
                batch,
            )[i].absolute().rank() <= Binary32::unit().rank(),
{
    let c = counts(batch);
    let total = sum32(c);
    lemma_counts_add_up(batch, batch.len());
    assert(c.take(batch.len() as int) =~= c);
    lemma_number(total);
    Binary32::nothing().zeros();
    lemma_number(Binary32::nothing());
    assert forall|i: int| 0 <= i < batch.len() implies (#[trigger] shares(batch)[i]).finite()
        && shares(batch)[i].absolute().rank() <= Binary32::unit().rank() by {
        assert(c[i].finite());
        c[i].ratio_at_most_one(total);
    }
}

pub proof fn lemma_number(x: Binary32)
    requires
        x.finite(),
    ensures
        !x.nan(),
{
    reveal(Binary32::finite);
    reveal(Binary32::nan);
}

/// The mean of a single update is that update.
pub proof fn a_lone_update_is_its_own_mean(update: Delta)
    requires
        validated(seq![update]) is Ok,
        update.num_samples > 0,
    ensures
        weighted_mean(SampleCountWeighting, seq![update]) is Ok,
        same_numbers(
            weighted_mean(SampleCountWeighting, seq![update])->Ok_0,
            validated(seq![update])->Ok_0[0],
        ),
{
    reveal(weighted_mean);
    let batch = seq![update];
    let m = validated(batch)->Ok_0;
    accepted_batches_are_fit(batch);
    let raw = Seq::new(
        batch.len(),
        |i: int|
            crate::averaging::AveragingWeighting::weight_of(&SampleCountWeighting, batch[i], batch),
    );
    assert(raw =~= counts(batch));
    let count = Binary32::whole(update.num_samples as nat);
    Binary32::words_are_finite(update.num_samples as nat);
    let total = sum32(raw);
    assert(raw.drop_last() =~= Seq::empty());
    lemma_empty_sum();
    count.zero_adds_nothing(empty_sum32());
    assert(sum32(Seq::<Binary32>::empty()) == empty_sum32());
    assert(total == empty_sum32().plus(count));
    total.ranks_tell_apart(count);
    lemma_number(total);
    Binary32::nothing().zeros();
    lemma_number(Binary32::nothing());
    count.itself_over_itself();
    let weights = normalized(raw, total);
    assert(weights[0] == Binary32::unit());
    let dim = m[0].len();
    assert(weighted_rows(m, weights, dim, 0) == zeros32(dim));
    let r = weighted_rows(m, weights, dim, 1);
    assert(r == held_all(plus_weighted(zeros32(dim), m[0], weights[0])));
    assert forall|j: int| 0 <= j < r.len() implies (#[trigger] r[j]).finite() && m[0][j].finite()
        && r[j].rank() == m[0][j].rank() by {
        assert(all_finite(m[0]));
        m[0][j].one_scales_nothing();
        m[0][j].zero_adds_nothing(Binary32::nothing());
    }
}

/// A single update without samples has no mean.
pub proof fn a_lone_update_without_samples_is_refused(update: Delta)
    requires
        validated(seq![update]) is Ok,
        update.num_samples == 0,
    ensures
        weighted_mean(SampleCountWeighting, seq![update]) == Err::<Seq<Binary32>, Rejection>(
            Rejection::ZeroWeightSum,
        ),
{
    reveal(weighted_mean);
    let batch = seq![update];
    let raw = Seq::new(
        batch.len(),
        |i: int|
            crate::averaging::AveragingWeighting::weight_of(&SampleCountWeighting, batch[i], batch),
    );
    assert(raw =~= counts(batch));
    let zero = Binary32::whole(0);
    assert(zero == Binary32::nothing()) by {
        reveal(Binary32::whole);
        crate::float::ieee::lemma_round_zero(crate::float::format::Format::Single, 1);
        assert(0 * vstd::arithmetic::power2::pow2(149) == 0);
    }
    zero.zeros();
    lemma_empty_sum();
    assert(raw.drop_last() =~= Seq::empty());
    assert(sum32(Seq::<Binary32>::empty()) == empty_sum32());
    assert(sum32(raw) == empty_sum32().plus(zero));
    empty_sum32().zero_adds_nothing(zero);
    lemma_number(sum32(raw));
    lemma_number(zero);
}

/// Whether a weight is a number between minus one and one.
pub open spec fn is_share(x: Binary32) -> bool {
    x.finite() && x.absolute().rank() <= Binary32::unit().rank()
}

/// Finite rows, each times a share, add up to finite numbers.
pub proof fn lemma_shared_rows(
    m: Seq<Seq<Binary32>>,
    weights: Seq<Binary32>,
    dim: nat,
    k: nat,
)
    requires
        k <= m.len(),
        weights.len() == m.len(),
        is_matrix(m, dim),
        forall|i: int| 0 <= i < m.len() ==> all_finite(#[trigger] m[i]),
        forall|i: int| 0 <= i < m.len() ==> is_share(#[trigger] weights[i]),
    ensures
        weighted_rows(m, weights, dim, k).len() == dim,
        all_finite(weighted_rows(m, weights, dim, k)),
    decreases k,
{
    lemma_weighted_rows_len(m, weights, dim, k);
    if k == 0 {
        Binary32::nothing().zeros();
    } else {
        let h = (k - 1) as nat;
        lemma_shared_rows(m, weights, dim, h);
        let before = weighted_rows(m, weights, dim, h);
        let after = weighted_rows(m, weights, dim, k);
        assert forall|j: int| 0 <= j < after.len() implies (#[trigger] after[j]).finite() by {
            assert(is_share(weights[h as int]));
            assert(all_finite(m[h as int]));
            assert(m[h as int].len() == dim);
            let (x, w) = (m[h as int][j], weights[h as int]);
            assert(before[j].finite());
            lemma_number(before[j]);
            x.small_factor_shrinks(w);
            x.times_commutes(w);
            before[j].running_sums_are_numbers(x.times(w));
            before[j].plus(x.times(w)).held_is_finite();
        }
    }
}

/// Federated averaging of finite updates gives finite numbers.
pub proof fn means_are_finite(batch: Seq<Delta>)
    requires
        weighted_mean(SampleCountWeighting, batch) is Ok,
    ensures
        all_finite(weighted_mean(SampleCountWeighting, batch)->Ok_0),
{
    reveal(weighted_mean);
    accepted_batches_are_fit(batch);
    let raw = Seq::new(
        batch.len(),
        |i: int|
            crate::averaging::AveragingWeighting::weight_of(&SampleCountWeighting, batch[i], batch),
    );
    assert(raw =~= counts(batch));
    lemma_shares(batch);
    let m = validated(batch)->Ok_0;
    assert forall|i: int| 0 <= i < m.len() implies is_share(#[trigger] shares(batch)[i]) by {
        assert(shares(batch)[i].finite());
    }
    lemma_shared_rows(m, shares(batch), m[0].len(), m.len());
}

} // verus!
