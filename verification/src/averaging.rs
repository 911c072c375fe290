//! The averaging family: one weighted mean, and what each member varies.
use vstd::prelude::*;
use crate::aggregator::{outcome, Aggregator};
use crate::delta::{batch_of, ClientDelta, Delta};
use crate::error::{AggregatorError, Rejection};
use crate::float::binary32::Binary32;
use crate::linear::{filled32, held_all, hold_all, sum32, total32, zeros32};
use crate::weights::{accepted_batches_are_fit, accumulate_weighted, decode_and_validate, is_matrix, plus_weighted, rows, validated};

verus! {

/// How much one update counts relative to the rest of its batch.
pub trait AveragingWeighting: Sized {
    /// The relative weight of `update` in `batch`.
    spec fn weight_of(&self, update: Delta, batch: Seq<Delta>) -> Binary32;

    /// The relative weight of `update` in `batch`; it need not be normalized.
    fn weight_for(&self, update: &ClientDelta, batch: &[ClientDelta]) -> (w: Binary32)
        ensures
            w == self.weight_of(update@, batch_of(batch@)),
    ;
}

/// The first `k` rows of `m`, each times its weight, added up in order.
///
/// Every running sum is held among the finite numbers: a mean of finite
/// numbers lies among them, so that only rounding can lead past the largest.
pub open spec fn weighted_rows(
    m: Seq<Seq<Binary32>>,
    weights: Seq<Binary32>,
    dim: nat,
    k: nat,
) -> Seq<Binary32>
    decreases k,
{
    if k == 0 {
        zeros32(dim)
    } else {
        held_all(
            plus_weighted(
                weighted_rows(m, weights, dim, (k - 1) as nat),
                m[k - 1],
                weights[k - 1],
            ),
        )
    }
}

pub proof fn lemma_weighted_rows_len(
    m: Seq<Seq<Binary32>>,
    weights: Seq<Binary32>,
    dim: nat,
    k: nat,
)
    ensures
        weighted_rows(m, weights, dim, k).len() == dim,
    decreases k,
{
    if k > 0 {
        lemma_weighted_rows_len(m, weights, dim, (k - 1) as nat);
    }
}

/// Adds up the rows of `m`, each times its weight, in order, and holds every
/// running sum among the finite numbers.
pub fn add_weighted_rows(m: &Vec<Vec<Binary32>>, weights: &Vec<Binary32>, dim: usize) -> (r: Vec<
    Binary32,
>)
    requires
        weights.len() == m.len(),
        is_matrix(rows(m@), dim as nat),
    ensures
        r@ == weighted_rows(rows(m@), weights@, dim as nat, m.len() as nat),
        r.len() == dim,
{
    let ghost mm = rows(m@);
    let mut acc: Vec<Binary32> = filled32(dim, Binary32::zero());
    proof {
        assert(acc@ =~= zeros32(dim as nat));
    }
    let mut k: usize = 0;
    while k < m.len()
        invariant
            k <= m.len(),
            weights.len() == m.len(),
            mm == rows(m@),
            is_matrix(mm, dim as nat),
            acc.len() == dim,
            acc@ == weighted_rows(mm, weights@, dim as nat, k as nat),
        decreases m.len() - k,
    {
        proof {
            assert(mm[k as int] == m[k as int]@);
        }
        accumulate_weighted(&mut acc, &m[k], weights[k]);
        hold_all(&mut acc);
        k = k + 1;
    }
    acc
}

/// Each of `raw` over `total`.
pub open spec fn normalized(raw: Seq<Binary32>, total: Binary32) -> Seq<Binary32> {
    Seq::new(raw.len(), |i: int| raw[i].over(total))
}

/// Divides each of `raw` by `total`.
pub fn normalize_weights(raw: &Vec<Binary32>, total: Binary32) -> (r: Vec<Binary32>)
    ensures
        r@ == normalized(raw@, total),
{
    let mut out: Vec<Binary32> = Vec::with_capacity(raw.len());
    let mut i: usize = 0;
    while i < raw.len()
        invariant
            i <= raw.len(),
            out.len() == i,
            forall|k: int| 0 <= k < i ==> #[trigger] out[k] == raw[k].over(total),
        decreases raw.len() - i,
    {
        out.push(raw[i].div(total));
        i = i + 1;
    }
    proof {
        assert(out@ =~= normalized(raw@, total));
    }
    out
}

/// Whether `x` is a zero of either sign.
pub open spec fn is_zero(x: Binary32) -> bool {
    x.at_most(Binary32::nothing()) && Binary32::nothing().at_most(x)
}

/// The weighted mean of a batch, each update weighing what `weighting` says.
#[verifier::opaque]
pub open spec fn weighted_mean<W: AveragingWeighting>(weighting: W, batch: Seq<Delta>) -> Result<
    Seq<Binary32>,
    Rejection,
> {
    if batch.len() == 0 {
        Err(Rejection::EmptyBatch)
    } else {
        match validated(batch) {
            Err(e) => Err(e),
            Ok(m) => {
                let raw = Seq::new(batch.len(), |i: int| weighting.weight_of(batch[i], batch));
                let total = sum32(raw);
                if is_zero(total) {
                    Err(Rejection::ZeroWeightSum)
                } else {
                    Ok(weighted_rows(m, normalized(raw, total), m[0].len(), m.len()))
                }
            },
        }
    }
}

/// Decodes each update, asks the weighting how much it counts, normalizes and
/// accumulates.
pub struct WeightedAverageAggregator<W: AveragingWeighting> {
    pub weighting: W,
}

impl<W: AveragingWeighting> WeightedAverageAggregator<W> {
    /// The weighted mean under `weighting`.
    pub fn new(weighting: W) -> (r: Self)
        ensures
            r.weighting == weighting,
    {
        WeightedAverageAggregator { weighting }
    }

    /// The weighted mean of a batch; it changes nothing.
    pub fn average(&self, updates: &[ClientDelta]) -> (r: Result<Vec<Binary32>, AggregatorError>)
        ensures
            outcome(r) == weighted_mean(self.weighting, batch_of(updates@)),
    {
        proof {
            reveal(weighted_mean);
        }
        let ghost batch = batch_of(updates@);
        if updates.len() == 0 {
            return Err(AggregatorError::EmptyBatch);
        }
        let m: Vec<Vec<Binary32>> = match decode_and_validate(updates) {
            Ok(m) => m,
            Err(e) => {
                return Err(e);
            },
        };
        proof {
            accepted_batches_are_fit(batch);
            assert(rows(m@)[0] == m[0]@);
        }
        let dim: usize = m[0].len();
        let mut raw: Vec<Binary32> = Vec::with_capacity(updates.len());
        let mut i: usize = 0;
        while i < updates.len()
            invariant
                i <= updates.len(),
                batch == batch_of(updates@),
                raw.len() == i,
                forall|k: int|
                    0 <= k < i ==> #[trigger] raw[k] == self.weighting.weight_of(batch[k], batch),
            decreases updates.len() - i,
        {
            raw.push(self.weighting.weight_for(&updates[i], updates));
            i = i + 1;
        }
        proof {
            assert(raw@ =~= Seq::new(
                batch.len(),
                |k: int| self.weighting.weight_of(batch[k], batch),
            ));
        }
        let total: Binary32 = total32(raw.as_slice());
        if total.eq_value(Binary32::zero()) {
            return Err(AggregatorError::ZeroWeightSum);
        }
        let shares: Vec<Binary32> = normalize_weights(&raw, total);
        Ok(add_weighted_rows(&m, &shares, dim))
    }
}

impl<W: AveragingWeighting> Aggregator for WeightedAverageAggregator<W> {
    type State = W;

    open spec fn state(&self) -> W {
        self.weighting
    }

    open spec fn ready(s: W) -> bool {
        true
    }

    open spec fn step(s: W, batch: Seq<Delta>) -> (Result<Seq<Binary32>, Rejection>, W) {
        (weighted_mean(s, batch), s)
    }

    proof fn keeps_dimension(s: W, batch: Seq<Delta>) {
        reveal(weighted_mean);
        accepted_batches_are_fit(batch);
        let m = validated(batch)->Ok_0;
        let raw = Seq::new(batch.len(), |i: int| s.weight_of(batch[i], batch));
        lemma_weighted_rows_len(m, normalized(raw, sum32(raw)), m[0].len(), m.len());
    }

    fn aggregate(&mut self, updates: &[ClientDelta]) -> (r: Result<Vec<Binary32>, AggregatorError>) {
        self.average(updates)
    }
}

/// The weighting of federated averaging: each update counts by its samples.
#[derive(Debug, Clone, Copy)]
pub struct SampleCountWeighting;

impl AveragingWeighting for SampleCountWeighting {
    open spec fn weight_of(&self, update: Delta, batch: Seq<Delta>) -> Binary32 {
        Binary32::whole(update.num_samples as nat)
    }

    fn weight_for(&self, update: &ClientDelta, batch: &[ClientDelta]) -> (w: Binary32) {
        Binary32::from_u64(update.num_samples)
    }
}

/// Federated averaging: the mean of the updates, weighted by sample count.
pub type FedAvg = WeightedAverageAggregator<SampleCountWeighting>;

impl Default for WeightedAverageAggregator<SampleCountWeighting> {
    fn default() -> (r: Self)
        ensures
            r.weighting == SampleCountWeighting,
    {
        WeightedAverageAggregator { weighting: SampleCountWeighting }
    }
}

} // verus!
