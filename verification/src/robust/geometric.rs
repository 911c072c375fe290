//! The weighted geometric median, by Weiszfeld's iteration.
use vstd::prelude::*;
use crate::aggregator::Aggregator;
use crate::averaging::{add_weighted_rows, lemma_weighted_rows_len, normalize_weights, normalized, weighted_rows};
use crate::delta::{batch_of, ClientDelta, Delta};
use crate::error::{AggregatorError, Rejection};
use crate::float::binary32::Binary32;
use crate::linear::{distance32, filled32, l2_distance, sum32, total32, zeros32};
use crate::weights::{accepted_batches_are_fit, decode_and_validate, is_matrix, rows, validated};

verus! {

/// Reduces a whole batch of weighted vectors to one vector at once.
pub trait RobustVectorStatistic: Sized {
    /// The statistic of the rows of `m`, row `i` weighing `weights[i]`.
    spec fn combines(&self, weights: Seq<Binary32>, m: Seq<Seq<Binary32>>) -> Seq<Binary32>;

    /// The statistic of vectors of one length has that length.
    proof fn keeps_length(&self, weights: Seq<Binary32>, m: Seq<Seq<Binary32>>)
        requires
            m.len() > 0,
            is_matrix(m, m[0].len()),
        ensures
            self.combines(weights, m).len() == m[0].len(),
    ;

    /// The statistic of a batch that is not empty; the weights arrive as raw
    /// sample counts.
    fn combine(&self, weights: &Vec<Binary32>, updates: &Vec<Vec<Binary32>>) -> (r: Vec<Binary32>)
        requires
            updates.len() > 0,
            weights.len() == updates.len(),
            is_matrix(rows(updates@), rows(updates@)[0].len()),
        ensures
            r@ == self.combines(weights@, rows(updates@)),
    ;
}

/// The sample counts of a batch.
pub open spec fn sample_weights(batch: Seq<Delta>) -> Seq<Binary32> {
    Seq::new(batch.len(), |i: int| Binary32::whole(batch[i].num_samples as nat))
}

/// Reads the sample counts of a batch.
pub fn sample_counts(updates: &[ClientDelta]) -> (r: Vec<Binary32>)
    ensures
        r@ == sample_weights(batch_of(updates@)),
{
    let mut out: Vec<Binary32> = Vec::with_capacity(updates.len());
    let mut i: usize = 0;
    while i < updates.len()
        invariant
            i <= updates.len(),
            out.len() == i,
            forall|k: int|
                0 <= k < i ==> #[trigger] out[k] == Binary32::whole(updates[k].num_samples as nat),
        decreases updates.len() - i,
    {
        out.push(Binary32::from_u64(updates[i].num_samples));
        i = i + 1;
    }
    proof {
        assert(out@ =~= sample_weights(batch_of(updates@)));
    }
    out
}

/// A batch combined as a whole.
#[verifier::opaque]
pub open spec fn combined_vectors<S: RobustVectorStatistic>(
    statistic: S,
    batch: Seq<Delta>,
) -> Result<Seq<Binary32>, Rejection> {
    if batch.len() == 0 {
        Err(Rejection::EmptyBatch)
    } else {
        match validated(batch) {
            Err(e) => Err(e),
            Ok(m) => Ok(statistic.combines(sample_weights(batch), m)),
        }
    }
}

/// Decodes a batch, pairs each update with its sample count, and hands the
/// whole to a statistic.
pub struct VectorRobustAggregator<S: RobustVectorStatistic> {
    pub statistic: S,
}

impl<S: RobustVectorStatistic> VectorRobustAggregator<S> {
    /// Applies `statistic` to whole batches.
    pub fn new(statistic: S) -> (r: Self)
        ensures
            r.statistic == statistic,
    {
        VectorRobustAggregator { statistic }
    }
}

impl<S: RobustVectorStatistic> Aggregator for VectorRobustAggregator<S> {
    type State = S;

    open spec fn state(&self) -> S {
        self.statistic
    }

    open spec fn ready(s: S) -> bool {
        true
    }

    open spec fn step(s: S, batch: Seq<Delta>) -> (Result<Seq<Binary32>, Rejection>, S) {
        (combined_vectors(s, batch), s)
    }

    proof fn keeps_dimension(s: S, batch: Seq<Delta>) {
        reveal(combined_vectors);
        accepted_batches_are_fit(batch);
        s.keeps_length(sample_weights(batch), validated(batch)->Ok_0);
    }

    fn aggregate(&mut self, updates: &[ClientDelta]) -> (r: Result<Vec<Binary32>, AggregatorError>) {
        proof {
            reveal(combined_vectors);
        }
        if updates.len() == 0 {
            return Err(AggregatorError::EmptyBatch);
        }
        let m: Vec<Vec<Binary32>> = match decode_and_validate(updates) {
            Ok(m) => m,
            Err(e) => {
                return Err(e);
            },
        };
        proof {
            accepted_batches_are_fit(batch_of(updates@));
        }
        let weights: Vec<Binary32> = sample_counts(updates);
        Ok(self.statistic.combine(&weights, &m))
    }
}

/// One millionth, in single precision.
pub open spec fn weiszfeld_floor() -> Binary32 {
    Binary32 { bits: 0x3586_37bd }
}

/// Each weight over the distance of its row from `estimate`, at least one
/// millionth.
pub open spec fn inverse_distance_weights(
    weights: Seq<Binary32>,
    m: Seq<Seq<Binary32>>,
    estimate: Seq<Binary32>,
) -> Seq<Binary32> {
    Seq::new(
        m.len(),
        |i: int| weights[i].over(distance32(m[i], estimate).larger(weiszfeld_floor())),
    )
}

/// Whether a weight sum gives no direction to step in.
pub open spec fn no_direction(total: Binary32) -> bool {
    total.at_most(Binary32::nothing()) || !total.finite()
}

/// `estimate` after at most `times` steps; a step without direction ends it.
pub open spec fn weiszfeld(
    weights: Seq<Binary32>,
    m: Seq<Seq<Binary32>>,
    estimate: Seq<Binary32>,
    times: nat,
) -> Seq<Binary32>
    decreases times,
{
    if times == 0 {
        estimate
    } else {
        let inverse = inverse_distance_weights(weights, m, estimate);
        let total = sum32(inverse);
        if no_direction(total) {
            estimate
        } else {
            weiszfeld(
                weights,
                m,
                weighted_rows(m, normalized(inverse, total), m[0].len(), m.len()),
                (times - 1) as nat,
            )
        }
    }
}

proof fn lemma_weiszfeld_len(
    weights: Seq<Binary32>,
    m: Seq<Seq<Binary32>>,
    estimate: Seq<Binary32>,
    times: nat,
)
    requires
        estimate.len() == m[0].len(),
    ensures
        weiszfeld(weights, m, estimate, times).len() == m[0].len(),
    decreases times,
{
    if times > 0 {
        let inverse = inverse_distance_weights(weights, m, estimate);
        let shares = normalized(inverse, sum32(inverse));
        lemma_weighted_rows_len(m, shares, m[0].len(), m.len());
        lemma_weiszfeld_len(
            weights,
            m,
            weighted_rows(m, shares, m[0].len(), m.len()),
            (times - 1) as nat,
        );
    }
}

/// Where the iteration starts: the weighted mean, or zero without weights.
pub open spec fn weiszfeld_start(weights: Seq<Binary32>, m: Seq<Seq<Binary32>>) -> Seq<Binary32> {
    let total = sum32(weights);
    if Binary32::nothing().below(total) {
        weighted_rows(m, normalized(weights, total), m[0].len(), m.len())
    } else {
        zeros32(m[0].len())
    }
}

/// The point that minimizes the weighted sum of distances to every update,
/// approached in a fixed number of steps.
#[derive(Debug, Clone, Copy)]
pub struct GeometricMedianStatistic {
    /// How many steps are taken.
    pub iterations: usize,
}

impl Default for GeometricMedianStatistic {
    fn default() -> (r: Self)
        ensures
            r.iterations == 8,
    {
        GeometricMedianStatistic { iterations: 8 }
    }
}

impl RobustVectorStatistic for GeometricMedianStatistic {
    open spec fn combines(&self, weights: Seq<Binary32>, m: Seq<Seq<Binary32>>) -> Seq<Binary32> {
        weiszfeld(weights, m, weiszfeld_start(weights, m), self.iterations as nat)
    }

    proof fn keeps_length(&self, weights: Seq<Binary32>, m: Seq<Seq<Binary32>>) {
        let total = sum32(weights);
        lemma_weighted_rows_len(m, normalized(weights, total), m[0].len(), m.len());
        lemma_weiszfeld_len(weights, m, weiszfeld_start(weights, m), self.iterations as nat);
    }

    fn combine(&self, weights: &Vec<Binary32>, updates: &Vec<Vec<Binary32>>) -> (r: Vec<Binary32>) {
        let ghost mm = rows(updates@);
        let dim: usize = updates[0].len();
        let total: Binary32 = total32(weights.as_slice());
        let mut estimate: Vec<Binary32> = if Binary32::zero().lt(total) {
            let shares: Vec<Binary32> = normalize_weights(weights, total);
            add_weighted_rows(updates, &shares, dim)
        } else {
            filled32(dim, Binary32::zero())
        };
        proof {
            assert(mm[0] == updates[0]@);
            assert(zeros32(dim as nat) =~= Seq::new(dim as nat, |i: int| Binary32::nothing()));
        }
        let ghost goal = self.combines(weights@, mm);
        let mut left: usize = self.iterations;
        while left > 0
            invariant
                mm == rows(updates@),
                updates.len() > 0,
                weights.len() == updates.len(),
                mm[0].len() == dim,
                is_matrix(mm, dim as nat),
                estimate.len() == dim,
                goal == self.combines(weights@, mm),
                goal == weiszfeld(weights@, mm, estimate@, left as nat),
            decreases left,
        {
            let mut inverse: Vec<Binary32> = Vec::with_capacity(updates.len());
            let mut i: usize = 0;
            while i < updates.len()
                invariant
                    i <= updates.len(),
                    mm == rows(updates@),
                    weights.len() == updates.len(),
                    is_matrix(mm, dim as nat),
                    estimate.len() == dim,
                    inverse.len() == i,
                    forall|k: int|
                        0 <= k < i ==> #[trigger] inverse[k] == inverse_distance_weights(
                            weights@,
                            mm,
                            estimate@,
                        )[k],
                decreases updates.len() - i,
            {
                proof {
                    assert(mm[i as int].len() == dim);
                }
                let d: Binary32 = l2_distance(updates[i].as_slice(), estimate.as_slice());
                inverse.push(weights[i].div(d.max(Binary32 { bits: 0x3586_37bd })));
                i = i + 1;
            }
            proof {
                assert(inverse@ =~= inverse_distance_weights(weights@, mm, estimate@));
            }
            let sum: Binary32 = total32(inverse.as_slice());
            if sum.le(Binary32::zero()) || !sum.is_finite() {
                return estimate;
            }
            let shares: Vec<Binary32> = normalize_weights(&inverse, sum);
            estimate = add_weighted_rows(updates, &shares, dim);
            left = left - 1;
        }
        estimate
    }
}

} // verus!
