//! Centered clipping: each client's deviation from a running reference is
//! clipped to a radius.
use vstd::prelude::*;
use crate::aggregator::Aggregator;
use crate::averaging::lemma_weighted_rows_len;
use crate::delta::{batch_of, ClientDelta, Delta};
use crate::error::{AggregatorError, Rejection};
use crate::float::binary32::Binary32;
use crate::float::binary64::Binary64;
use crate::linear::{add_quotients, copy32, distance_squared64, filled64, held_all, hold_all, plus_quotients, squared_distance64, zeros64};
use crate::robust::faba::{equal_share, even_mean, mean_of_rows};
use crate::weights::{accepted_batches_are_fit, accumulate_scaled_difference, decode_and_validate, is_matrix, plus_scaled_difference, rows, validated};

verus! {

/// How much of its deviation a client `distance` away keeps: all of it
/// within the radius, the radius over the distance beyond it.
pub open spec fn clip_scale(radius: Binary32, distance: Binary64) -> Binary64 {
    if Binary64::nothing().below(distance) {
        radius.as_binary64().over(distance).smaller(Binary64::unit())
    } else {
        Binary64::unit()
    }
}

/// The clipped deviations of the first `k` rows from `v`, added up.
pub open spec fn clipped_sum(
    radius: Binary32,
    m: Seq<Seq<Binary32>>,
    v: Seq<Binary32>,
    k: nat,
) -> Seq<Binary64>
    decreases k,
{
    if k == 0 {
        zeros64(v.len())
    } else {
        plus_scaled_difference(
            clipped_sum(radius, m, v, (k - 1) as nat),
            m[k - 1],
            v,
            clip_scale(radius, distance_squared64(m[k - 1], v).root()),
        )
    }
}

/// Where a round starts from: the last reference, or the plain mean where
/// there is none of this dimension.
pub open spec fn clip_center(reference: Option<Seq<Binary32>>, m: Seq<Seq<Binary32>>) -> Seq<
    Binary32,
> {
    if reference is Some && reference->0.len() == m[0].len() {
        reference->0
    } else {
        even_mean(m, m[0].len())
    }
}

/// The reference after a round: its center moved by the mean of the clipped
/// deviations.
pub open spec fn clipped_round(
    radius: Binary32,
    reference: Option<Seq<Binary32>>,
    m: Seq<Seq<Binary32>>,
) -> Seq<Binary32> {
    let v = clip_center(reference, m);
    held_all(plus_quotients(v, clipped_sum(radius, m, v, m.len()), Binary64::whole(m.len())))
}

/// The result and the reference after a batch.
#[verifier::opaque]
pub open spec fn clipping_step(s: (Binary32, Option<Seq<Binary32>>), batch: Seq<Delta>) -> (
    Result<Seq<Binary32>, Rejection>,
    (Binary32, Option<Seq<Binary32>>),
) {
    if batch.len() == 0 {
        (Err(Rejection::EmptyBatch), s)
    } else {
        match validated(batch) {
            Err(e) => (Err(e), s),
            Ok(m) => {
                let next = clipped_round(s.0, s.1, m);
                (Ok(next), (s.0, Some(next)))
            },
        }
    }
}

/// Centered clipping with a running reference, which is also each round's
/// result.
pub struct CenteredClippingAggregator {
    pub clip_radius: Binary32,
    /// The last result; none before the first round.
    pub current: Option<Vec<Binary32>>,
}

impl CenteredClippingAggregator {
    /// Clips each client's deviation to `clip_radius`.
    pub fn new(clip_radius: Binary32) -> (r: CenteredClippingAggregator)
        ensures
            r.clip_radius == clip_radius,
            r.current is None,
    {
        CenteredClippingAggregator { clip_radius, current: None }
    }

    /// The reference; none before the first round.
    pub fn reference(&self) -> (r: Option<Vec<Binary32>>)
        ensures
            match (r, self.current) {
                (Some(v), Some(c)) => v@ == c@,
                (None, None) => true,
                _ => false,
            },
    {
        match &self.current {
            Some(c) => Some(copy32(c.as_slice())),
            None => None,
        }
    }
}

impl Aggregator for CenteredClippingAggregator {
    type State = (Binary32, Option<Seq<Binary32>>);

    open spec fn state(&self) -> (Binary32, Option<Seq<Binary32>>) {
        (
            self.clip_radius,
            match self.current {
                None => None,
                Some(c) => Some(c@),
            },
        )
    }

    open spec fn ready(s: (Binary32, Option<Seq<Binary32>>)) -> bool {
        true
    }

    open spec fn step(s: (Binary32, Option<Seq<Binary32>>), batch: Seq<Delta>) -> (
        Result<Seq<Binary32>, Rejection>,
        (Binary32, Option<Seq<Binary32>>),
    ) {
        clipping_step(s, batch)
    }

    proof fn keeps_dimension(s: (Binary32, Option<Seq<Binary32>>), batch: Seq<Delta>) {
        reveal(clipping_step);
        accepted_batches_are_fit(batch);
        let m = validated(batch)->Ok_0;
        lemma_weighted_rows_len(
            m,
            Seq::new(m.len(), |i: int| equal_share(m.len())),
            m[0].len(),
            m.len(),
        );
    }

    fn aggregate(&mut self, updates: &[ClientDelta]) -> (r: Result<Vec<Binary32>, AggregatorError>) {
        proof {
            reveal(clipping_step);
        }
        let ghost batch = batch_of(updates@);
        if updates.len() == 0 {
            return Err(AggregatorError::EmptyBatch);
        }
        let m: Vec<Vec<Binary32>> = match decode_and_validate(updates) {
            Ok(m) => m,
            Err(e) => {
                return Err(e);
            },
        };
        let ghost mm = rows(m@);
        proof {
            accepted_batches_are_fit(batch);
            assert(mm[0] == m[0]@);
        }
        let dim: usize = m[0].len();
        let carried: Option<Vec<Binary32>> = match &self.current {
            Some(prev) => if prev.len() == dim {
                Some(copy32(prev.as_slice()))
            } else {
                None
            },
            None => None,
        };
        let v: Vec<Binary32> = match carried {
            Some(prev) => prev,
            None => mean_of_rows(&m, dim),
        };
        let mut sum: Vec<Binary64> = filled64(dim, Binary64::zero());
        proof {
            assert(sum@ =~= zeros64(dim as nat));
        }
        let mut k: usize = 0;
        while k < m.len()
            invariant
                k <= m.len(),
                mm == rows(m@),
                is_matrix(mm, dim as nat),
                v.len() == dim,
                sum.len() == dim,
                sum@ == clipped_sum(self.clip_radius, mm, v@, k as nat),
                *self == *old(self),
            decreases m.len() - k,
        {
            proof {
                assert(mm[k as int] == m[k as int]@);
                assert(mm[k as int].len() == dim);
            }
            let distance: Binary64 = squared_distance64(m[k].as_slice(), v.as_slice()).sqrt();
            let scale: Binary64 = if Binary64::zero().lt(distance) {
                self.clip_radius.to_binary64().div(distance).min(Binary64::one())
            } else {
                Binary64::one()
            };
            accumulate_scaled_difference(&mut sum, &m[k], &v, scale);
            k = k + 1;
        }
        let mut next: Vec<Binary32> = add_quotients(
            v.as_slice(),
            sum.as_slice(),
            Binary64::from_u64(m.len() as u64),
        );
        hold_all(&mut next);
        let out: Vec<Binary32> = copy32(next.as_slice());
        self.current = Some(next);
        Ok(out)
    }
}

} // verus!
