//! Federated averaging with server momentum.
use vstd::prelude::*;
use crate::aggregator::Aggregator;
use crate::averaging::{weighted_mean, FedAvg, SampleCountWeighting, WeightedAverageAggregator};
use crate::delta::{batch_of, ClientDelta, Delta};
use crate::error::{AggregatorError, Rejection};
use crate::float::binary32::Binary32;
use crate::float::binary64::Binary64;
use crate::linear::{copy32, filled32, zeros32};
use crate::weights::{accepted_batches_are_fit, decode_and_validate, find_not_finite, first_not_finite, rows, validated};

verus! {

/// What was aggregated before the momentum step.
pub open spec fn momentum_base<B: Aggregator>(base: Option<B::State>, batch: Seq<Delta>) -> (
    Result<Seq<Binary32>, Rejection>,
    Option<B::State>,
) {
    match base {
        None => (weighted_mean(SampleCountWeighting, batch), None),
        Some(s) => {
            let (r, after) = B::step(s, batch);
            (r, Some(after))
        },
    }
}

/// One coordinate's step: the new momentum and the new weight.
#[verifier::opaque]
pub open spec fn momentum_coordinate(
    beta: Binary32,
    rate: Binary32,
    target: Binary32,
    previous: Binary32,
    velocity: Binary32,
) -> (Binary32, Binary32) {
    let delta = target.as_binary64().minus(previous.as_binary64());
    let updated = beta.as_binary64().times(velocity.as_binary64()).plus(delta);
    (
        updated.as_binary32(),
        previous.as_binary64().plus(rate.as_binary64().times(updated)).as_binary32(),
    )
}

/// The new momentum of every coordinate.
pub open spec fn momentum_velocity(
    beta: Binary32,
    rate: Binary32,
    aggregate: Seq<Binary32>,
    global: Seq<Binary32>,
    velocity: Seq<Binary32>,
) -> Seq<Binary32> {
    Seq::new(
        aggregate.len(),
        |i: int| momentum_coordinate(beta, rate, aggregate[i], global[i], velocity[i]).0,
    )
}

/// The new weight of every coordinate.
pub open spec fn momentum_global(
    beta: Binary32,
    rate: Binary32,
    aggregate: Seq<Binary32>,
    global: Seq<Binary32>,
    velocity: Seq<Binary32>,
) -> Seq<Binary32> {
    Seq::new(
        aggregate.len(),
        |i: int| momentum_coordinate(beta, rate, aggregate[i], global[i], velocity[i]).1,
    )
}

/// What the method remembers: its parameters, its base, and the model with
/// its momentum.
pub struct MomentumMemory<S> {
    pub beta: Binary32,
    pub server_learning_rate: Binary32,
    pub base: Option<S>,
    pub model: Option<(Seq<Binary32>, Seq<Binary32>)>,
}

/// The result and the state after a batch. The first round, and a round of
/// another dimension, only seed the momentum. A step that leaves the finite
/// numbers is refused, and neither the model nor the momentum changes.
#[verifier::opaque]
pub open spec fn momentum_step<B: Aggregator>(
    s: MomentumMemory<B::State>,
    batch: Seq<Delta>,
) -> (Result<Seq<Binary32>, Rejection>, MomentumMemory<B::State>) {
    if batch.len() == 0 {
        (Err(Rejection::EmptyBatch), s)
    } else {
        match validated(batch) {
            Err(e) => (Err(e), s),
            Ok(m) => {
                let (r, base) = momentum_base::<B>(s.base, batch);
                let t = MomentumMemory { base, ..s };
                match r {
                    Err(e) => (Err(e), t),
                    Ok(aggregate) => if s.model is None || (s.model->0).0.len() != m[0].len() {
                        (
                            Ok(aggregate),
                            MomentumMemory {
                                model: Some((aggregate, zeros32(aggregate.len()))),
                                ..t
                            },
                        )
                    } else {
                        let (global, velocity) = s.model->0;
                        let v = momentum_velocity(
                            s.beta,
                            s.server_learning_rate,
                            aggregate,
                            global,
                            velocity,
                        );
                        let next = momentum_global(
                            s.beta,
                            s.server_learning_rate,
                            aggregate,
                            global,
                            velocity,
                        );
                        let index = first_not_finite(next);
                        if index < next.len() {
                            (
                                Err(
                                    Rejection::NonFiniteWeights {
                                        client_id: "<fedavgm server optimizer>"@,
                                        index,
                                    },
                                ),
                                t,
                            )
                        } else {
                            (Ok(next), MomentumMemory { model: Some((next, v)), ..t })
                        }
                    },
                }
            },
        }
    }
}

/// Federated averaging with server momentum.
pub struct FedAvgMAggregator<B: Aggregator> {
    /// How much of the momentum survives a round.
    pub beta: Binary32,
    /// How far the server moves along the momentum.
    pub server_learning_rate: Binary32,
    pub base: Option<B>,
    /// The model and its momentum.
    pub model: Option<(Vec<Binary32>, Vec<Binary32>)>,
}

impl Default for FedAvgMAggregator<FedAvg> {
    fn default() -> (r: Self)
        ensures
            r.beta == (Binary32 { bits: 0x3f66_6666 }),
            r.server_learning_rate == Binary32::unit(),
            r.base is None,
            r.model is None,
    {
        FedAvgMAggregator::new()
    }
}

impl FedAvgMAggregator<FedAvg> {
    /// Momentum 0.9 and a learning rate of one on federated averaging.
    pub fn new() -> (r: FedAvgMAggregator<FedAvg>)
        ensures
            r.beta == (Binary32 { bits: 0x3f66_6666 }),
            r.server_learning_rate == Binary32::unit(),
            r.base is None,
            r.model is None,
    {
        FedAvgMAggregator {
            beta: Binary32 { bits: 0x3f66_6666 },
            server_learning_rate: Binary32::one(),
            base: None,
            model: None,
        }
    }
}

impl<B: Aggregator> FedAvgMAggregator<B> {
    /// The same momentum on what `base` makes of a batch.
    pub fn with_base<C: Aggregator>(self, base: C) -> (r: FedAvgMAggregator<C>)
        ensures
            r.beta == self.beta,
            r.server_learning_rate == self.server_learning_rate,
            r.base == Some(base),
            r.model == self.model,
    {
        FedAvgMAggregator {
            beta: self.beta,
            server_learning_rate: self.server_learning_rate,
            base: Some(base),
            model: self.model,
        }
    }

    /// The momentum, once there is any.
    pub fn momentum(&self) -> (r: Option<Vec<Binary32>>)
        ensures
            match (r, self.model) {
                (Some(v), Some(p)) => v@ == p.1@,
                (None, None) => true,
                _ => false,
            },
    {
        match &self.model {
            Some(p) => Some(copy32(p.1.as_slice())),
            None => None,
        }
    }
}

fn momentum_one(
    beta: Binary32,
    rate: Binary32,
    target: Binary32,
    previous: Binary32,
    velocity: Binary32,
) -> (r: (Binary32, Binary32))
    ensures
        r == momentum_coordinate(beta, rate, target, previous, velocity),
{
    proof {
        reveal(momentum_coordinate);
    }
    let delta: Binary64 = target.to_binary64().sub(previous.to_binary64());
    let updated: Binary64 = beta.to_binary64().mul(velocity.to_binary64()).add(delta);
    (
        updated.to_binary32(),
        previous.to_binary64().add(rate.to_binary64().mul(updated)).to_binary32(),
    )
}

fn momentum_all(
    beta: Binary32,
    rate: Binary32,
    aggregate: &Vec<Binary32>,
    global: &Vec<Binary32>,
    velocity: &Vec<Binary32>,
) -> (r: (Vec<Binary32>, Vec<Binary32>))
    requires
        global.len() == aggregate.len(),
        velocity.len() == aggregate.len(),
    ensures
        r.0@ == momentum_global(beta, rate, aggregate@, global@, velocity@),
        r.1@ == momentum_velocity(beta, rate, aggregate@, global@, velocity@),
{
    let ghost goal_g = momentum_global(beta, rate, aggregate@, global@, velocity@);
    let ghost goal_v = momentum_velocity(beta, rate, aggregate@, global@, velocity@);
    let mut next: Vec<Binary32> = Vec::with_capacity(aggregate.len());
    let mut v: Vec<Binary32> = Vec::with_capacity(aggregate.len());
    let mut i: usize = 0;
    while i < aggregate.len()
        invariant
            i <= aggregate.len(),
            global.len() == aggregate.len(),
            velocity.len() == aggregate.len(),
            goal_g == momentum_global(beta, rate, aggregate@, global@, velocity@),
            goal_v == momentum_velocity(beta, rate, aggregate@, global@, velocity@),
            next@ == goal_g.take(i as int),
            v@ == goal_v.take(i as int),
        decreases aggregate.len() - i,
    {
        let (vi, gi): (Binary32, Binary32) = momentum_one(
            beta,
            rate,
            aggregate[i],
            global[i],
            velocity[i],
        );
        next.push(gi);
        v.push(vi);
        proof {
            assert(next@ =~= goal_g.take(i + 1));
            assert(v@ =~= goal_v.take(i + 1));
        }
        i = i + 1;
    }
    proof {
        assert(next@ =~= goal_g);
        assert(v@ =~= goal_v);
    }
    (next, v)
}

impl<B: Aggregator> Aggregator for FedAvgMAggregator<B> {
    type State = MomentumMemory<B::State>;

    open spec fn state(&self) -> MomentumMemory<B::State> {
        MomentumMemory {
            beta: self.beta,
            server_learning_rate: self.server_learning_rate,
            base: match self.base {
                None => None,
                Some(b) => Some(b.state()),
            },
            model: match self.model {
                None => None,
                Some(p) => Some((p.0@, p.1@)),
            },
        }
    }

    open spec fn ready(s: MomentumMemory<B::State>) -> bool {
        &&& s.base is Some ==> B::ready(s.base->0)
        &&& s.model is Some ==> (s.model->0).0.len() == (s.model->0).1.len()
    }

    open spec fn step(s: MomentumMemory<B::State>, batch: Seq<Delta>) -> (
        Result<Seq<Binary32>, Rejection>,
        MomentumMemory<B::State>,
    ) {
        momentum_step::<B>(s, batch)
    }

    proof fn keeps_dimension(s: MomentumMemory<B::State>, batch: Seq<Delta>) {
        reveal(momentum_step);
        accepted_batches_are_fit(batch);
        if s.base is Some {
            B::keeps_dimension(s.base->0, batch);
        } else {
            <FedAvg as Aggregator>::keeps_dimension(SampleCountWeighting, batch);
        }
    }

    fn aggregate(&mut self, updates: &[ClientDelta]) -> (r: Result<Vec<Binary32>, AggregatorError>) {
        proof {
            reveal(momentum_step);
        }
        let ghost batch = batch_of(updates@);
        if updates.len() == 0 {
            return Err(AggregatorError::EmptyBatch);
        }
        let decoded: Vec<Vec<Binary32>> = match decode_and_validate(updates) {
            Ok(m) => m,
            Err(e) => {
                return Err(e);
            },
        };
        proof {
            accepted_batches_are_fit(batch);
            assert(rows(decoded@)[0] == decoded[0]@);
            if self.base is Some {
                B::keeps_dimension(self.base->0.state(), batch);
            } else {
                <FedAvg as Aggregator>::keeps_dimension(SampleCountWeighting, batch);
            }
        }
        let dim: usize = decoded[0].len();
        let averaged: Result<Vec<Binary32>, AggregatorError> = match &mut self.base {
            Some(base) => base.aggregate(updates),
            None => {
                let plain: FedAvg = WeightedAverageAggregator::default();
                plain.average(updates)
            },
        };
        let aggregate: Vec<Binary32> = match averaged {
            Ok(a) => a,
            Err(e) => {
                return Err(e);
            },
        };
        let stepped: Option<(Vec<Binary32>, Vec<Binary32>)> = match &self.model {
            None => None,
            Some(p) => if p.0.len() != dim {
                None
            } else {
                Some(
                    momentum_all(
                        self.beta,
                        self.server_learning_rate,
                        &aggregate,
                        &p.0,
                        &p.1,
                    ),
                )
            },
        };
        match stepped {
            None => {
                let start: Vec<Binary32> = copy32(aggregate.as_slice());
                let still: Vec<Binary32> = filled32(dim, Binary32::zero());
                proof {
                    assert(still@ =~= zeros32(aggregate@.len()));
                }
                self.model = Some((start, still));
                Ok(aggregate)
            },
            Some((next, v)) => {
                let index: usize = find_not_finite(&next);
                if index < next.len() {
                    Err(
                        AggregatorError::NonFiniteWeights {
                            client_id: "<fedavgm server optimizer>".to_owned(),
                            index,
                        },
                    )
                } else {
                    let out: Vec<Binary32> = copy32(next.as_slice());
                    self.model = Some((next, v));
                    Ok(out)
                }
            },
        }
    }
}

} // verus!
