//! Adaptive server optimizers: Adagrad, Adam and Yogi on the aggregate.
use vstd::prelude::*;
use crate::aggregator::Aggregator;
use crate::averaging::{lemma_weighted_rows_len, FedAvg};
use crate::delta::{batch_of, ClientDelta, Delta};
use crate::error::{AggregatorError, Rejection};
use crate::float::binary32::Binary32;
use crate::float::binary64::Binary64;
use crate::linear::{copy32, filled32, zeros32};
use crate::robust::faba::{equal_share, even_mean, mean_of_rows};
use crate::weights::{accepted_batches_are_fit, decode_and_validate, find_not_finite, first_not_finite, rows, validated};

verus! {

/// Which second-moment rule the optimizer uses.
#[derive(Debug, Clone, Copy, PartialEq, Eq, Structural)]
pub enum FedOptVariant {
    /// The squares accumulate.
    Adagrad,
    /// The squares decay exponentially.
    Adam,
    /// The estimate moves toward the square by a bounded amount.
    Yogi,
}

impl FedOptVariant {
    /// The published decay rates of the first and second moment.
    pub open spec fn default_betas(self) -> (Binary32, Binary32) {
        match self {
            FedOptVariant::Adagrad => (Binary32::nothing(), Binary32::nothing()),
            _ => (Binary32 { bits: 0x3f66_6666 }, Binary32 { bits: 0x3f7d_70a4 }),
        }
    }

    /// The published decay rates of the first and second moment.
    pub fn paper_defaults(self) -> (r: (Binary32, Binary32))
        ensures
            r == self.default_betas(),
    {
        match self {
            FedOptVariant::Adagrad => (Binary32::zero(), Binary32::zero()),
            _ => (Binary32 { bits: 0x3f66_6666 }, Binary32 { bits: 0x3f7d_70a4 }),
        }
    }

    /// The name the variant is configured by.
    pub open spec fn label(self) -> Seq<char> {
        match self {
            FedOptVariant::Adagrad => "fedadagrad"@,
            FedOptVariant::Adam => "fedadam"@,
            FedOptVariant::Yogi => "fedyogi"@,
        }
    }

    /// The name the variant is configured by.
    pub fn name(self) -> (r: &'static str)
        ensures
            r@ == self.label(),
    {
        match self {
            FedOptVariant::Adagrad => "fedadagrad",
            FedOptVariant::Adam => "fedadam",
            FedOptVariant::Yogi => "fedyogi",
        }
    }
}

/// What the adaptive optimizers are tuned by.
#[derive(Debug, Clone, Copy, PartialEq, Eq, Structural)]
pub struct FedOptParams {
    /// How far the server moves along the corrected direction.
    pub server_learning_rate: Binary32,
    /// Decay of the first moment.
    pub beta1: Binary32,
    /// Decay of the second moment.
    pub beta2: Binary32,
    /// The floor of adaptivity.
    pub tau: Binary32,
}

impl Default for FedOptParams {
    fn default() -> (r: Self)
        ensures
            r == FedOptParams::standard(),
    {
        FedOptParams {
            server_learning_rate: Binary32::one(),
            beta1: Binary32 { bits: 0x3f66_6666 },
            beta2: Binary32 { bits: 0x3f7d_70a4 },
            tau: Binary32 { bits: 0x3a83_126f },
        }
    }
}

impl FedOptParams {
    /// A learning rate of one, decay 0.9 and 0.99, and a floor of 0.001.
    pub open spec fn standard() -> FedOptParams {
        FedOptParams {
            server_learning_rate: Binary32::unit(),
            beta1: Binary32 { bits: 0x3f66_6666 },
            beta2: Binary32 { bits: 0x3f7d_70a4 },
            tau: Binary32 { bits: 0x3a83_126f },
        }
    }

    /// The standard parameters with the variant's own decay rates.
    pub open spec fn of_variant(variant: FedOptVariant) -> FedOptParams {
        let (beta1, beta2) = variant.default_betas();
        FedOptParams { beta1, beta2, ..FedOptParams::standard() }
    }

    /// The standard parameters with the variant's own decay rates.
    pub fn for_variant(variant: FedOptVariant) -> (r: FedOptParams)
        ensures
            r == FedOptParams::of_variant(variant),
    {
        let (beta1, beta2): (Binary32, Binary32) = variant.paper_defaults();
        let base: FedOptParams = FedOptParams::default();
        FedOptParams {
            server_learning_rate: base.server_learning_rate,
            beta1,
            beta2,
            tau: base.tau,
        }
    }
}

/// The model and both moment estimates, as mathematical values.
#[verifier::ext_equal]
pub struct OptimizerModel {
    pub global: Seq<Binary32>,
    pub m: Seq<Binary32>,
    pub v: Seq<Binary32>,
}

/// The model and both moment estimates.
pub struct OptimizerState {
    pub global: Vec<Binary32>,
    pub m: Vec<Binary32>,
    pub v: Vec<Binary32>,
}

impl OptimizerState {
    pub open spec fn model(&self) -> OptimizerModel {
        OptimizerModel { global: self.global@, m: self.m@, v: self.v@ }
    }
}

/// What was aggregated before any server step, as mathematical values.
pub open spec fn base_step<B: Aggregator>(
    base: Option<B::State>,
    batch: Seq<Delta>,
    m: Seq<Seq<Binary32>>,
) -> (Result<Seq<Binary32>, Rejection>, Option<B::State>) {
    match base {
        None => (Ok(even_mean(m, m[0].len())), None),
        Some(s) => {
            let (r, after) = B::step(s, batch);
            (r, Some(after))
        },
    }
}

/// The double-precision one.
pub open spec fn one64() -> Binary64 {
    Binary64::unit()
}

/// The new second moment before its floor.
pub open spec fn second_moment(
    variant: FedOptVariant,
    beta2: Binary64,
    before: Binary64,
    square: Binary64,
) -> Binary64 {
    match variant {
        FedOptVariant::Adagrad => before.plus(square),
        FedOptVariant::Adam => beta2.times(before).plus(one64().minus(beta2).times(square)),
        FedOptVariant::Yogi => {
            let diff = before.minus(square);
            let sign = if Binary64::nothing().below(diff) {
                one64()
            } else if diff.below(Binary64::nothing()) {
                Binary64 { bits: 0xbff0_0000_0000_0000 }
            } else {
                Binary64::nothing()
            };
            before.minus(one64().minus(beta2).times(square).times(sign))
        },
    }
}

/// One coordinate's step: both new moments and the new weight.
#[verifier::opaque]
pub open spec fn fedopt_coordinate(
    variant: FedOptVariant,
    params: FedOptParams,
    target: Binary32,
    previous: Binary32,
    m_before: Binary32,
    v_before: Binary32,
) -> (Binary32, Binary32, Binary32) {
    let delta = target.as_binary64().minus(previous.as_binary64());
    let beta1 = params.beta1.as_binary64();
    let m = beta1.times(m_before.as_binary64()).plus(one64().minus(beta1).times(delta));
    let raw = second_moment(
        variant,
        params.beta2.as_binary64(),
        v_before.as_binary64(),
        delta.times(delta),
    );
    let v = raw.larger(params.tau.times(params.tau).as_binary64());
    let step = params.server_learning_rate.as_binary64().times(m).over(
        v.root().plus(params.tau.as_binary64()),
    );
    (m.as_binary32(), v.as_binary32(), previous.as_binary64().plus(step).as_binary32())
}

/// One server step on every coordinate.
pub open spec fn fedopt_stepped(
    variant: FedOptVariant,
    params: FedOptParams,
    aggregate: Seq<Binary32>,
    o: OptimizerModel,
) -> OptimizerModel {
    OptimizerModel {
        global: Seq::new(
            aggregate.len(),
            |i: int|
                fedopt_coordinate(variant, params, aggregate[i], o.global[i], o.m[i], o.v[i]).2,
        ),
        m: Seq::new(
            aggregate.len(),
            |i: int|
                fedopt_coordinate(variant, params, aggregate[i], o.global[i], o.m[i], o.v[i]).0,
        ),
        v: Seq::new(
            aggregate.len(),
            |i: int|
                fedopt_coordinate(variant, params, aggregate[i], o.global[i], o.m[i], o.v[i]).1,
        ),
    }
}

/// A fresh optimizer at `aggregate`: no momentum, the second moment at its
/// floor.
pub open spec fn fedopt_seed(params: FedOptParams, aggregate: Seq<Binary32>) -> OptimizerModel {
    OptimizerModel {
        global: aggregate,
        m: zeros32(aggregate.len()),
        v: Seq::new(aggregate.len(), |i: int| params.tau.times(params.tau)),
    }
}

/// What an adaptive optimizer remembers.
pub struct FedOptMemory<S> {
    pub variant: FedOptVariant,
    pub params: FedOptParams,
    pub base: Option<S>,
    pub optimizer: Option<OptimizerModel>,
}

/// The result and the state after a batch.
///
/// The first round, and a round of another dimension, only seed the
/// optimizer. A step that leaves the finite numbers is refused, and neither
/// the model nor its moments change.
#[verifier::opaque]
pub open spec fn fedopt_step<B: Aggregator>(
    s: FedOptMemory<B::State>,
    batch: Seq<Delta>,
) -> (Result<Seq<Binary32>, Rejection>, FedOptMemory<B::State>) {
    if batch.len() == 0 {
        (Err(Rejection::EmptyBatch), s)
    } else {
        match validated(batch) {
            Err(e) => (Err(e), s),
            Ok(m) => {
                let (r, base) = base_step::<B>(s.base, batch, m);
                let t = FedOptMemory { base, ..s };
                match r {
                    Err(e) => (Err(e), t),
                    Ok(aggregate) => if s.optimizer is None || s.optimizer->0.global.len()
                        != m[0].len() {
                        (
                            Ok(aggregate),
                            FedOptMemory {
                                optimizer: Some(fedopt_seed(s.params, aggregate)),
                                ..t
                            },
                        )
                    } else {
                        let o = s.optimizer->0;
                        let next = fedopt_stepped(s.variant, s.params, aggregate, o);
                        let index = first_not_finite(next.global);
                        if index < next.global.len() {
                            (
                                Err(
                                    Rejection::NonFiniteWeights {
                                        client_id: "<"@ + s.variant.label()
                                            + " server optimizer>"@,
                                        index,
                                    },
                                ),
                                t,
                            )
                        } else {
                            (Ok(next.global), FedOptMemory { optimizer: Some(next), ..t })
                        }
                    },
                }
            },
        }
    }
}

/// An adaptive server optimizer around what a batch aggregates to: the
/// unweighted mean, or what a base method makes of it.
pub struct FedOptAggregator<B: Aggregator> {
    pub variant: FedOptVariant,
    pub params: FedOptParams,
    pub base: Option<B>,
    pub optimizer: Option<OptimizerState>,
}

impl FedOptAggregator<FedAvg> {
    /// The variant with its published parameters, on the unweighted mean.
    pub fn new(variant: FedOptVariant) -> (r: FedOptAggregator<FedAvg>)
        ensures
            r.variant == variant,
            r.params == FedOptParams::of_variant(variant),
            r.base is None,
            r.optimizer is None,
    {
        FedOptAggregator {
            variant,
            params: FedOptParams::for_variant(variant),
            base: None,
            optimizer: None,
        }
    }

    /// The variant with chosen parameters, on the unweighted mean.
    pub fn with_params(variant: FedOptVariant, params: FedOptParams) -> (r: FedOptAggregator<
        FedAvg,
    >)
        ensures
            r.variant == variant,
            r.params == params,
            r.base is None,
            r.optimizer is None,
    {
        FedOptAggregator { variant, params, base: None, optimizer: None }
    }
}

impl<B: Aggregator> FedOptAggregator<B> {
    /// The same optimizer on what `base` makes of a batch.
    pub fn with_base<C: Aggregator>(self, base: C) -> (r: FedOptAggregator<C>)
        ensures
            r.variant == self.variant,
            r.params == self.params,
            r.base == Some(base),
            r.optimizer == self.optimizer,
    {
        FedOptAggregator {
            variant: self.variant,
            params: self.params,
            base: Some(base),
            optimizer: self.optimizer,
        }
    }

    /// Both moment estimates, once there are any.
    pub fn moments(&self) -> (r: Option<(Vec<Binary32>, Vec<Binary32>)>)
        ensures
            match (r, self.optimizer) {
                (Some(p), Some(o)) => p.0@ == o.m@ && p.1@ == o.v@,
                (None, None) => true,
                _ => false,
            },
    {
        match &self.optimizer {
            Some(o) => Some((copy32(o.m.as_slice()), copy32(o.v.as_slice()))),
            None => None,
        }
    }
}

fn fedopt_one(
    variant: FedOptVariant,
    params: FedOptParams,
    target: Binary32,
    previous: Binary32,
    m_before: Binary32,
    v_before: Binary32,
) -> (r: (Binary32, Binary32, Binary32))
    ensures
        r == fedopt_coordinate(variant, params, target, previous, m_before, v_before),
{
    proof {
        reveal(fedopt_coordinate);
    }
    let one: Binary64 = Binary64::one();
    let delta: Binary64 = target.to_binary64().sub(previous.to_binary64());
    let beta1: Binary64 = params.beta1.to_binary64();
    let beta2: Binary64 = params.beta2.to_binary64();
    let m: Binary64 = beta1.mul(m_before.to_binary64()).add(one.sub(beta1).mul(delta));
    let square: Binary64 = delta.mul(delta);
    let before: Binary64 = v_before.to_binary64();
    let raw: Binary64 = match variant {
        FedOptVariant::Adagrad => before.add(square),
        FedOptVariant::Adam => beta2.mul(before).add(one.sub(beta2).mul(square)),
        FedOptVariant::Yogi => {
            let diff: Binary64 = before.sub(square);
            let sign: Binary64 = if Binary64::zero().lt(diff) {
                one
            } else if diff.lt(Binary64::zero()) {
                Binary64 { bits: 0xbff0_0000_0000_0000 }
            } else {
                Binary64::zero()
            };
            before.sub(one.sub(beta2).mul(square).mul(sign))
        },
    };
    let v: Binary64 = raw.max(params.tau.mul(params.tau).to_binary64());
    let step: Binary64 = params.server_learning_rate.to_binary64().mul(m).div(
        v.sqrt().add(params.tau.to_binary64()),
    );
    (m.to_binary32(), v.to_binary32(), previous.to_binary64().add(step).to_binary32())
}

fn fedopt_all(
    variant: FedOptVariant,
    params: FedOptParams,
    aggregate: &Vec<Binary32>,
    o: &OptimizerState,
) -> (r: OptimizerState)
    requires
        o.global.len() == aggregate.len(),
        o.m.len() == aggregate.len(),
        o.v.len() == aggregate.len(),
    ensures
        r.model() == fedopt_stepped(variant, params, aggregate@, o.model()),
{
    let ghost goal = fedopt_stepped(variant, params, aggregate@, o.model());
    let mut global: Vec<Binary32> = Vec::with_capacity(aggregate.len());
    let mut m: Vec<Binary32> = Vec::with_capacity(aggregate.len());
    let mut v: Vec<Binary32> = Vec::with_capacity(aggregate.len());
    let mut i: usize = 0;
    while i < aggregate.len()
        invariant
            i <= aggregate.len(),
            o.global.len() == aggregate.len(),
            o.m.len() == aggregate.len(),
            o.v.len() == aggregate.len(),
            goal == fedopt_stepped(variant, params, aggregate@, o.model()),
            global@ == goal.global.take(i as int),
            m@ == goal.m.take(i as int),
            v@ == goal.v.take(i as int),
        decreases aggregate.len() - i,
    {
        let (mi, vi, gi): (Binary32, Binary32, Binary32) = fedopt_one(
            variant,
            params,
            aggregate[i],
            o.global[i],
            o.m[i],
            o.v[i],
        );
        global.push(gi);
        m.push(mi);
        v.push(vi);
        proof {
            assert(global@ =~= goal.global.take(i + 1));
            assert(m@ =~= goal.m.take(i + 1));
            assert(v@ =~= goal.v.take(i + 1));
        }
        i = i + 1;
    }
    let r: OptimizerState = OptimizerState { global, m, v };
    proof {
        assert(r.model() =~= goal);
    }
    r
}

impl<B: Aggregator> Aggregator for FedOptAggregator<B> {
    type State = FedOptMemory<B::State>;

    open spec fn state(&self) -> FedOptMemory<B::State> {
        FedOptMemory {
            variant: self.variant,
            params: self.params,
            base: match self.base {
                None => None,
                Some(b) => Some(b.state()),
            },
            optimizer: match self.optimizer {
                None => None,
                Some(o) => Some(o.model()),
            },
        }
    }

    open spec fn ready(s: FedOptMemory<B::State>) -> bool {
        &&& s.base is Some ==> B::ready(s.base->0)
        &&& s.optimizer is Some ==> s.optimizer->0.m.len() == s.optimizer->0.global.len()
            && s.optimizer->0.v.len() == s.optimizer->0.global.len()
    }

    open spec fn step(s: FedOptMemory<B::State>, batch: Seq<Delta>) -> (
        Result<Seq<Binary32>, Rejection>,
        FedOptMemory<B::State>,
    ) {
        fedopt_step::<B>(s, batch)
    }

    proof fn keeps_dimension(s: FedOptMemory<B::State>, batch: Seq<Delta>) {
        reveal(fedopt_step);
        accepted_batches_are_fit(batch);
        let m = validated(batch)->Ok_0;
        if s.base is Some {
            B::keeps_dimension(s.base->0, batch);
        } else {
            lemma_weighted_rows_len(
                m,
                Seq::new(m.len(), |i: int| equal_share(m.len())),
                m[0].len(),
                m.len(),
            );
        }
    }

    fn aggregate(&mut self, updates: &[ClientDelta]) -> (r: Result<Vec<Binary32>, AggregatorError>) {
        proof {
            reveal(fedopt_step);
        }
        let ghost batch = batch_of(updates@);
        if updates.len() == 0 {
            return Err(AggregatorError::EmptyBatch);
        }
        let decoded: Vec<Vec<Binary32>> = match decode_and_validate(updates) {
            Ok(m) => m,
            Err(e) => {
                return Err(e);
            },
        };
        let ghost mm = rows(decoded@);
        proof {
            accepted_batches_are_fit(batch);
            assert(mm[0] == decoded[0]@);
            if self.base is Some {
                B::keeps_dimension(self.base->0.state(), batch);
            } else {
                lemma_weighted_rows_len(
                    mm,
                    Seq::new(mm.len(), |i: int| equal_share(mm.len())),
                    mm[0].len(),
                    mm.len(),
                );
            }
        }
        let dim: usize = decoded[0].len();
        let aggregate: Vec<Binary32> = match &mut self.base {
            Some(base) => match base.aggregate(updates) {
                Ok(a) => a,
                Err(e) => {
                    return Err(e);
                },
            },
            None => mean_of_rows(&decoded, dim),
        };
        let stepped: Option<OptimizerState> = match &self.optimizer {
            None => None,
            Some(o) => if o.global.len() != dim {
                None
            } else {
                Some(fedopt_all(self.variant, self.params, &aggregate, o))
            },
        };
        match stepped {
            None => {
                let seed: OptimizerState = OptimizerState {
                    global: copy32(aggregate.as_slice()),
                    m: filled32(dim, Binary32::zero()),
                    v: filled32(dim, self.params.tau.mul(self.params.tau)),
                };
                proof {
                    assert(seed.model() =~= fedopt_seed(self.params, aggregate@));
                }
                self.optimizer = Some(seed);
                Ok(aggregate)
            },
            Some(next) => {
                let index: usize = find_not_finite(&next.global);
                if index < next.global.len() {
                    let who: String = "<".to_owned().concat(self.variant.name()).concat(
                        " server optimizer>",
                    );
                    Err(AggregatorError::NonFiniteWeights { client_id: who, index })
                } else {
                    let out: Vec<Binary32> = copy32(next.global.as_slice());
                    self.optimizer = Some(next);
                    Ok(out)
                }
            },
        }
    }
}

} // verus!
