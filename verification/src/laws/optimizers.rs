//! What the methods that keep a model on the server promise from round to
//! round.
use vstd::prelude::*;
use crate::aggregator::{model_dim, Aggregator};
use crate::averaging::{lemma_weighted_rows_len, weighted_mean, SampleCountWeighting};
use crate::delta::Delta;
use crate::float::binary32::Binary32;
use crate::float::binary64::Binary64;
use crate::optimization::fedavgm::{momentum_base, momentum_step, MomentumMemory};
use crate::optimization::fedopt::{base_step, fedopt_coordinate, fedopt_seed, fedopt_step, fedopt_stepped, second_moment, FedOptMemory, FedOptParams, FedOptVariant, OptimizerModel};
use crate::optimization::qfedavg::{any_loss, qfedavg_step, QFedAvgRule};
use crate::robust::faba::equal_share;
use crate::weights::{accepted_batches_are_fit, all_finite, first_from, is_not_finite, validated};

verus! {

/// Where no number is found that is not finite, all are.
proof fn lemma_all_finite(w: Seq<Binary32>, from: nat)
    requires
        from <= w.len(),
        first_from(from, w.len(), is_not_finite(w)) >= w.len(),
    ensures
        forall|j: int| from <= j < w.len() ==> (#[trigger] w[j]).finite(),
    decreases w.len() - from,
{
    if from < w.len() {
        assert(!is_not_finite(w)(from as int));
        lemma_all_finite(w, from + 1);
    }
}

/// Whether the optimizer holds a model of the batch's dimension.
pub open spec fn fedopt_continues<S>(s: FedOptMemory<S>, batch: Seq<Delta>) -> bool {
    s.optimizer is Some && s.optimizer->0.global.len() == validated(batch)->Ok_0[0].len()
}

/// The first round, and the first of another dimension, gives what the base
/// makes of the batch, and starts the optimizer afresh from it.
pub proof fn fedopt_starts_from_the_plain_aggregate<B: Aggregator>(
    s: FedOptMemory<B::State>,
    batch: Seq<Delta>,
)
    requires
        batch.len() > 0,
        validated(batch) is Ok,
        !fedopt_continues(s, batch),
    ensures
        fedopt_step::<B>(s, batch).0 == base_step::<B>(s.base, batch, validated(batch)->Ok_0).0,
        fedopt_step::<B>(s, batch).0 is Ok ==> fedopt_step::<B>(s, batch).1.optimizer == Some(
            fedopt_seed(s.params, fedopt_step::<B>(s, batch).0->Ok_0),
        ),
{
    reveal(fedopt_step);
}

/// Every later result is finite: a step that leaves the finite numbers is
/// refused.
pub proof fn fedopt_steps_are_finite<B: Aggregator>(s: FedOptMemory<B::State>, batch: Seq<Delta>)
    requires
        batch.len() > 0,
        validated(batch) is Ok,
        fedopt_continues(s, batch),
        fedopt_step::<B>(s, batch).0 is Ok,
    ensures
        all_finite(fedopt_step::<B>(s, batch).0->Ok_0),
        fedopt_step::<B>(s, batch).1.optimizer is Some,
        fedopt_step::<B>(s, batch).1.optimizer->0.global == fedopt_step::<B>(s, batch).0->Ok_0,
{
    reveal(fedopt_step);
    lemma_all_finite(fedopt_step::<B>(s, batch).0->Ok_0, 0);
}

/// A refused round leaves the model and its moments as they were.
pub proof fn fedopt_refusals_keep_the_model<B: Aggregator>(
    s: FedOptMemory<B::State>,
    batch: Seq<Delta>,
)
    requires
        fedopt_step::<B>(s, batch).0 is Err,
    ensures
        fedopt_step::<B>(s, batch).1.optimizer == s.optimizer,
        fedopt_step::<B>(s, batch).1.variant == s.variant,
        fedopt_step::<B>(s, batch).1.params == s.params,
        s.base is None ==> fedopt_step::<B>(s, batch).1 == s,
{
    reveal(fedopt_step);
}

/// The second moment never falls below its floor, the square of tau, and is
/// never a NaN.
pub proof fn the_second_moment_keeps_its_floor(
    variant: FedOptVariant,
    params: FedOptParams,
    target: Binary32,
    previous: Binary32,
    m: Binary32,
    v: Binary32,
)
    requires
        params.tau.finite(),
    ensures
        !fedopt_coordinate(variant, params, target, previous, m, v).1.nan(),
        params.tau.times(params.tau).rank() <= fedopt_coordinate(
            variant,
            params,
            target,
            previous,
            m,
            v,
        ).1.rank(),
{
    reveal(fedopt_coordinate);
    let delta = target.as_binary64().minus(previous.as_binary64());
    let raw = second_moment(
        variant,
        params.beta2.as_binary64(),
        v.as_binary64(),
        delta.times(delta),
    );
    let floor = params.tau.times(params.tau);
    params.tau.finite_is_a_number();
    params.tau.square_is_not_negative();
    floor.widening_keeps_numbers();
    floor.widened_and_back();
    let held = raw.larger(floor.as_binary64());
    floor.as_binary64().narrowing_keeps_the_order(held);
}

/// Whether the moments belong to the model and the second one keeps its
/// floor.
pub open spec fn is_floored(params: FedOptParams, o: OptimizerModel) -> bool {
    &&& o.m.len() == o.global.len()
    &&& o.v.len() == o.global.len()
    &&& forall|i: int|
        0 <= i < o.v.len() ==> !(#[trigger] o.v[i]).nan() && params.tau.times(params.tau).rank()
            <= o.v[i].rank()
}

/// The state after some rounds.
pub open spec fn fedopt_after<B: Aggregator>(
    s: FedOptMemory<B::State>,
    batches: Seq<Seq<Delta>>,
) -> FedOptMemory<B::State>
    decreases batches.len(),
{
    if batches.len() == 0 {
        s
    } else {
        fedopt_step::<B>(fedopt_after::<B>(s, batches.drop_last()), batches.last()).1
    }
}

/// The dimension of the last batch that was accepted; that of the model at
/// first where none was.
pub open spec fn last_dimension<B: Aggregator>(
    s: FedOptMemory<B::State>,
    batches: Seq<Seq<Delta>>,
) -> Option<nat>
    decreases batches.len(),
{
    if batches.len() == 0 {
        match s.optimizer {
            None => None,
            Some(o) => Some(o.global.len()),
        }
    } else if fedopt_step::<B>(fedopt_after::<B>(s, batches.drop_last()), batches.last()).0 is Ok {
        Some(model_dim(batches.last()))
    } else {
        last_dimension::<B>(s, batches.drop_last())
    }
}

/// Whatever rounds came before: there are moments once a batch was accepted,
/// they have the dimension of the last one that was, and the second moment
/// lies nowhere below the square of tau.
pub proof fn the_moments_keep_their_form<B: Aggregator>(
    s: FedOptMemory<B::State>,
    batches: Seq<Seq<Delta>>,
)
    requires
        s.params.tau.finite(),
        s.optimizer is Some ==> is_floored(s.params, s.optimizer->0),
        forall|k: int| 0 <= k < batches.len() ==> (#[trigger] batches[k]).len() <= usize::MAX,
        forall|k: int|
            0 <= k <= batches.len() && (#[trigger] fedopt_after::<B>(
                s,
                batches.take(k),
            )).base is Some ==> B::ready(fedopt_after::<B>(s, batches.take(k)).base->0),
    ensures
        ({
            let t = fedopt_after::<B>(s, batches);
            &&& t.params == s.params
            &&& t.variant == s.variant
            &&& t.optimizer is Some <==> last_dimension::<B>(s, batches) is Some
            &&& t.optimizer is Some ==> is_floored(s.params, t.optimizer->0)
                && t.optimizer->0.global.len() == last_dimension::<B>(s, batches)->0
        }),
    decreases batches.len(),
{
    assert(batches.take(batches.len() as int) =~= batches);
    if batches.len() > 0 {
        let earlier = batches.drop_last();
        let h = earlier.len() as int;
        assert forall|k: int| 0 <= k < earlier.len() implies (#[trigger] earlier[k]).len()
            <= usize::MAX by {
            assert(batches[k].len() <= usize::MAX);
        }
        assert forall|k: int|
            0 <= k <= earlier.len() && (#[trigger] fedopt_after::<B>(
                s,
                earlier.take(k),
            )).base is Some implies B::ready(fedopt_after::<B>(s, earlier.take(k)).base->0) by {
            assert(earlier.take(k) =~= batches.take(k));
        }
        the_moments_keep_their_form::<B>(s, earlier);
        let (t, batch) = (fedopt_after::<B>(s, earlier), batches.last());
        assert(batches[h].len() <= usize::MAX);
        assert(batches.take(h) =~= earlier);
        assert(t.base is Some ==> B::ready(t.base->0));
        lemma_floor_kept::<B>(t, batch);
    }
}

proof fn lemma_floor_kept<B: Aggregator>(t: FedOptMemory<B::State>, batch: Seq<Delta>)
    requires
        t.params.tau.finite(),
        t.optimizer is Some ==> is_floored(t.params, t.optimizer->0),
        batch.len() <= usize::MAX,
        t.base is Some ==> B::ready(t.base->0),
    ensures
        ({
            let (r, next) = fedopt_step::<B>(t, batch);
            &&& next.params == t.params
            &&& next.variant == t.variant
            &&& r is Err ==> next.optimizer == t.optimizer
            &&& r is Ok ==> next.optimizer is Some && is_floored(t.params, next.optimizer->0)
                && next.optimizer->0.global.len() == model_dim(batch)
        }),
{
    reveal(fedopt_step);
    if batch.len() > 0 && validated(batch) is Ok {
        accepted_batches_are_fit(batch);
        let m = validated(batch)->Ok_0;
        assert(m[0].len() == model_dim(batch));
        if t.base is Some {
            B::keeps_dimension(t.base->0, batch);
        } else {
            lemma_weighted_rows_len(
                m,
                Seq::new(m.len(), |i: int| equal_share(m.len())),
                m[0].len(),
                m.len(),
            );
        }
        let r = base_step::<B>(t.base, batch, m).0;
        if r is Ok {
            let aggregate = r->Ok_0;
            t.params.tau.finite_is_a_number();
            t.params.tau.square_is_not_negative();
            if fedopt_continues(t, batch) {
                let o = t.optimizer->0;
                let next = fedopt_stepped(t.variant, t.params, aggregate, o);
                assert forall|i: int| 0 <= i < next.v.len() implies !(#[trigger] next.v[i]).nan()
                    && t.params.tau.times(t.params.tau).rank() <= next.v[i].rank() by {
                    the_second_moment_keeps_its_floor(
                        t.variant,
                        t.params,
                        aggregate[i],
                        o.global[i],
                        o.m[i],
                        o.v[i],
                    );
                }
            } else {
                assert(is_floored(t.params, fedopt_seed(t.params, aggregate)));
            }
        }
    }
}

proof fn lemma_number64(x: Binary64)
    requires
        x.finite(),
    ensures
        !x.nan(),
{
    reveal(Binary64::finite);
    reveal(Binary64::nan);
}

/// Adagrad's second moment only ever grows, so that its effective step only
/// ever shrinks.
pub proof fn adagrad_never_forgets(
    params: FedOptParams,
    target: Binary32,
    previous: Binary32,
    m: Binary32,
    v: Binary32,
)
    requires
        target.finite(),
        previous.finite(),
        v.finite(),
        params.tau.times(params.tau).finite(),
    ensures
        v.rank() <= fedopt_coordinate(
            FedOptVariant::Adagrad,
            params,
            target,
            previous,
            m,
            v,
        ).1.rank(),
{
    reveal(fedopt_coordinate);
    let delta = target.as_binary64().minus(previous.as_binary64());
    let square = delta.times(delta);
    target.wide_differences_are_finite(previous);
    delta.squares_are_not_negative();
    v.widening_is_exact();
    let before = v.as_binary64();
    lemma_number64(before);
    let raw = before.plus(square);
    before.adding_what_is_not_negative(square);
    let floor = params.tau.times(params.tau).as_binary64();
    params.tau.times(params.tau).widening_is_exact();
    lemma_number64(floor);
    let held = raw.larger(floor);
    before.narrowing_keeps_the_order(held);
}

/// Whether the method holds a model of the batch's dimension.
pub open spec fn momentum_continues<S>(s: MomentumMemory<S>, batch: Seq<Delta>) -> bool {
    s.model is Some && (s.model->0).0.len() == validated(batch)->Ok_0[0].len()
}

/// The first round, and the first of another dimension, gives what the base
/// makes of the batch, with no momentum yet.
pub proof fn momentum_starts_from_the_plain_aggregate<B: Aggregator>(
    s: MomentumMemory<B::State>,
    batch: Seq<Delta>,
)
    requires
        batch.len() > 0,
        validated(batch) is Ok,
        !momentum_continues(s, batch),
    ensures
        momentum_step::<B>(s, batch).0 == momentum_base::<B>(s.base, batch).0,
        momentum_step::<B>(s, batch).0 is Ok ==> momentum_step::<B>(s, batch).1.model is Some && (
        momentum_step::<B>(s, batch).1.model->0).0 == momentum_step::<B>(s, batch).0->Ok_0,
{
    reveal(momentum_step);
}

/// Every later result is finite, and a refused round leaves the model and the
/// momentum as they were.
pub proof fn momentum_steps_are_finite<B: Aggregator>(
    s: MomentumMemory<B::State>,
    batch: Seq<Delta>,
)
    ensures
        batch.len() > 0 && validated(batch) is Ok && momentum_continues(s, batch)
            && momentum_step::<B>(s, batch).0 is Ok ==> all_finite(
            momentum_step::<B>(s, batch).0->Ok_0,
        ),
        momentum_step::<B>(s, batch).0 is Err ==> momentum_step::<B>(s, batch).1.model == s.model,
        momentum_step::<B>(s, batch).0 is Err && s.base is None ==> momentum_step::<B>(s, batch).1
            == s,
{
    reveal(momentum_step);
    if batch.len() > 0 && validated(batch) is Ok && momentum_continues(s, batch)
        && momentum_step::<B>(s, batch).0 is Ok {
        lemma_all_finite(momentum_step::<B>(s, batch).0->Ok_0, 0);
    }
}

/// Without a preference for fairness q-FedAvg is federated averaging, exactly
/// and in every round.
pub proof fn no_preference_is_averaging<P: Fn(Binary64, Binary64) -> Binary64>(
    rule: QFedAvgRule<P>,
    model: Option<Seq<Binary32>>,
    batch: Seq<Delta>,
)
    requires
        rule.q == Binary32::nothing() || rule.q == Binary32::nothing().negated(),
    ensures
        qfedavg_step(rule, model, batch).0 == weighted_mean(SampleCountWeighting, batch),
{
    reveal(qfedavg_step);
    reveal(weighted_mean);
    rule.q.zeros();
    rule.q.widens_to_nothing();
    rule.q.widening_is_exact();
    lemma_number64(rule.q.as_binary64());
    Binary64::nothing().zeros();
    lemma_number64(Binary64::nothing());
}

/// A batch in which nobody reports a loss is plain federated averaging.
pub proof fn fairness_without_losses_is_averaging<P: Fn(Binary64, Binary64) -> Binary64>(
    rule: QFedAvgRule<P>,
    model: Option<Seq<Binary32>>,
    batch: Seq<Delta>,
)
    requires
        batch.len() > 0,
        validated(batch) is Ok,
        !any_loss(batch),
    ensures
        qfedavg_step(rule, model, batch).0 == weighted_mean(SampleCountWeighting, batch),
{
    reveal(qfedavg_step);
}

/// What q-FedAvg gives is plain federated averaging or finite, and a refused
/// round leaves the model as it was.
pub proof fn fair_steps_are_finite<P: Fn(Binary64, Binary64) -> Binary64>(
    rule: QFedAvgRule<P>,
    model: Option<Seq<Binary32>>,
    batch: Seq<Delta>,
)
    ensures
        qfedavg_step(rule, model, batch).0 is Ok ==> qfedavg_step(rule, model, batch).0
            == weighted_mean(SampleCountWeighting, batch) || all_finite(
            qfedavg_step(rule, model, batch).0->Ok_0,
        ),
        qfedavg_step(rule, model, batch).0 is Ok ==> qfedavg_step(rule, model, batch).1 == Some(
            qfedavg_step(rule, model, batch).0->Ok_0,
        ),
        qfedavg_step(rule, model, batch).0 is Err ==> qfedavg_step(rule, model, batch).1 == model,
{
    reveal(qfedavg_step);
    let r = qfedavg_step(rule, model, batch).0;
    if r is Ok && r != weighted_mean(SampleCountWeighting, batch) {
        lemma_all_finite(r->Ok_0, 0);
    }
}

} // verus!
