//! q-FedAvg: clients the model serves badly pull harder.
use vstd::prelude::*;
use crate::aggregator::{outcome, Aggregator};
use crate::averaging::{weighted_mean, FedAvg, SampleCountWeighting, WeightedAverageAggregator};
use crate::delta::{batch_of, ClientDelta, Delta};
use crate::elementary::{apply2, image2, is_function2};
use crate::error::{AggregatorError, Rejection};
use crate::float::binary32::Binary32;
use crate::float::binary64::Binary64;
use crate::linear::{add_quotients, copy32, filled64, plus_quotients, zeros64};
use crate::trusted::fltrust::is_zero64;
use crate::weights::{accepted_batches_are_fit, decode_and_validate, find_not_finite, first_not_finite, is_matrix, rows, validated};

verus! {

/// A client's loss, one where it reports none, and never below zero.
pub open spec fn effective_loss(reported: Option<Binary32>) -> Binary64 {
    match reported {
        Some(f) => f.as_binary64().larger(Binary64::nothing()),
        None => Binary64::unit().larger(Binary64::nothing()),
    }
}

/// The squared length of the first `k` coordinates of `w - global`, each
/// times `l`.
pub open spec fn scaled_square(l: Binary64, w: Seq<Binary32>, global: Seq<Binary32>, k: nat) -> Binary64
    decreases k,
{
    if k == 0 {
        Binary64::nothing()
    } else {
        let d = l.times(w[k - 1].as_binary64().minus(global[k - 1].as_binary64()));
        scaled_square(l, w, global, (k - 1) as nat).plus(d.times(d))
    }
}

/// A client's share of the step's denominator, from its loss to the power of
/// `q`, and of `q` less one.
pub open spec fn curvature(
    q: Binary64,
    l: Binary64,
    loss_q: Binary64,
    loss_q_less_one: Binary64,
    square: Binary64,
) -> Binary64 {
    q.times(loss_q_less_one).times(square).plus(l.times(loss_q))
}

/// A client's share of the step's denominator.
pub fn client_curvature(
    q: Binary64,
    l: Binary64,
    loss_q: Binary64,
    loss_q_less_one: Binary64,
    square: Binary64,
) -> (r: Binary64)
    ensures
        r == curvature(q, l, loss_q, loss_q_less_one, square),
{
    q.mul(loss_q_less_one).mul(square).add(l.mul(loss_q))
}

/// `acc[i] + by * (w[i] - global[i])` in double precision.
pub open spec fn plus_scaled_step(
    acc: Seq<Binary64>,
    by: Binary64,
    w: Seq<Binary32>,
    global: Seq<Binary32>,
) -> Seq<Binary64> {
    Seq::new(
        acc.len(),
        |i: int| acc[i].plus(by.times(w[i].as_binary64().minus(global[i].as_binary64()))),
    )
}

/// The parameters of the method.
pub struct QFedAvgRule<P> {
    /// How strongly fairness is preferred; none at zero.
    pub q: Binary32,
    /// The estimate that sets the step size.
    pub lipschitz: Binary32,
    /// The power function.
    pub pow: P,
}

/// A client's loss to the power of `q`.
pub open spec fn loss_power<P: Fn(Binary64, Binary64) -> Binary64>(
    rule: QFedAvgRule<P>,
    d: Delta,
) -> Binary64 {
    image2(rule.pow, effective_loss(d.local_loss), rule.q.as_binary64())
}

/// A client's share of the denominator under `rule`.
pub open spec fn share_of_denominator<P: Fn(Binary64, Binary64) -> Binary64>(
    rule: QFedAvgRule<P>,
    d: Delta,
    w: Seq<Binary32>,
    global: Seq<Binary32>,
) -> Binary64 {
    let q = rule.q.as_binary64();
    let l = rule.lipschitz.as_binary64();
    let less_one = if is_zero64(q) {
        Binary64::nothing()
    } else {
        image2(rule.pow, effective_loss(d.local_loss), q.minus(Binary64::unit()))
    };
    curvature(q, l, loss_power(rule, d), less_one, scaled_square(l, w, global, w.len()))
}

/// The denominator and the numerator of the step over the first `k` clients;
/// a client whose share is not finite is left out.
pub open spec fn fair_sums<P: Fn(Binary64, Binary64) -> Binary64>(
    rule: QFedAvgRule<P>,
    batch: Seq<Delta>,
    m: Seq<Seq<Binary32>>,
    global: Seq<Binary32>,
    k: nat,
) -> (Binary64, Seq<Binary64>)
    decreases k,
{
    if k == 0 {
        (Binary64::nothing(), zeros64(global.len()))
    } else {
        let (total, acc) = fair_sums(rule, batch, m, global, (k - 1) as nat);
        let h = share_of_denominator(rule, batch[k - 1], m[k - 1], global);
        if !h.finite() {
            (total, acc)
        } else {
            (
                total.plus(h),
                plus_scaled_step(
                    acc,
                    loss_power(rule, batch[k - 1]).times(rule.lipschitz.as_binary64()),
                    m[k - 1],
                    global,
                ),
            )
        }
    }
}

/// Whether any client reports a loss.
pub open spec fn any_loss(batch: Seq<Delta>) -> bool {
    exists|i: int| 0 <= i < batch.len() && (#[trigger] batch[i]).local_loss is Some
}

/// The result and the model after a batch. Without a preference for fairness
/// every round is plain federated averaging; otherwise the first round, a
/// round of another dimension, one in which nobody reports a loss, and one
/// whose denominator is not usable are.
#[verifier::opaque]
pub open spec fn qfedavg_step<P: Fn(Binary64, Binary64) -> Binary64>(
    rule: QFedAvgRule<P>,
    model: Option<Seq<Binary32>>,
    batch: Seq<Delta>,
) -> (Result<Seq<Binary32>, Rejection>, Option<Seq<Binary32>>) {
    if batch.len() == 0 {
        (Err(Rejection::EmptyBatch), model)
    } else {
        match validated(batch) {
            Err(e) => (Err(e), model),
            Ok(m) => {
                let averaged = weighted_mean(SampleCountWeighting, batch);
                let (total, acc) = fair_sums(rule, batch, m, model->0, batch.len());
                if is_zero64(rule.q.as_binary64()) || model is None || model->0.len() != m[0].len()
                    || !any_loss(batch) || total.at_most(Binary64::nothing()) || !total.finite() {
                    (
                        averaged,
                        match averaged {
                            Ok(a) => Some(a),
                            Err(e) => model,
                        },
                    )
                } else {
                    let next = plus_quotients(model->0, acc, total);
                    let index = first_not_finite(next);
                    if index < next.len() {
                        (
                            Err(
                                Rejection::NonFiniteWeights {
                                    client_id: "<qfedavg server optimizer>"@,
                                    index,
                                },
                            ),
                            model,
                        )
                    } else {
                        (Ok(next), Some(next))
                    }
                }
            },
        }
    }
}

/// q-FedAvg with the power function it is given.
pub struct QFedAvgAggregator<P: Fn(Binary64, Binary64) -> Binary64> {
    pub rule: QFedAvgRule<P>,
    /// The last result; none before the first round.
    pub model: Option<Vec<Binary32>>,
}

impl<P: Fn(Binary64, Binary64) -> Binary64> QFedAvgAggregator<P> {
    /// No preference for fairness and an estimate of one: federated
    /// averaging.
    pub fn new(pow: P) -> (r: QFedAvgAggregator<P>)
        ensures
            r.rule == (QFedAvgRule {
                q: Binary32::nothing(),
                lipschitz: Binary32::unit(),
                pow,
            }),
            r.model is None,
    {
        QFedAvgAggregator {
            rule: QFedAvgRule { q: Binary32::zero(), lipschitz: Binary32::one(), pow },
            model: None,
        }
    }

    /// Chosen fairness and step size.
    pub fn with_params(q: Binary32, lipschitz: Binary32, pow: P) -> (r: QFedAvgAggregator<P>)
        ensures
            r.rule == (QFedAvgRule { q, lipschitz, pow }),
            r.model is None,
    {
        QFedAvgAggregator { rule: QFedAvgRule { q, lipschitz, pow }, model: None }
    }

    /// Averages the batch plainly and makes that the model.
    fn restart(&mut self, updates: &[ClientDelta]) -> (r: Result<Vec<Binary32>, AggregatorError>)
        ensures
            outcome(r) == weighted_mean(SampleCountWeighting, batch_of(updates@)),
            final(self).rule == old(self).rule,
            match r {
                Ok(v) => final(self).model is Some && final(self).model->0@ == v@,
                Err(e) => final(self).model == old(self).model,
            },
    {
        let plain: FedAvg = WeightedAverageAggregator::default();
        match plain.average(updates) {
            Ok(a) => {
                self.model = Some(copy32(a.as_slice()));
                Ok(a)
            },
            Err(e) => Err(e),
        }
    }
}

fn reports_loss(updates: &[ClientDelta]) -> (r: bool)
    ensures
        r == any_loss(batch_of(updates@)),
{
    let ghost batch = batch_of(updates@);
    let mut i: usize = 0;
    while i < updates.len()
        invariant
            i <= updates.len(),
            batch == batch_of(updates@),
            forall|k: int| 0 <= k < i ==> (#[trigger] batch[k]).local_loss is None,
        decreases updates.len() - i,
    {
        if updates[i].local_loss.is_some() {
            proof {
                assert(batch[i as int].local_loss is Some);
            }
            return true;
        }
        i = i + 1;
    }
    false
}

fn step_square(l: Binary64, w: &Vec<Binary32>, global: &Vec<Binary32>) -> (r: Binary64)
    requires
        w.len() == global.len(),
    ensures
        r == scaled_square(l, w@, global@, w.len() as nat),
{
    let mut acc: Binary64 = Binary64::zero();
    let mut k: usize = 0;
    while k < w.len()
        invariant
            k <= w.len(),
            w.len() == global.len(),
            acc == scaled_square(l, w@, global@, k as nat),
        decreases w.len() - k,
    {
        let d: Binary64 = l.mul(w[k].to_binary64().sub(global[k].to_binary64()));
        acc = acc.add(d.mul(d));
        k = k + 1;
    }
    acc
}

fn add_scaled_step(acc: &Vec<Binary64>, by: Binary64, w: &Vec<Binary32>, global: &Vec<Binary32>) -> (r:
    Vec<Binary64>)
    requires
        acc.len() == w.len(),
        acc.len() == global.len(),
    ensures
        r@ == plus_scaled_step(acc@, by, w@, global@),
{
    let ghost goal = plus_scaled_step(acc@, by, w@, global@);
    let mut out: Vec<Binary64> = Vec::with_capacity(acc.len());
    let mut i: usize = 0;
    while i < acc.len()
        invariant
            i <= acc.len(),
            acc.len() == w.len(),
            acc.len() == global.len(),
            goal == plus_scaled_step(acc@, by, w@, global@),
            out@ == goal.take(i as int),
        decreases acc.len() - i,
    {
        out.push(acc[i].add(by.mul(w[i].to_binary64().sub(global[i].to_binary64()))));
        proof {
            assert(out@ =~= goal.take(i + 1));
        }
        i = i + 1;
    }
    proof {
        assert(goal.take(i as int) =~= goal);
    }
    out
}

fn fair_totals<P: Fn(Binary64, Binary64) -> Binary64>(
    rule: &QFedAvgRule<P>,
    updates: &[ClientDelta],
    m: &Vec<Vec<Binary32>>,
    global: &Vec<Binary32>,
) -> (r: (Binary64, Vec<Binary64>))
    requires
        is_function2(rule.pow),
        m.len() == updates.len(),
        is_matrix(rows(m@), global.len() as nat),
    ensures
        (r.0, r.1@) == fair_sums(
            *rule,
            batch_of(updates@),
            rows(m@),
            global@,
            updates.len() as nat,
        ),
        r.1.len() == global.len(),
{
    let ghost batch = batch_of(updates@);
    let ghost mm = rows(m@);
    let q: Binary64 = rule.q.to_binary64();
    let l: Binary64 = rule.lipschitz.to_binary64();
    let mut total: Binary64 = Binary64::zero();
    let mut acc: Vec<Binary64> = filled64(global.len(), Binary64::zero());
    proof {
        assert(acc@ =~= zeros64(global@.len()));
    }
    let mut k: usize = 0;
    while k < updates.len()
        invariant
            k <= updates.len(),
            is_function2(rule.pow),
            m.len() == updates.len(),
            batch == batch_of(updates@),
            mm == rows(m@),
            is_matrix(mm, global.len() as nat),
            q == rule.q.as_binary64(),
            l == rule.lipschitz.as_binary64(),
            acc.len() == global.len(),
            (total, acc@) == fair_sums(*rule, batch, mm, global@, k as nat),
        decreases updates.len() - k,
    {
        proof {
            assert(batch[k as int] == updates[k as int]@);
            assert(mm[k as int] == m[k as int]@);
            assert(mm[k as int].len() == global.len());
        }
        let loss: Binary64 = match updates[k].local_loss {
            Some(f) => f.to_binary64().max(Binary64::zero()),
            None => Binary64::one().max(Binary64::zero()),
        };
        let square: Binary64 = step_square(l, &m[k], global);
        let loss_q: Binary64 = apply2(&rule.pow, loss, q);
        let less_one: Binary64 = if q.eq_value(Binary64::zero()) {
            Binary64::zero()
        } else {
            apply2(&rule.pow, loss, q.sub(Binary64::one()))
        };
        let h: Binary64 = client_curvature(q, l, loss_q, less_one, square);
        if h.is_finite() {
            total = total.add(h);
            acc = add_scaled_step(&acc, loss_q.mul(l), &m[k], global);
        }
        k = k + 1;
    }
    (total, acc)
}

impl<P: Fn(Binary64, Binary64) -> Binary64> Aggregator for QFedAvgAggregator<P> {
    type State = (QFedAvgRule<P>, Option<Seq<Binary32>>);

    open spec fn state(&self) -> (QFedAvgRule<P>, Option<Seq<Binary32>>) {
        (
            self.rule,
            match self.model {
                None => None,
                Some(v) => Some(v@),
            },
        )
    }

    open spec fn ready(s: (QFedAvgRule<P>, Option<Seq<Binary32>>)) -> bool {
        is_function2(s.0.pow)
    }

    open spec fn step(s: (QFedAvgRule<P>, Option<Seq<Binary32>>), batch: Seq<Delta>) -> (
        Result<Seq<Binary32>, Rejection>,
        (QFedAvgRule<P>, Option<Seq<Binary32>>),
    ) {
        let (r, after) = qfedavg_step(s.0, s.1, batch);
        (r, (s.0, after))
    }

    proof fn keeps_dimension(s: (QFedAvgRule<P>, Option<Seq<Binary32>>), batch: Seq<Delta>) {
        reveal(qfedavg_step);
        accepted_batches_are_fit(batch);
        <FedAvg as Aggregator>::keeps_dimension(SampleCountWeighting, batch);
    }

    fn aggregate(&mut self, updates: &[ClientDelta]) -> (r: Result<Vec<Binary32>, AggregatorError>) {
        proof {
            reveal(qfedavg_step);
        }
        let ghost batch = batch_of(updates@);
        if updates.len() == 0 {
            return Err(AggregatorError::EmptyBatch);
        }
        let m: Vec<Vec<Binary32>> = match decode_and_validate(updates) {
            Ok(m) => m,
            Err(e) => {
                return Err(e);
            },
        };
        proof {
            accepted_batches_are_fit(batch);
            assert(rows(m@)[0] == m[0]@);
        }
        let dim: usize = m[0].len();
        let stepped: Option<Vec<Binary32>> = match &self.model {
            None => None,
            Some(global) => if self.rule.q.to_binary64().eq_value(Binary64::zero()) || global.len()
                != dim || !reports_loss(updates) {
                None
            } else {
                let (total, acc): (Binary64, Vec<Binary64>) = fair_totals(
                    &self.rule,
                    updates,
                    &m,
                    global,
                );
                if total.le(Binary64::zero()) || !total.is_finite() {
                    None
                } else {
                    Some(add_quotients(global.as_slice(), acc.as_slice(), total))
                }
            },
        };
        match stepped {
            None => self.restart(updates),
            Some(next) => {
                let index: usize = find_not_finite(&next);
                if index < next.len() {
                    Err(
                        AggregatorError::NonFiniteWeights {
                            client_id: "<qfedavg server optimizer>".to_owned(),
                            index,
                        },
                    )
                } else {
                    self.model = Some(copy32(next.as_slice()));
                    Ok(next)
                }
            },
        }
    }
}

} // verus!
