//! What every aggregation method is: a machine that takes one round's batch
//! of updates and gives the new global weights.
use vstd::prelude::*;
use crate::delta::{batch_of, ClientDelta, Delta};
use crate::error::{AggregatorError, Rejection};
use crate::float::binary32::Binary32;
use crate::trusted::fltrust::TrustedReference;
use crate::weights::validated;

verus! {

/// What an aggregation returned, as mathematical values.
pub open spec fn outcome(r: Result<Vec<Binary32>, AggregatorError>) -> Result<
    Seq<Binary32>,
    Rejection,
> {
    match r {
        Ok(v) => Ok(v@),
        Err(e) => Err(e@),
    }
}

/// The model dimension of a batch: that of its first update.
pub open spec fn model_dim(batch: Seq<Delta>) -> nat {
    batch[0].weights.len() / 4
}

/// Turns one round's batch into the new global weights.
///
/// A method is a state machine: what it returns for a batch, and the state it
/// is in afterwards, are functions of its state and the batch.
pub trait Aggregator: Sized {
    /// What the method remembers from round to round, its parameters included.
    type State;

    /// The current state.
    spec fn state(&self) -> Self::State;

    /// Whether a state is one the method can be in.
    spec fn ready(s: Self::State) -> bool;

    /// The result for `batch` in state `s`, and the state after it.
    spec fn step(s: Self::State, batch: Seq<Delta>) -> (
        Result<Seq<Binary32>, Rejection>,
        Self::State,
    );

    /// Whatever a method makes of a fit batch has the batch's dimension.
    proof fn keeps_dimension(s: Self::State, batch: Seq<Delta>)
        requires
            Self::ready(s),
            0 < batch.len() <= usize::MAX,
            validated(batch) is Ok,
        ensures
            Self::step(s, batch).0 is Ok ==> Self::step(s, batch).0->Ok_0.len() == model_dim(
                batch,
            ),
    ;

    /// Turns one round's batch into the new global weights.
    fn aggregate(&mut self, updates: &[ClientDelta]) -> (r: Result<Vec<Binary32>, AggregatorError>)
        requires
            Self::ready(old(self).state()),
        ensures
            Self::ready(final(self).state()),
            Self::step(old(self).state(), batch_of(updates@)) == (
                outcome(r),
                final(self).state(),
            ),
    ;

    /// Whether the method needs a trusted reference each round.
    fn requires_trusted_reference(&self) -> (r: bool)
        default_ensures
            !r,
    {
        false
    }

    /// Supplies the round's trusted reference; a method that needs none
    /// ignores it.
    fn set_trusted_reference(&mut self, reference: TrustedReference)
        requires
            Self::ready(old(self).state()),
        ensures
            Self::ready(final(self).state()),
        default_ensures
            *final(self) == *old(self),
    {
    }

    /// Whether the method needs a score for every candidate each round.
    fn requires_candidate_scores(&self) -> (r: bool)
        default_ensures
            !r,
    {
        false
    }

    /// The control variate to send down to clients, for a method that keeps
    /// one.
    fn control_variate(&self) -> (r: Option<Vec<Binary32>>)
        default_ensures
            r is None,
    {
        None
    }
}

} // verus!
