//! One client's submitted update.
use vstd::prelude::*;
use crate::float::binary32::Binary32;

verus! {

/// The update one client submits in one round.
#[derive(Debug, Clone)]
pub struct ClientDelta {
    /// Who submitted it.
    pub client_id: String,
    /// The round it answers.
    pub round: u64,
    /// The trained weights, each a little-endian single-precision number.
    pub weights: Vec<u8>,
    /// How many local samples the client says it trained on.
    pub num_samples: u64,
    /// The loss the client reports, where it reports one.
    pub local_loss: Option<Binary32>,
}

/// What an update holds, as mathematical values.
pub struct Delta {
    pub client_id: Seq<char>,
    pub round: u64,
    pub weights: Seq<u8>,
    pub num_samples: u64,
    pub local_loss: Option<Binary32>,
}

impl View for ClientDelta {
    type V = Delta;

    open spec fn view(&self) -> Delta {
        Delta {
            client_id: self.client_id@,
            round: self.round,
            weights: self.weights@,
            num_samples: self.num_samples,
            local_loss: self.local_loss,
        }
    }
}

/// What a batch of updates holds.
pub open spec fn batch_of(updates: Seq<ClientDelta>) -> Seq<Delta> {
    Seq::new(updates.len(), |i: int| updates[i]@)
}

/// Copies a vector of plain values.
pub fn copy_bytes(bytes: &Vec<u8>) -> (r: Vec<u8>)
    ensures
        r@ == bytes@,
{
    let mut out: Vec<u8> = Vec::with_capacity(bytes.len());
    let mut i: usize = 0;
    while i < bytes.len()
        invariant
            i <= bytes.len(),
            out@ == bytes@.take(i as int),
        decreases bytes.len() - i,
    {
        out.push(bytes[i]);
        proof {
            assert(out@ =~= bytes@.take(i + 1));
        }
        i = i + 1;
    }
    proof {
        assert(bytes@.take(i as int) =~= bytes@);
    }
    out
}

impl ClientDelta {
    /// The same update once more.
    pub fn duplicate(&self) -> (r: ClientDelta)
        ensures
            r@ == self@,
    {
        ClientDelta {
            client_id: self.client_id.clone(),
            round: self.round,
            weights: copy_bytes(&self.weights),
            num_samples: self.num_samples,
            local_loss: self.local_loss,
        }
    }
}

/// The updates at `indices`, in that order.
pub fn pick_updates(updates: &[ClientDelta], indices: &Vec<usize>) -> (r: Vec<ClientDelta>)
    requires
        forall|k: int| 0 <= k < indices.len() ==> #[trigger] indices[k] < updates.len(),
    ensures
        batch_of(r@) == picked(batch_of(updates@), indices@),
{
    let mut out: Vec<ClientDelta> = Vec::with_capacity(indices.len());
    let mut k: usize = 0;
    while k < indices.len()
        invariant
            k <= indices.len(),
            out.len() == k,
            forall|j: int| 0 <= j < indices.len() ==> #[trigger] indices[j] < updates.len(),
            forall|j: int| 0 <= j < k ==> (#[trigger] out[j])@ == updates[indices[j] as int]@,
        decreases indices.len() - k,
    {
        out.push(updates[indices[k]].duplicate());
        k = k + 1;
    }
    proof {
        assert(batch_of(out@) =~= picked(batch_of(updates@), indices@));
    }
    out
}

/// The updates of `batch` at `indices`, in that order.
pub open spec fn picked(batch: Seq<Delta>, indices: Seq<usize>) -> Seq<Delta> {
    Seq::new(indices.len(), |k: int| batch[indices[k] as int])
}

} // verus!
