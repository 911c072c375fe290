//! The server side of the transport: collecting a submission within bounds.
use vstd::prelude::*;
use std::sync::Arc;
use crate::net::dispatcher::{DispatchError, Refusal};
use crate::net::message::{chunks_of, Chunk, DeltaChunk};

verus! {

/// The bound where none is chosen: 256 MiB.
pub const DEFAULT_MAX_UPDATE_BYTES: u64 = 268_435_456;

/// A dispatcher and the largest update one client may submit.
pub struct FlTransportService<D> {
    pub dispatcher: Arc<D>,
    pub max_update_bytes: u64,
}

impl<D> FlTransportService<D> {
    /// Bounds submissions at the default.
    pub fn new(dispatcher: Arc<D>) -> (r: FlTransportService<D>)
        ensures
            r.dispatcher == dispatcher,
            r.max_update_bytes == DEFAULT_MAX_UPDATE_BYTES,
    {
        FlTransportService { dispatcher, max_update_bytes: DEFAULT_MAX_UPDATE_BYTES }
    }

    /// Bounds submissions at `max_update_bytes`.
    pub fn with_max_update_bytes(self, max_update_bytes: u64) -> (r: FlTransportService<D>)
        ensures
            r.dispatcher == self.dispatcher,
            r.max_update_bytes == max_update_bytes,
    {
        FlTransportService { dispatcher: self.dispatcher, max_update_bytes }
    }

    /// An empty submission under this service's bound.
    pub fn open_intake(&self) -> (r: Intake)
        ensures
            r.well_formed(),
            r.limit_bytes == self.max_update_bytes,
            chunks_of(r.chunks@) == Seq::<Chunk>::empty(),
    {
        let r: Intake = Intake {
            limit_bytes: self.max_update_bytes,
            received_bytes: 0,
            chunks: Vec::new(),
        };
        proof {
            assert(chunks_of(r.chunks@) =~= Seq::empty());
        }
        r
    }

    /// Takes a whole submission, or refuses it at the first piece that
    /// exceeds the bound.
    pub fn collect(&self, chunks: Vec<DeltaChunk>) -> (r: Result<Vec<DeltaChunk>, DispatchError>)
        ensures
            match r {
                Ok(v) => v@ == chunks@ && counted(chunks_of(chunks@)) <= self.max_update_bytes,
                Err(e) => counted(chunks_of(chunks@)) > self.max_update_bytes && e@
                    == first_excess(chunks_of(chunks@), self.max_update_bytes),
            },
    {
        let ghost all = chunks_of(chunks@);
        let mut total: u64 = 0;
        let mut k: usize = 0;
        while k < chunks.len()
            invariant
                k <= chunks.len(),
                all == chunks_of(chunks@),
                total == counted(all.take(k as int)),
                total <= self.max_update_bytes,
            decreases chunks.len() - k,
        {
            proof {
                assert(all.take(k + 1).drop_last() =~= all.take(k as int));
                assert(all.take(k + 1).last() == chunks[k as int]@);
            }
            let next: u64 = add_size(total, &chunks[k]);
            if next > self.max_update_bytes {
                proof {
                    lemma_prefix_smaller(all, k + 1);
                    lemma_first_excess(all, self.max_update_bytes, k as int, 0);
                }
                return Err(
                    DispatchError::UpdateTooLarge {
                        client_id: chunks[k].client_id.clone(),
                        limit_bytes: self.max_update_bytes,
                        received_bytes: next,
                    },
                );
            }
            total = next;
            k = k + 1;
        }
        proof {
            assert(all.take(k as int) =~= all);
        }
        Ok(chunks)
    }
}

/// How many bytes pieces hold together.
pub open spec fn total_size(chunks: Seq<Chunk>) -> nat
    decreases chunks.len(),
{
    if chunks.len() == 0 {
        0
    } else {
        total_size(chunks.drop_last()) + chunks.last().size()
    }
}

/// `n`, or the largest 64-bit number where it exceeds that.
pub open spec fn saturated(n: nat) -> u64 {
    if n > u64::MAX {
        u64::MAX
    } else {
        n as u64
    }
}

/// How many bytes are counted: as far as a 64-bit counter goes.
pub open spec fn counted(chunks: Seq<Chunk>) -> u64 {
    saturated(total_size(chunks))
}

/// The refusal at the first piece, from `k` on, that takes the total beyond
/// the bound.
pub open spec fn excess_from(chunks: Seq<Chunk>, limit: u64, k: int) -> Refusal
    decreases chunks.len() - k,
{
    let sum = counted(chunks.take(k + 1));
    if sum > limit || k >= chunks.len() {
        Refusal::UpdateTooLarge {
            client_id: chunks[k].client_id,
            limit_bytes: limit,
            received_bytes: sum,
        }
    } else {
        excess_from(chunks, limit, k + 1)
    }
}

/// The refusal at the first piece that takes the total beyond the bound.
pub open spec fn first_excess(chunks: Seq<Chunk>, limit: u64) -> Refusal {
    excess_from(chunks, limit, 0)
}

proof fn lemma_prefix_smaller(chunks: Seq<Chunk>, k: int)
    requires
        0 <= k <= chunks.len(),
    ensures
        total_size(chunks.take(k)) <= total_size(chunks),
    decreases chunks.len() - k,
{
    if k < chunks.len() {
        lemma_prefix_smaller(chunks, k + 1);
        assert(chunks.take(k + 1).drop_last() =~= chunks.take(k));
    } else {
        assert(chunks.take(k) =~= chunks);
    }
}

proof fn lemma_first_excess(chunks: Seq<Chunk>, limit: u64, k: int, from: int)
    requires
        0 <= from <= k < chunks.len(),
        counted(chunks.take(k)) <= limit,
        counted(chunks.take(k + 1)) > limit,
    ensures
        excess_from(chunks, limit, from) == (Refusal::UpdateTooLarge {
            client_id: chunks[k].client_id,
            limit_bytes: limit,
            received_bytes: counted(chunks.take(k + 1)),
        }),
    decreases k - from,
{
    if from < k {
        let t = chunks.take(k);
        lemma_prefix_smaller(t, from + 1);
        assert(t.take(from + 1) =~= chunks.take(from + 1));
        lemma_first_excess(chunks, limit, k, from + 1);
    }
}

fn saturating_sum(a: u64, b: u64) -> (r: u64)
    ensures
        r == saturated((a + b) as nat),
{
    if b > 0xffff_ffff_ffff_ffff - a {
        0xffff_ffff_ffff_ffff
    } else {
        a + b
    }
}

fn add_size(total: u64, chunk: &DeltaChunk) -> (r: u64)
    ensures
        r == saturated(total as nat + chunk@.size()),
{
    let with_data: u64 = saturating_sum(total, chunk.data.len() as u64);
    match &chunk.control_variate {
        None => with_data,
        Some(cv) => saturating_sum(with_data, cv.len() as u64),
    }
}

/// A submission while its pieces arrive.
pub struct Intake {
    pub limit_bytes: u64,
    pub received_bytes: u64,
    /// The pieces taken so far.
    pub chunks: Vec<DeltaChunk>,
}

impl Intake {
    /// The count is right and within the bound.
    pub open spec fn well_formed(&self) -> bool {
        &&& self.received_bytes == counted(chunks_of(self.chunks@))
        &&& self.received_bytes <= self.limit_bytes
    }

    /// Takes the next piece, or refuses it and keeps what came before. Every
    /// byte the client put into the piece counts.
    pub fn accept(&mut self, chunk: DeltaChunk) -> (r: Result<(), DispatchError>)
        requires
            old(self).well_formed(),
        ensures
            final(self).well_formed(),
            final(self).limit_bytes == old(self).limit_bytes,
            match r {
                Ok(_) => counted(chunks_of(old(self).chunks@).push(chunk@))
                    <= old(self).limit_bytes && final(self).chunks@ == old(self).chunks@.push(
                    chunk,
                ),
                Err(e) => {
                    &&& counted(chunks_of(old(self).chunks@).push(chunk@))
                        > old(self).limit_bytes
                    &&& final(self).chunks@ == old(self).chunks@
                    &&& e@ == (Refusal::UpdateTooLarge {
                        client_id: chunk@.client_id,
                        limit_bytes: old(self).limit_bytes,
                        received_bytes: counted(chunks_of(old(self).chunks@).push(chunk@)),
                    })
                },
            },
    {
        proof {
            let after = chunks_of(self.chunks@).push(chunk@);
            assert(after.drop_last() =~= chunks_of(self.chunks@));
        }
        let next: u64 = add_size(self.received_bytes, &chunk);
        if next > self.limit_bytes {
            return Err(
                DispatchError::UpdateTooLarge {
                    client_id: chunk.client_id,
                    limit_bytes: self.limit_bytes,
                    received_bytes: next,
                },
            );
        }
        let ghost before = chunks_of(self.chunks@);
        self.received_bytes = next;
        self.chunks.push(chunk);
        proof {
            let after = chunks_of(self.chunks@);
            assert(after =~= before.push(chunk@));
        }
        Ok(())
    }
}

} // verus!
