//! Bounds on waiting and on what is sent.
use vstd::prelude::*;
use vstd::arithmetic::power2::*;
use crate::net::dispatcher::Refusal;
use crate::net::message::Chunk;
use crate::net::service::{counted, excess_from, first_excess, total_size};
use crate::node::retry::{wait_after, INITIAL_BACKOFF_MILLIS};

verus! {

/// The wait after an attempt is the first wait, doubled as often as attempts
/// failed before it.
pub proof fn waits_double(attempt: nat)
    requires
        attempt >= 1,
    ensures
        wait_after(attempt) == INITIAL_BACKOFF_MILLIS * pow2((attempt - 1) as nat),
    decreases attempt,
{
    lemma2_to64();
    if attempt > 1 {
        waits_double((attempt - 1) as nat);
        lemma_pow2_unfold((attempt - 1) as nat);
        let (a, p) = (INITIAL_BACKOFF_MILLIS as int, pow2((attempt - 2) as nat) as int);
        assert(2 * (a * p) == a * (2 * p)) by (nonlinear_arith);
    }
}

/// Whether `refusal` comes at piece `k`: up to it the pieces are within the
/// bound, and with it they are not.
pub open spec fn comes_at(chunks: Seq<Chunk>, limit: u64, refusal: Refusal, k: int) -> bool {
    &&& 0 <= k < chunks.len()
    &&& counted(chunks.take(k)) <= limit
    &&& limit < counted(chunks.take(k + 1))
    &&& refusal == Refusal::UpdateTooLarge {
        client_id: chunks[k].client_id,
        limit_bytes: limit,
        received_bytes: counted(chunks.take(k + 1)),
    }
}

/// A submission beyond the bound is refused at the first piece that takes it
/// there.
pub proof fn the_first_piece_too_many_is_refused(chunks: Seq<Chunk>, limit: u64)
    requires
        counted(chunks) > limit,
    ensures
        exists|k: int| comes_at(chunks, limit, first_excess(chunks, limit), k),
{
    assert(chunks.take(0) =~= Seq::empty());
    assert(total_size(chunks.take(0)) == 0);
    lemma_excess(chunks, limit, 0);
}

proof fn lemma_excess(chunks: Seq<Chunk>, limit: u64, k: int)
    requires
        counted(chunks) > limit,
        0 <= k <= chunks.len(),
        counted(chunks.take(k)) <= limit,
    ensures
        exists|j: int| comes_at(chunks, limit, excess_from(chunks, limit, k), j),
    decreases chunks.len() - k,
{
    if k == chunks.len() {
        assert(chunks.take(k) =~= chunks);
    } else if counted(chunks.take(k + 1)) > limit {
        assert(comes_at(chunks, limit, excess_from(chunks, limit, k), k));
    } else {
        lemma_excess(chunks, limit, k + 1);
    }
}

} // verus!
