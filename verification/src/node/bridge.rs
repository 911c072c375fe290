//! Bridging the local hop to the server.
use vstd::prelude::*;
use crate::delta::copy_bytes;
use crate::float::binary32::Binary32;
use crate::float::binary64::Binary64;
use crate::net::dispatcher::{DispatchError, Refusal};
use crate::net::message::{chunks_of, Chunk, DeltaChunk, HeartbeatResponse, RegisterResponse};
use crate::order::{as_ranks, order_by_rank, stable_order};
use crate::privacy::mechanism::{GaussianClippingPrivacy, PrivacyMechanism};
use crate::text::{decimal, decimal_text};
use crate::weights::{decode_buffer, decoded, encode_weights, encoded};

verus! {

/// How a node learns of its tasks.
#[derive(Debug, Clone, Copy, PartialEq, Eq, Structural)]
pub enum ConnectionMode {
    /// The server streams tasks to the node.
    Push,
    /// The node asks when it is ready.
    Pull,
}

impl ConnectionMode {
    /// The mode's name.
    pub fn as_str(&self) -> (r: &'static str)
        ensures
            r@ == match *self {
                ConnectionMode::Push => "push"@,
                ConnectionMode::Pull => "pull"@,
            },
    {
        match self {
            ConnectionMode::Push => "push",
            ConnectionMode::Pull => "pull",
        }
    }
}

/// What is said when a push node is asked for a task.
pub const PUSH_HAS_NO_FETCH: &'static str = "this conflux-node is running in push mode, where the server streams tasks rather than answering fetch_task — call subscribe_tasks instead, or start the node with CONFLUX_CONNECTION_MODE=pull";

/// What is said when a pull node is asked for a subscription.
pub const PULL_HAS_NO_STREAM: &'static str = "this conflux-node is running in pull mode, which has no server-pushed task stream — call fetch_task instead, or start the node with CONFLUX_CONNECTION_MODE=push";

/// What is said to a local registration.
pub const ALREADY_REGISTERED: &'static str = "conflux-node already registered with the real server";

/// Whether a task can be fetched in a mode.
pub fn may_fetch(mode: ConnectionMode) -> (r: Result<(), DispatchError>)
    ensures
        match r {
            Ok(_) => mode == ConnectionMode::Pull,
            Err(e) => mode == ConnectionMode::Push && e@ == Refusal::Other(PUSH_HAS_NO_FETCH@),
        },
{
    match mode {
        ConnectionMode::Pull => Ok(()),
        ConnectionMode::Push => Err(DispatchError::Other(PUSH_HAS_NO_FETCH.to_owned())),
    }
}

/// Whether tasks can be subscribed to in a mode.
pub fn may_subscribe(mode: ConnectionMode) -> (r: Result<(), DispatchError>)
    ensures
        match r {
            Ok(_) => mode == ConnectionMode::Push,
            Err(e) => mode == ConnectionMode::Pull && e@ == Refusal::Other(PULL_HAS_NO_STREAM@),
        },
{
    match mode {
        ConnectionMode::Push => Ok(()),
        ConnectionMode::Pull => Err(DispatchError::Other(PULL_HAS_NO_STREAM.to_owned())),
    }
}

/// The answer to a local registration: the node has registered already.
pub fn local_registration() -> (r: RegisterResponse)
    ensures
        r.accepted,
        r.message@ == ALREADY_REGISTERED@,
{
    RegisterResponse { accepted: true, message: ALREADY_REGISTERED.to_owned() }
}

/// The answer to a local heartbeat.
pub fn local_heartbeat() -> (r: HeartbeatResponse)
    ensures
        r.acknowledged,
{
    HeartbeatResponse { acknowledged: true }
}

/// The places of pieces.
pub open spec fn places(chunks: Seq<Chunk>) -> Seq<int> {
    Seq::new(chunks.len(), |i: int| chunks[i].chunk_index as int)
}

/// Pieces in the order of their places, equal places in the order given.
pub open spec fn in_place_order(chunks: Seq<Chunk>) -> Seq<Chunk> {
    let p = stable_order(places(chunks));
    Seq::new(chunks.len(), |k: int| chunks[p[k] as int])
}

/// The bytes of pieces, one after the other.
pub open spec fn joined_data(chunks: Seq<Chunk>) -> Seq<u8>
    decreases chunks.len(),
{
    if chunks.len() == 0 {
        Seq::empty()
    } else {
        joined_data(chunks.drop_last()) + chunks.last().data
    }
}

/// `chunks` with `bytes` cut to their lengths in place of their own.
pub open spec fn redistributed(chunks: Seq<Chunk>, bytes: Seq<u8>) -> Seq<Chunk> {
    Seq::new(
        chunks.len(),
        |k: int|
            chunks[k].with_data(
                bytes.subrange(
                    joined_data(chunks.take(k)).len() as int,
                    (joined_data(chunks.take(k)).len() + chunks[k].data.len()) as int,
                ),
            ),
    )
}

/// What is said of a submission that is not a whole number of weights.
pub open spec fn undecodable_text(len: nat) -> Seq<char> {
    "client-side privacy transform could not decode this submission's weights: "@ + decimal(len)
        + " bytes is not a multiple of 4"@
}

/// A submission after the mechanism has been applied to the whole of it: the
/// pieces in the order of their places, their lengths as they were.
pub open spec fn privatized(
    mechanism: GaussianClippingPrivacy,
    chunks: Seq<Chunk>,
    noise: Seq<Binary64>,
) -> Result<Seq<Chunk>, Refusal> {
    let sorted = in_place_order(chunks);
    let bytes = joined_data(sorted);
    if bytes.len() % 4 != 0 {
        Err(Refusal::Other(undecodable_text(bytes.len())))
    } else {
        Ok(
            redistributed(
                sorted,
                encoded(mechanism.transformed(decoded(bytes), noise)),
            ),
        )
    }
}

/// A submission after the optional transform.
pub open spec fn submission(
    mechanism: Option<GaussianClippingPrivacy>,
    chunks: Seq<Chunk>,
    noise: Seq<Binary64>,
) -> Result<Seq<Chunk>, Refusal> {
    match mechanism {
        None => Ok(chunks),
        Some(m) => privatized(m, chunks, noise),
    }
}

/// How many samples of noise a submission takes: one for each of its weights.
pub open spec fn samples_for(chunks: Seq<Chunk>) -> nat {
    joined_data(chunks).len() / 4
}

proof fn lemma_joined_prefix(chunks: Seq<Chunk>, k: int)
    requires
        0 <= k < chunks.len(),
    ensures
        joined_data(chunks.take(k + 1)) == joined_data(chunks.take(k)) + chunks[k].data,
        joined_data(chunks.take(k + 1)).len() <= joined_data(chunks).len(),
    decreases chunks.len() - k,
{
    assert(chunks.take(k + 1).drop_last() =~= chunks.take(k));
    if k + 1 < chunks.len() {
        lemma_joined_prefix(chunks, k + 1);
    } else {
        assert(chunks.take(k + 1) =~= chunks);
    }
}

fn sort_chunks(chunks: &Vec<DeltaChunk>) -> (r: Vec<usize>)
    ensures
        r@ == stable_order(places(chunks_of(chunks@))),
        r.len() == chunks.len(),
        forall|k: int| 0 <= k < r.len() ==> #[trigger] r[k] < chunks.len(),
{
    let mut ranks: Vec<i64> = Vec::with_capacity(chunks.len());
    let mut i: usize = 0;
    while i < chunks.len()
        invariant
            i <= chunks.len(),
            ranks.len() == i,
            forall|k: int| 0 <= k < i ==> #[trigger] ranks[k] == chunks[k].chunk_index,
        decreases chunks.len() - i,
    {
        ranks.push(chunks[i].chunk_index as i64);
        i = i + 1;
    }
    proof {
        assert(as_ranks(ranks@) =~= places(chunks_of(chunks@)));
    }
    order_by_rank(&ranks)
}

/// A submission put together: its pieces in the order of their places, and
/// the weights they hold.
pub struct Assembled {
    pub chunks: Vec<DeltaChunk>,
    pub weights: Vec<Binary32>,
}

impl Assembled {
    /// The pieces hold exactly the weights.
    pub open spec fn well_formed(&self) -> bool {
        &&& joined_data(chunks_of(self.chunks@)).len() % 4 == 0
        &&& joined_data(chunks_of(self.chunks@)).len() <= usize::MAX
        &&& self.weights@ == decoded(joined_data(chunks_of(self.chunks@)))
    }

    /// How many samples of noise the submission takes.
    pub fn weight_count(&self) -> (r: usize)
        requires
            self.well_formed(),
        ensures
            r as nat == samples_for(chunks_of(self.chunks@)),
    {
        self.weights.len()
    }

    /// Applies a mechanism to the whole submission and cuts the result at the
    /// old boundaries.
    pub fn transformed(self, mechanism: &GaussianClippingPrivacy, noise: &[Binary64]) -> (r: Vec<
        DeltaChunk,
    >)
        requires
            self.well_formed(),
            mechanism.deviation() is Some ==> noise.len() == self.weights.len(),
        ensures
            chunks_of(r@) == redistributed(
                chunks_of(self.chunks@),
                encoded(mechanism.transformed(self.weights@, noise@)),
            ),
    {
        let chunks: Vec<DeltaChunk> = self.chunks;
        let mut weights: Vec<Binary32> = self.weights;
        let ghost sorted = chunks_of(chunks@);
        let ghost before = weights@;
        mechanism.transform(&mut weights, noise);
        proof {
            assert(mechanism.clipped(before).len() == before.len());
            assert(mechanism.transformed(before, noise@).len() == before.len());
        }
        let bytes: Vec<u8> = encode_weights(weights.as_slice());
        let ghost goal = redistributed(sorted, bytes@);
        let mut out: Vec<DeltaChunk> = Vec::with_capacity(chunks.len());
        let mut offset: usize = 0;
        let mut j: usize = 0;
        proof {
            assert(joined_data(sorted.take(0)) =~= Seq::empty());
        }
        while j < chunks.len()
            invariant
                j <= chunks.len(),
                sorted == chunks_of(chunks@),
                bytes.len() == joined_data(sorted).len(),
                offset as nat == joined_data(sorted.take(j as int)).len(),
                goal == redistributed(sorted, bytes@),
                out.len() == j,
                forall|i: int| 0 <= i < j ==> (#[trigger] out[i])@ == goal[i],
            decreases chunks.len() - j,
        {
            proof {
                lemma_joined_prefix(sorted, j as int);
                assert(sorted[j as int] == chunks[j as int]@);
            }
            let len: usize = chunks[j].data.len();
            let piece: Vec<u8> = cut(&bytes, offset, len);
            out.push(chunks[j].carrying(piece));
            offset = offset + len;
            j = j + 1;
        }
        proof {
            assert(chunks_of(out@) =~= goal);
        }
        out
    }
}

/// Puts a submission together.
pub fn assemble(chunks: Vec<DeltaChunk>) -> (r: Result<Assembled, DispatchError>)
    ensures
        match r {
            Ok(a) => a.well_formed() && chunks_of(a.chunks@) == in_place_order(
                chunks_of(chunks@),
            ),
            Err(e) => {
                let bytes = joined_data(in_place_order(chunks_of(chunks@)));
                bytes.len() % 4 != 0 && e@ == Refusal::Other(undecodable_text(bytes.len()))
            },
        },
{
    let ghost given = chunks_of(chunks@);
    let ghost sorted = in_place_order(given);
    let order: Vec<usize> = sort_chunks(&chunks);
    let mut bytes: Vec<u8> = Vec::new();
    let mut placed: Vec<DeltaChunk> = Vec::with_capacity(chunks.len());
    let mut k: usize = 0;
    proof {
        assert(joined_data(sorted.take(0)) =~= Seq::empty());
    }
    while k < order.len()
        invariant
            k <= order.len(),
            order.len() == chunks.len(),
            given == chunks_of(chunks@),
            sorted == in_place_order(given),
            order@ == stable_order(places(given)),
            forall|j: int| 0 <= j < order.len() ==> #[trigger] order[j] < chunks.len(),
            bytes@ == joined_data(sorted.take(k as int)),
            placed.len() == k,
            forall|j: int| 0 <= j < k ==> (#[trigger] placed[j])@ == sorted[j],
        decreases order.len() - k,
    {
        proof {
            lemma_joined_prefix(sorted, k as int);
            assert(sorted[k as int] == chunks[order[k as int] as int]@);
        }
        let at: usize = order[k];
        let mut piece: Vec<u8> = copy_bytes(&chunks[at].data);
        placed.push(chunks[at].carrying(copy_bytes(&chunks[at].data)));
        bytes.append(&mut piece);
        k = k + 1;
    }
    proof {
        assert(sorted.take(k as int) =~= sorted);
        assert(chunks_of(placed@) =~= sorted);
    }
    match decode_buffer(bytes.as_slice()) {
        Some(weights) => Ok(Assembled { chunks: placed, weights }),
        None => Err(
            DispatchError::Other(
                "client-side privacy transform could not decode this submission's weights: ".to_owned().concat(
                    decimal_text(bytes.len() as u64).as_str(),
                ).concat(" bytes is not a multiple of 4"),
            ),
        ),
    }
}

/// Applies the optional transform to a whole submission. The noise holds one
/// sample for each weight where the mechanism has noise.
pub fn apply_local_privacy(
    mechanism: Option<GaussianClippingPrivacy>,
    chunks: Vec<DeltaChunk>,
    noise: &[Binary64],
) -> (r: Result<Vec<DeltaChunk>, DispatchError>)
    requires
        mechanism is Some && mechanism->0.deviation() is Some ==> noise.len() == samples_for(
            in_place_order(chunks_of(chunks@)),
        ),
    ensures
        match (r, submission(mechanism, chunks_of(chunks@), noise@)) {
            (Ok(v), Ok(s)) => chunks_of(v@) == s,
            (Err(e), Err(f)) => e@ == f,
            _ => false,
        },
{
    match mechanism {
        None => Ok(chunks),
        Some(m) => match assemble(chunks) {
            Ok(a) => Ok(a.transformed(&m, noise)),
            Err(e) => Err(e),
        },
    }
}

fn cut(bytes: &Vec<u8>, from: usize, len: usize) -> (r: Vec<u8>)
    requires
        from + len <= bytes.len(),
    ensures
        r@ == bytes@.subrange(from as int, from + len),
{
    let mut out: Vec<u8> = Vec::with_capacity(len);
    let mut i: usize = 0;
    while i < len
        invariant
            i <= len,
            from + len <= bytes.len(),
            out@ == bytes@.subrange(from as int, from + i),
        decreases len - i,
    {
        out.push(bytes[from + i]);
        proof {
            assert(out@ =~= bytes@.subrange(from as int, from + i + 1));
        }
        i = i + 1;
    }
    out
}


/// A transformed submission has as many pieces as before, each with the
/// place, the length and everything else it had but its weights; and put
/// together it is the transform of what was put together before.
pub proof fn the_transform_keeps_the_shape(
    mechanism: GaussianClippingPrivacy,
    chunks: Seq<Chunk>,
    noise: Seq<Binary64>,
)
    requires
        privatized(mechanism, chunks, noise) is Ok,
    ensures
        ({
            let before = in_place_order(chunks);
            let after = privatized(mechanism, chunks, noise)->Ok_0;
            &&& after.len() == chunks.len()
            &&& forall|k: int|
                0 <= k < after.len() ==> (#[trigger] after[k]).data.len() == before[k].data.len()
                    && after[k] == before[k].with_data(after[k].data)
            &&& joined_data(after) == encoded(
                mechanism.transformed(decoded(joined_data(before)), noise),
            )
        }),
{
    let before = in_place_order(chunks);
    let bytes = encoded(mechanism.transformed(decoded(joined_data(before)), noise));
    let after = redistributed(before, bytes);
    assert(bytes.len() == joined_data(before).len());
    assert forall|k: int| 0 <= k < after.len() implies (#[trigger] after[k]).data.len()
        == before[k].data.len() by {
        lemma_joined_prefix(before, k);
    }
    lemma_redistributed_joins(before, bytes, before.len() as int);
    assert(after.take(after.len() as int) =~= after);
    assert(before.take(before.len() as int) =~= before);
    assert(bytes.take(bytes.len() as int) =~= bytes);
}

proof fn lemma_redistributed_joins(chunks: Seq<Chunk>, bytes: Seq<u8>, k: int)
    requires
        0 <= k <= chunks.len(),
        bytes.len() == joined_data(chunks).len(),
    ensures
        joined_data(redistributed(chunks, bytes).take(k)) == bytes.take(
            joined_data(chunks.take(k)).len() as int,
        ),
    decreases k,
{
    let after = redistributed(chunks, bytes);
    if k == 0 {
        assert(after.take(0) =~= Seq::empty());
        assert(chunks.take(0) =~= Seq::empty());
        assert(bytes.take(0) =~= Seq::empty());
    } else {
        lemma_redistributed_joins(chunks, bytes, k - 1);
        lemma_joined_prefix(chunks, k - 1);
        assert(after.take(k).drop_last() =~= after.take(k - 1));
        let from = joined_data(chunks.take(k - 1)).len() as int;
        let to = joined_data(chunks.take(k)).len() as int;
        assert(after.take(k).last().data == bytes.subrange(from, to));
        assert(bytes.take(from) + bytes.subrange(from, to) =~= bytes.take(to));
    }
}

} // verus!
