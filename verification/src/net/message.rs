//! The messages of the transport.
use vstd::prelude::*;
use crate::delta::copy_bytes;

verus! {

/// One piece of a submitted update.
#[derive(Debug, Clone)]
pub struct DeltaChunk {
    /// Who submits it.
    pub client_id: String,
    /// The round it answers.
    pub round: u64,
    /// Its place among the pieces.
    pub chunk_index: u32,
    /// How many pieces there are.
    pub total_chunks: u32,
    /// The weights it carries.
    pub data: Vec<u8>,
    /// How many local samples the client says it trained on.
    pub num_samples: u64,
    /// The client's control variate, where its method has one.
    pub control_variate: Option<Vec<u8>>,
}

/// What a piece holds, as mathematical values.
pub struct Chunk {
    pub client_id: Seq<char>,
    pub round: u64,
    pub chunk_index: u32,
    pub total_chunks: u32,
    pub data: Seq<u8>,
    pub num_samples: u64,
    pub control_variate: Option<Seq<u8>>,
}

impl View for DeltaChunk {
    type V = Chunk;

    open spec fn view(&self) -> Chunk {
        Chunk {
            client_id: self.client_id@,
            round: self.round,
            chunk_index: self.chunk_index,
            total_chunks: self.total_chunks,
            data: self.data@,
            num_samples: self.num_samples,
            control_variate: match self.control_variate {
                None => None,
                Some(cv) => Some(cv@),
            },
        }
    }
}

/// What a list of pieces holds.
pub open spec fn chunks_of(v: Seq<DeltaChunk>) -> Seq<Chunk> {
    Seq::new(v.len(), |i: int| v[i]@)
}

impl Chunk {
    /// How many bytes the client put into the piece.
    pub open spec fn size(self) -> nat {
        self.data.len() + match self.control_variate {
            None => 0nat,
            Some(cv) => cv.len(),
        }
    }

    /// The same piece with other weights.
    pub open spec fn with_data(self, data: Seq<u8>) -> Chunk {
        Chunk { data, ..self }
    }
}

impl DeltaChunk {
    /// The same piece with other weights.
    pub fn carrying(&self, data: Vec<u8>) -> (r: DeltaChunk)
        ensures
            r@ == self@.with_data(data@),
    {
        DeltaChunk {
            client_id: self.client_id.clone(),
            round: self.round,
            chunk_index: self.chunk_index,
            total_chunks: self.total_chunks,
            data,
            num_samples: self.num_samples,
            control_variate: match &self.control_variate {
                None => None,
                Some(cv) => Some(copy_bytes(cv)),
            },
        }
    }
}

/// A round's work for a client.
#[derive(Debug, Clone)]
pub struct TaskResponse {
    pub task_id: String,
    pub round: u64,
    pub model_weights: Vec<u8>,
}

/// The answer to a submission.
#[derive(Debug, Clone)]
pub struct SubmitAck {
    pub accepted: bool,
    pub message: String,
}

/// The answer to a registration.
#[derive(Debug, Clone)]
pub struct RegisterResponse {
    pub accepted: bool,
    pub message: String,
}

/// The answer to a heartbeat.
#[derive(Debug, Clone, Copy)]
pub struct HeartbeatResponse {
    pub acknowledged: bool,
}

} // verus!
