//! What can go wrong in answering a request, and how a caller is told.
use vstd::prelude::*;
use crate::text::{decimal, decimal_text};

verus! {

/// Every error a dispatcher can return.
#[derive(Debug)]
pub enum DispatchError {
    /// The client is not registered.
    UnknownClient(String),
    /// The client's identity is known and not invited.
    NotAllowed(String),
    /// The client's identity could not be established.
    Unauthenticated(String),
    /// The round of a submission has closed; the caller should fetch the
    /// current task and submit again.
    RoundClosed,
    /// A submission exceeds what one client may send. The client is the one
    /// the submission names; nothing has verified it.
    UpdateTooLarge {
        client_id: String,
        limit_bytes: u64,
        received_bytes: u64,
    },
    /// Anything else.
    Other(String),
}

/// What a dispatch error says, as mathematical values.
pub enum Refusal {
    UnknownClient(Seq<char>),
    NotAllowed(Seq<char>),
    Unauthenticated(Seq<char>),
    RoundClosed,
    UpdateTooLarge { client_id: Seq<char>, limit_bytes: u64, received_bytes: u64 },
    Other(Seq<char>),
}

impl View for DispatchError {
    type V = Refusal;

    open spec fn view(&self) -> Refusal {
        match *self {
            DispatchError::UnknownClient(id) => Refusal::UnknownClient(id@),
            DispatchError::NotAllowed(id) => Refusal::NotAllowed(id@),
            DispatchError::Unauthenticated(m) => Refusal::Unauthenticated(m@),
            DispatchError::RoundClosed => Refusal::RoundClosed,
            DispatchError::UpdateTooLarge { client_id, limit_bytes, received_bytes } => Refusal::UpdateTooLarge {
                client_id: client_id@,
                limit_bytes,
                received_bytes,
            },
            DispatchError::Other(m) => Refusal::Other(m@),
        }
    }
}

/// The status codes a dispatch error is answered with.
#[derive(Debug, Clone, Copy, PartialEq, Eq, Structural)]
pub enum StatusCode {
    NotFound,
    PermissionDenied,
    Unauthenticated,
    FailedPrecondition,
    ResourceExhausted,
    Internal,
}

/// A status code and its message.
#[derive(Debug)]
pub struct RpcStatus {
    pub code: StatusCode,
    pub message: String,
}

/// What is said of a closed round.
pub const ROUND_CLOSED_TEXT: &'static str = "this round already closed; fetch the current task and resubmit";

impl Refusal {
    /// The status code of the answer.
    pub open spec fn code(self) -> StatusCode {
        match self {
            Refusal::UnknownClient(_) => StatusCode::NotFound,
            Refusal::NotAllowed(_) => StatusCode::PermissionDenied,
            Refusal::Unauthenticated(_) => StatusCode::Unauthenticated,
            Refusal::RoundClosed => StatusCode::FailedPrecondition,
            Refusal::UpdateTooLarge { .. } => StatusCode::ResourceExhausted,
            Refusal::Other(_) => StatusCode::Internal,
        }
    }

    /// What is said of an oversized update.
    pub open spec fn too_large_text(id: Seq<char>, limit: u64, received: u64) -> Seq<char> {
        "update from client "@ + id + " exceeds the limit of "@ + decimal(limit as nat)
            + " bytes ("@ + decimal(received as nat) + " received)"@
    }

    /// The message of the answer.
    pub open spec fn answer(self) -> Seq<char> {
        match self {
            Refusal::UnknownClient(id) => "unknown client "@ + id,
            Refusal::NotAllowed(id) => "client "@ + id + " is not on the node allow-list"@,
            Refusal::Unauthenticated(m) => m,
            Refusal::RoundClosed => ROUND_CLOSED_TEXT@,
            Refusal::UpdateTooLarge { client_id, limit_bytes, received_bytes } => Refusal::too_large_text(
                client_id,
                limit_bytes,
                received_bytes,
            ),
            Refusal::Other(m) => m,
        }
    }

    /// The error in words.
    pub open spec fn text(self) -> Seq<char> {
        match self {
            Refusal::UnknownClient(id) => "client "@ + id + " is not registered"@,
            Refusal::NotAllowed(id) => "client "@ + id + " is not on the node allow-list"@,
            Refusal::Unauthenticated(m) => "authentication failed: "@ + m,
            Refusal::RoundClosed => ROUND_CLOSED_TEXT@,
            Refusal::UpdateTooLarge { client_id, limit_bytes, received_bytes } => Refusal::too_large_text(
                client_id,
                limit_bytes,
                received_bytes,
            ),
            Refusal::Other(m) => "dispatch failed: "@ + m,
        }
    }
}

fn too_large_message(id: &String, limit: u64, received: u64) -> (r: String)
    ensures
        r@ == Refusal::too_large_text(id@, limit, received),
{
    "update from client ".to_owned().concat(id.as_str()).concat(" exceeds the limit of ").concat(
        decimal_text(limit).as_str(),
    ).concat(" bytes (").concat(decimal_text(received).as_str()).concat(" received)")
}

impl DispatchError {
    /// The status a caller gets.
    pub fn to_status(&self) -> (r: RpcStatus)
        ensures
            r.code == self@.code(),
            r.message@ == self@.answer(),
    {
        match self {
            DispatchError::UnknownClient(id) => RpcStatus {
                code: StatusCode::NotFound,
                message: "unknown client ".to_owned().concat(id.as_str()),
            },
            DispatchError::NotAllowed(id) => RpcStatus {
                code: StatusCode::PermissionDenied,
                message: "client ".to_owned().concat(id.as_str()).concat(
                    " is not on the node allow-list",
                ),
            },
            DispatchError::Unauthenticated(m) => RpcStatus {
                code: StatusCode::Unauthenticated,
                message: m.clone(),
            },
            DispatchError::RoundClosed => RpcStatus {
                code: StatusCode::FailedPrecondition,
                message: ROUND_CLOSED_TEXT.to_owned(),
            },
            DispatchError::UpdateTooLarge { client_id, limit_bytes, received_bytes } => RpcStatus {
                code: StatusCode::ResourceExhausted,
                message: too_large_message(client_id, *limit_bytes, *received_bytes),
            },
            DispatchError::Other(m) => RpcStatus { code: StatusCode::Internal, message: m.clone() },
        }
    }

    /// The error in words.
    pub fn message(&self) -> (r: String)
        ensures
            r@ == self@.text(),
    {
        match self {
            DispatchError::UnknownClient(id) => "client ".to_owned().concat(id.as_str()).concat(
                " is not registered",
            ),
            DispatchError::NotAllowed(id) => "client ".to_owned().concat(id.as_str()).concat(
                " is not on the node allow-list",
            ),
            DispatchError::Unauthenticated(m) => "authentication failed: ".to_owned().concat(
                m.as_str(),
            ),
            DispatchError::RoundClosed => ROUND_CLOSED_TEXT.to_owned(),
            DispatchError::UpdateTooLarge { client_id, limit_bytes, received_bytes } => too_large_message(
                client_id,
                *limit_bytes,
                *received_bytes,
            ),
            DispatchError::Other(m) => "dispatch failed: ".to_owned().concat(m.as_str()),
        }
    }
}

} // verus!
