//! What a trusted-reference sidecar can do, and whether its answer is for the
//! round that was asked.
use vstd::prelude::*;
use crate::text::{decimal, decimal_text};

verus! {

/// What a sidecar says it can do.
#[derive(Debug, Clone, PartialEq, Eq)]
pub struct SidecarCapabilities {
    /// Whether it trains reference updates.
    pub supports_reference_update: bool,
    /// Whether it scores candidates.
    pub supports_scoring: bool,
    /// How many weights its model has, where it knows.
    pub model_dim: Option<u64>,
    /// Free text for logs.
    pub description: String,
}

/// An answer for another round than the one that was asked.
#[derive(Debug, Clone, Copy, PartialEq, Eq, Structural)]
pub struct StaleSidecarResponse {
    /// The round that was asked.
    pub expected: u64,
    /// The round that was answered.
    pub got: u64,
}

impl StaleSidecarResponse {
    /// The error in words.
    pub fn message(&self) -> (r: String)
        ensures
            r@ == "trusted-reference sidecar answered for round "@ + decimal(self.got as nat)
                + ", but round "@ + decimal(self.expected as nat)
                + " was asked — a reference from the wrong round is a well-formed vector of the right length, so using it would weaken the defense silently rather than fail"@,
    {
        "trusted-reference sidecar answered for round ".to_owned().concat(
            decimal_text(self.got).as_str(),
        ).concat(", but round ").concat(decimal_text(self.expected).as_str()).concat(
            " was asked — a reference from the wrong round is a well-formed vector of the right length, so using it would weaken the defense silently rather than fail",
        )
    }
}

/// A sidecar's answer, if it is for the round that was asked.
pub fn answer_for_round<T>(asked: u64, answered: u64, answer: T) -> (r: Result<
    T,
    StaleSidecarResponse,
>)
    ensures
        match r {
            Ok(a) => asked == answered && a == answer,
            Err(e) => asked != answered && e == (StaleSidecarResponse {
                expected: asked,
                got: answered,
            }),
        },
{
    if answered != asked {
        Err(StaleSidecarResponse { expected: asked, got: answered })
    } else {
        Ok(answer)
    }
}

} // verus!
