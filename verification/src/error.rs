//! Why a batch could not be aggregated.
use vstd::prelude::*;
use crate::text::{decimal, decimal_text};

verus! {

/// Why a batch could not be aggregated. Every variant is a rejection, never
/// a repair.
#[derive(Debug)]
#[allow(inconsistent_fields)]
pub enum AggregatorError {
    /// There was nothing to aggregate.
    EmptyBatch,
    /// A client submitted a NaN or an infinity.
    NonFiniteWeights {
        /// Which client sent it.
        client_id: String,
        /// The first such coordinate.
        index: usize,
    },
    /// A client reported a sample count that cannot be a real one.
    ImplausibleSampleCount {
        /// Which client reported it.
        client_id: String,
        /// The count it claimed.
        got: u64,
        /// The largest count treated as possible.
        max: u64,
    },
    /// Updates of one batch disagree about the model's dimension.
    MismatchedLength {
        /// The client whose update has another length.
        client_id: String,
        /// The dimension of the batch's first update.
        expected: usize,
        /// This update's dimension.
        got: usize,
    },
    /// A weight buffer is not a whole number of weights.
    MalformedWeights {
        /// Which client sent it.
        client_id: String,
        /// The buffer's length in bytes.
        len: usize,
    },
    /// A method that scores against a trusted reference was given none.
    MissingTrustedReference,
    /// The trusted reference does not have the batch's dimension.
    TrustedReferenceDimension {
        /// The batch's dimension.
        expected: usize,
        /// The supplied global model's dimension.
        global: usize,
        /// The supplied reference's dimension.
        reference: usize,
    },
    /// A method that ranks by candidate scores was given none.
    MissingCandidateScores,
    /// The scored model does not have the batch's dimension.
    CandidateScoresDimension {
        /// The batch's dimension.
        expected: usize,
        /// The supplied global model's dimension.
        got: usize,
    },
    /// A client of the batch has no score.
    UnscoredClient {
        /// Which client.
        client_id: String,
    },
    /// Every weight came out zero, so there is nothing to normalize by.
    ZeroWeightSum,
}

/// What an error says, as mathematical values.
pub enum Rejection {
    EmptyBatch,
    NonFiniteWeights { client_id: Seq<char>, index: nat },
    ImplausibleSampleCount { client_id: Seq<char>, got: nat, max: nat },
    MismatchedLength { client_id: Seq<char>, expected: nat, got: nat },
    MalformedWeights { client_id: Seq<char>, len: nat },
    MissingTrustedReference,
    TrustedReferenceDimension { expected: nat, global: nat, reference: nat },
    MissingCandidateScores,
    CandidateScoresDimension { expected: nat, got: nat },
    UnscoredClient { client_id: Seq<char> },
    ZeroWeightSum,
}

impl View for AggregatorError {
    type V = Rejection;

    open spec fn view(&self) -> Rejection {
        match *self {
            AggregatorError::EmptyBatch => Rejection::EmptyBatch,
            AggregatorError::NonFiniteWeights { client_id, index } => Rejection::NonFiniteWeights {
                client_id: client_id@,
                index: index as nat,
            },
            AggregatorError::ImplausibleSampleCount { client_id, got, max } => Rejection::ImplausibleSampleCount {
                client_id: client_id@,
                got: got as nat,
                max: max as nat,
            },
            AggregatorError::MismatchedLength { client_id, expected, got } => Rejection::MismatchedLength {
                client_id: client_id@,
                expected: expected as nat,
                got: got as nat,
            },
            AggregatorError::MalformedWeights { client_id, len } => Rejection::MalformedWeights {
                client_id: client_id@,
                len: len as nat,
            },
            AggregatorError::MissingTrustedReference => Rejection::MissingTrustedReference,
            AggregatorError::TrustedReferenceDimension { expected, global, reference } => Rejection::TrustedReferenceDimension {
                expected: expected as nat,
                global: global as nat,
                reference: reference as nat,
            },
            AggregatorError::MissingCandidateScores => Rejection::MissingCandidateScores,
            AggregatorError::CandidateScoresDimension { expected, got } => Rejection::CandidateScoresDimension {
                expected: expected as nat,
                got: got as nat,
            },
            AggregatorError::UnscoredClient { client_id } => Rejection::UnscoredClient {
                client_id: client_id@,
            },
            AggregatorError::ZeroWeightSum => Rejection::ZeroWeightSum,
        }
    }
}

impl Rejection {
    /// How the rejection reads.
    pub open spec fn text(self) -> Seq<char> {
        match self {
            Rejection::EmptyBatch => "cannot aggregate an empty batch of updates"@,
            Rejection::NonFiniteWeights { client_id, index } => "update "@ + client_id
                + " contains a non-finite weight (NaN or infinity) at index "@ + decimal(index),
            Rejection::ImplausibleSampleCount { client_id, got, max } => "update "@ + client_id
                + " reports "@ + decimal(got)
                + " samples, which exceeds the largest plausible count ("@ + decimal(max)
                + ") — self-reported sample counts are unauthenticated and this one cannot be real"@,
            Rejection::MismatchedLength { client_id, expected, got } => "update "@ + client_id
                + " has "@ + decimal(got) + " weights, expected "@ + decimal(expected)
                + " (every update in a batch must have the same weight-vector length)"@,
            Rejection::MalformedWeights { client_id, len } => "update "@ + client_id
                + " has malformed weights: "@ + decimal(len) + " bytes is not a multiple of 4"@,
            Rejection::MissingTrustedReference =>
                "no trusted reference was supplied for this round — a trusted-family aggregator cannot run without one, and falling back to an unweighted mean would silently replace the defense with the method it exists to replace (ADR 0011)"@,
            Rejection::TrustedReferenceDimension { expected, global, reference } =>
                "trusted reference does not fit this batch: batch has "@ + decimal(expected)
                + " weights, global model has "@ + decimal(global) + ", reference has "@ + decimal(
                reference,
            ),
            Rejection::MissingCandidateScores =>
                "no candidate scores were supplied for this round"@,
            Rejection::CandidateScoresDimension { expected, got } =>
                "candidate scores do not fit this batch: batch has "@ + decimal(expected)
                + " weights, scored global model has "@ + decimal(got),
            Rejection::UnscoredClient { client_id } => "no candidate score was supplied for "@
                + client_id,
            Rejection::ZeroWeightSum => "batch weights sum to zero — cannot normalize"@,
        }
    }
}

impl AggregatorError {
    /// How the error reads.
    pub fn message(&self) -> (r: String)
        ensures
            r@ == self@.text(),
    {
        match self {
            AggregatorError::EmptyBatch =>
                "cannot aggregate an empty batch of updates".to_owned(),
            AggregatorError::NonFiniteWeights { client_id, index } => "update ".to_owned().concat(
                client_id.as_str(),
            ).concat(" contains a non-finite weight (NaN or infinity) at index ").concat(
                decimal_text(*index as u64).as_str(),
            ),
            AggregatorError::ImplausibleSampleCount { client_id, got, max } =>
                "update ".to_owned().concat(client_id.as_str()).concat(" reports ").concat(
                decimal_text(*got).as_str(),
            ).concat(" samples, which exceeds the largest plausible count (").concat(
                decimal_text(*max).as_str(),
            ).concat(
                ") — self-reported sample counts are unauthenticated and this one cannot be real",
            ),
            AggregatorError::MismatchedLength { client_id, expected, got } =>
                "update ".to_owned().concat(client_id.as_str()).concat(" has ").concat(
                decimal_text(*got as u64).as_str(),
            ).concat(" weights, expected ").concat(decimal_text(*expected as u64).as_str()).concat(
                " (every update in a batch must have the same weight-vector length)",
            ),
            AggregatorError::MalformedWeights { client_id, len } => "update ".to_owned().concat(
                client_id.as_str(),
            ).concat(" has malformed weights: ").concat(
                decimal_text(*len as u64).as_str(),
            ).concat(" bytes is not a multiple of 4"),
            AggregatorError::MissingTrustedReference =>
                "no trusted reference was supplied for this round — a trusted-family aggregator cannot run without one, and falling back to an unweighted mean would silently replace the defense with the method it exists to replace (ADR 0011)".to_owned(),
            AggregatorError::TrustedReferenceDimension { expected, global, reference } =>
                "trusted reference does not fit this batch: batch has ".to_owned().concat(
                decimal_text(*expected as u64).as_str(),
            ).concat(" weights, global model has ").concat(
                decimal_text(*global as u64).as_str(),
            ).concat(", reference has ").concat(decimal_text(*reference as u64).as_str()),
            AggregatorError::MissingCandidateScores =>
                "no candidate scores were supplied for this round".to_owned(),
            AggregatorError::CandidateScoresDimension { expected, got } =>
                "candidate scores do not fit this batch: batch has ".to_owned().concat(
                decimal_text(*expected as u64).as_str(),
            ).concat(" weights, scored global model has ").concat(
                decimal_text(*got as u64).as_str(),
            ),
            AggregatorError::UnscoredClient { client_id } =>
                "no candidate score was supplied for ".to_owned().concat(client_id.as_str()),
            AggregatorError::ZeroWeightSum =>
                "batch weights sum to zero — cannot normalize".to_owned(),
        }
    }
}

} // verus!
