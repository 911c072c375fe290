//! Differential privacy: clipping and noising an update, and accounting for
//! what was spent.
pub mod accountant;
pub mod mechanism;
