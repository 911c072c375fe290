//! Server-side optimizers: given what the batch aggregated to, how far the
//! server moves.
pub mod fedavgm;
pub mod fedopt;
pub mod qfedavg;
