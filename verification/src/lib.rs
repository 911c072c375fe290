//! Federated learning: aggregation methods, privacy accounting, the transport
//! between server, nodes and clients, and the supervision of a federation.
//!
//! All arithmetic is that of IEEE 754, carried out on integers, so that what
//! a method computes is stated to the last bit.

pub mod aggregator;
pub mod averaging;
pub mod catalog;
pub mod delta;
pub mod elementary;
pub mod error;
pub mod federation;
pub mod flanders;
pub mod float;
pub mod history;
pub mod laws;
pub mod linear;
pub mod net;
pub mod node;
pub mod optimization;
pub mod order;
pub mod privacy;
pub mod robust;
pub mod temporal;
pub mod text;
pub mod trusted;
pub mod weights;
