//! A whole federation on one machine: what its server, nodes and clients are
//! told, and what is made of how they end.
pub mod demo;
pub mod lines;
pub mod period;
pub mod process;
pub mod report;
pub mod spawn;
pub mod supervisor;
pub mod tasks;
