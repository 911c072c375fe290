//! A node: the hop between a local trainer and the server.
pub mod bridge;
pub mod relay;
pub mod retry;
pub mod run;
pub mod settings;
pub mod startup_guard;
