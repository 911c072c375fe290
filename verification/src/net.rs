//! What moves between a client, a node and the server.
pub mod dispatcher;
pub mod jwt;
pub mod message;
pub mod peer_identity;
pub mod service;
pub mod sidecar;
