//! Methods that resist a minority of hostile updates.
pub mod coordinate;
pub mod divide;
pub mod faba;
pub mod filter;
pub mod geometric;
pub mod krum;
