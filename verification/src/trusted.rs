//! Methods anchored to something no client can influence.
pub mod fltrust;
pub mod zeno;
