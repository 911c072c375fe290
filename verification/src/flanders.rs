//! FLANDERS: clients whose updates their own history does not predict are
//! dropped before a base method combines the rest.
pub mod filter;
pub mod forecast;
pub mod matrix;
pub mod solve;
