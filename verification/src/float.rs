pub mod binary32;
pub mod binary64;
pub mod drift;
pub mod format;
pub mod grid;
pub mod ieee;
pub mod laws;
pub mod magnitude;
pub mod round;
pub mod scale;
pub mod slip;
pub mod twice;
pub mod wide;
