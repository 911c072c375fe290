//! Methods that judge a round by what came before it.
pub mod clipping;
pub mod foolsgold;
