//! What the aggregation methods and the privacy accounting promise, beyond
//! what each of them computes.
pub mod accuracy;
pub mod averaging;
pub mod bounding;
pub mod budget;
pub mod clipping;
pub mod confidence;
pub mod elimination;
pub mod finite;
pub mod length;
pub mod likeness;
pub mod limits;
pub mod lone;
pub mod majority;
pub mod moments;
pub mod movement;
pub mod nearest;
pub mod noise;
pub mod optimizers;
pub mod principal;
pub mod privacy;
pub mod pull;
pub mod ranking;
pub mod sampling;
pub mod scaling;
pub mod selection;
pub mod statistics;
pub mod steps;
pub mod texts;
pub mod training;
pub mod travel;
pub mod trust;
