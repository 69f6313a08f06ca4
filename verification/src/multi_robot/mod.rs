//! Sequences of keyframes that robots share, the loops between them, and the graph they make.
pub mod backend;
pub mod components;
pub mod covisibility;
pub mod encoder;
pub mod error;
pub mod geometry;
pub mod keys;
pub mod retrieval;
pub mod sequence;
pub mod solve;
pub mod sorted;
pub mod types;
