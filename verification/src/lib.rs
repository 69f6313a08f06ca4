//! Verified core of the visual localisation stack.
pub mod basalt;
pub mod digest;
pub mod ieee;
pub mod json;
pub mod multi_robot;
pub mod ordered;
pub mod tensorrt;
pub mod text;
