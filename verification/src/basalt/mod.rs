//! Visual-inertial odometry: the estimator's bookkeeping, its startup and its configuration.
pub mod boundary;
pub mod collect;
pub mod config;
pub mod course;
pub mod errors;
pub mod estimator;
pub mod frame;
pub mod identity;
pub mod imu;
pub mod initialization;
pub mod landmarks;
pub mod lifecycle;
pub mod marginalization;
pub mod packet;
pub mod placement;
pub mod problem;
pub mod report;
pub mod scalar;
pub mod shift;
pub mod startup;
pub mod trace;
pub mod window;
