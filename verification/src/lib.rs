//! A 2D EKF-SLAM estimator over fixed-point scalars.
//!
//! The estimator tracks a robot pose `(x, y, heading)` together with the
//! positions of landmarks it has observed, as one joint state vector with a
//! joint covariance matrix. All scalars are fixed-point numbers: an `i64`
//! holding the value scaled by 65536, with saturating arithmetic. This keeps
//! the whole filter in exactly specified integer arithmetic.

pub mod fixed;
pub mod trig;
pub mod ekf_slam;
pub mod laws;
