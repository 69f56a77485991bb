//! Envelopes: ordered control points and the interpolated value between them.

mod bezier_point;
mod ease_point;
pub mod envelope;
pub mod interpolate;
mod point;

pub use bezier_point::BezierPoint;
pub use ease_point::{EasePoint, EaseStep};
pub use envelope::{Envelope, Steps};
pub use point::{Interpolate, Point, Scalar};
