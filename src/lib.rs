//! The core of a Monte Carlo path tracer: the spatial tree that answers
//! "nearest surface along this ray", the scene's flat arrays of shapes and
//! materials, the queue of pixel work shared by the workers, the output image
//! and its single writer, and the budget that bounds recursive bounces.
//!
//! Geometry enters through the `TreeBox` and `TreeShape` traits. Ray
//! parameters and lengths are passed as order keys: integers ordered as the
//! floating-point values they stand for.

pub mod axis;
pub mod coverage;
pub mod image_writer;
pub mod scene;
pub mod schedule;
pub mod settings;
pub mod transport;
pub mod tree;
