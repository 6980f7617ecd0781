//! Grid sampling for visualising sensitivity to initial conditions in small
//! dynamical systems.
//!
//! The crate provides an N-dimensional grid index ([`Dimensions`]), a generic
//! population of simulation instances advanced in lockstep ([`Samples`]), and
//! the capability set every dynamical system must offer ([`ChaoticSystem`]).
//! The mixed-radix arithmetic that maps flat sample indices to grid
//! coordinates is specified and proved in [`indexing`].

pub mod chaotic_system;
pub mod dimensions;
pub mod indexing;
pub mod sample;

pub use chaotic_system::{ChaoticSystem, MandelbrotColorSchema, Rgba, Scalar};
pub use dimensions::{Dimensions, DimensionsIterator};
pub use indexing::{in_bounds, index_of, pos_of, valid_extents, volume_of};
pub use sample::{accumulator_of, advanced, perturbation_of, Samples, SamplesIter};
