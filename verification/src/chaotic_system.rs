//! The capability set of a dynamical system.
//!
//! Every simulated system — whatever its physics — must support the same
//! small set of operations so that the sampling engine can own a population
//! of instances and drive them uniformly.  The engine never looks inside a
//! system's state; it only clones, mutates and advances instances, so it is
//! generic over both the system and the real-number scalar the system
//! computes with.

use vstd::prelude::*;

verus! {

/// The real-number type a dynamical system computes with.
///
/// The sampling engine needs just enough arithmetic to build the per-axis
/// perturbation `(coordinate - extent) * axis_scale * global_scale` that
/// seeds grid diversity; everything else stays inside the system.  Each
/// operation has a specification-level name so that the engine's contracts
/// can say exactly which scalar every slot of a perturbation holds.
pub trait Scalar: Sized + Copy {
    /// What `axis_offset` returns: the centered offset of a grid
    /// coordinate on one axis, as a value of the implementing type.
    /// The default body is a placeholder so that implementations outside
    /// the verifier need not name it; the library only ever reasons about
    /// it through a type parameter, where it stays uninterpreted.
    open spec fn spec_axis_offset(coordinate: usize, extent: usize) -> Self {
        vstd::pervasive::arbitrary()
    }

    /// What `times` returns: the product of two scalars.  Placeholder
    /// default body, as for `spec_axis_offset`.
    open spec fn spec_times(self, factor: Self) -> Self {
        vstd::pervasive::arbitrary()
    }

    /// The centered offset of a grid coordinate on one axis: the
    /// difference `coordinate - extent` as a scalar.  It is negative for
    /// every reachable coordinate, so perturbations shrink towards zero as
    /// coordinates grow along the axis.
    fn axis_offset(coordinate: usize, extent: usize) -> (r: Self)
        ensures
            r == Self::spec_axis_offset(coordinate, extent),
    ;

    /// The product of this scalar and `factor`.
    fn times(self, factor: Self) -> (r: Self)
        ensures
            r == self.spec_times(factor),
    ;
}

/// An RGBA color whose channels conceptually lie in `[0, 1]`.  Consumers
/// quantize the channels to their display depth.
#[derive(Clone, Copy, Debug)]
pub struct Rgba<S> {
    pub red: S,
    pub green: S,
    pub blue: S,
    pub alpha: S,
}

/// Selects how a Mandelbrot-map instance encodes its state as a color.
/// The choice is fixed at construction time and carried with the
/// instance's other fixed parameters.
#[derive(Clone, Copy, Debug)]
pub enum MandelbrotColorSchema {
    /// Hue from the iterate's argument, faded by its squared magnitude.
    Distance,
}

/// What a dynamical system must offer so that a sampler can own a
/// population of its instances.
///
/// `mutate` and `update` carry specification-level names for what they
/// compute (`mutated`, `stepped`).  The names say nothing about the
/// numbers; they say that each operation is a function of the state and
/// its argument, which is what lets the sampler promise exactly which
/// chain of operations produced every instance it owns.
pub trait ChaoticSystem: Sized {
    /// The real-number type of the system's state.
    type Scalar: Scalar;

    /// What `mutate` leaves behind: the state after the perturbation
    /// `mutation` has been applied.  The default body is a placeholder so
    /// that implementations outside the verifier need not name it; the
    /// library only ever reasons about it through a type parameter, where
    /// it stays uninterpreted.
    open spec fn mutated(self, mutation: Seq<Self::Scalar>) -> Self {
        vstd::pervasive::arbitrary()
    }

    /// What `update` leaves behind: the state one integration step of
    /// length `dt` later.  Placeholder default body, as for `mutated`.
    open spec fn stepped(self, dt: Self::Scalar) -> Self {
        vstd::pervasive::arbitrary()
    }

    /// Mutates the system by a perturbation vector.  Slots map positionally
    /// onto a fixed, system-defined selection of internal scalar fields; a
    /// vector shorter than that selection leaves the remaining fields
    /// untouched, and extra entries are ignored.
    fn mutate(&mut self, pos: &[Self::Scalar])
        ensures
            *final(self) == old(self).mutated(pos@),
    ;

    /// Advances the system state by one integration step of length `dt`.
    fn update(&mut self, dt: Self::Scalar)
        ensures
            *final(self) == old(self).stepped(dt),
    ;

    /// Builds a new instance whose every scalar field interpolates
    /// linearly between `self` and `other` at parameter `t` in `[0, 1]`.
    fn lerp(&self, other: &Self, t: Self::Scalar) -> Self;

    /// The color encoding of the current state.  A pure reading: it must
    /// not change the state.
    fn color(&self) -> Rgba<Self::Scalar>;

    /// A scalar dissimilarity between two instances of the same kind.
    fn distance(&self, other: &Self) -> Self::Scalar;

    /// A scalar proxy for how unstable or spread out the instance is,
    /// used to rank samples; larger means more divergent.
    fn chaosity(&self) -> Self::Scalar;
}

} // verus!
