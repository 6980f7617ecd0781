//! A population of dynamical-system instances addressed by a grid.
//!
//! [`Samples`] owns one instance per grid cell, aligned with the grid's
//! enumeration order: the instance at flat index `k` was produced at the
//! `k`-th enumerated coordinate.  Construction mutates a running
//! accumulator — each cell receives a clone of the accumulator and the
//! accumulator is then perturbed for the next cell — so later cells are
//! cumulative perturbations of earlier ones, which is what makes the
//! rendered grid a continuous gradient rather than independent noise.

use crate::chaotic_system::{ChaoticSystem, Scalar};
use crate::dimensions::{Dimensions, DimensionsIterator};
use crate::indexing::{in_bounds, index_of, pos_of, valid_extents, volume_of};
use vstd::pervasive::cloned;
use vstd::prelude::*;

verus! {

/// The state of a system after `n` integration steps of length `dt`.
pub open spec fn advanced<System: ChaoticSystem>(
    system: System,
    n: nat,
    dt: System::Scalar,
) -> System
    decreases n,
{
    if n == 0 {
        system
    } else {
        advanced(system, (n - 1) as nat, dt).stepped(dt)
    }
}

/// The perturbation vector the construction applies after filling the cell
/// at flat index `k`: slot `i` holds
/// `(coordinate[i] - extents[i]) * scales[i] * all_scale`, and the vector
/// is as long as the shorter of the axis list and the scale list.
pub open spec fn perturbation_of<S: Scalar>(
    extents: Seq<usize>,
    scales: Seq<S>,
    all_scale: S,
    k: int,
) -> Seq<S> {
    Seq::new(
        if extents.len() <= scales.len() {
            extents.len()
        } else {
            scales.len()
        },
        |i: int|
            S::spec_axis_offset(pos_of(extents, k)[i], extents[i]).spec_times(
                scales[i],
            ).spec_times(all_scale),
    )
}

/// The running accumulator after the first `k` cells have been filled:
/// the seed, mutated once per earlier cell by that cell's perturbation.
pub open spec fn accumulator_of<System: ChaoticSystem>(
    initial: System,
    extents: Seq<usize>,
    scales: Seq<System::Scalar>,
    all_scale: System::Scalar,
    k: nat,
) -> System
    decreases k,
{
    if k == 0 {
        initial
    } else {
        accumulator_of(initial, extents, scales, all_scale, (k - 1) as nat).mutated(
            perturbation_of(extents, scales, all_scale, k - 1),
        )
    }
}

/// One dynamical-system instance per grid cell, advanced in lockstep.
pub struct Samples<System> {
    /// The grid shape addressing the population.
    pub dimensions: Dimensions,
    /// The population, in the grid's enumeration order.
    pub samples: Vec<System>,
}

impl<System> Samples<System> {
    /// The population invariant: the grid is well formed and holds exactly
    /// one instance per grid cell.
    pub open spec fn wf(&self) -> bool {
        &&& self.dimensions.wf()
        &&& self.samples@.len() == volume_of(self.dimensions@)
    }

    /// Builds the population.  For each coordinate of the grid, in
    /// enumeration order: push a clone of the accumulator, then perturb
    /// the accumulator by the per-axis mutation vector
    /// `(coordinate - extent) * mutation_scale * all_scale` and move on.
    /// So the instance at flat index `k` is a clone of the seed mutated
    /// once per earlier cell — later cells are cumulative perturbations of
    /// earlier ones, never independent perturbations of the seed.
    ///
    /// A `mutation_scales` list shorter than the axis count deliberately
    /// shortens the perturbation vector to its length — the axes without a
    /// scale contribute no mutation — and extra scales are ignored.
    pub fn new(
        initial: System,
        dimensions: Dimensions,
        mutation_scales: &[System::Scalar],
        all_scale: System::Scalar,
    ) -> (r: Self) where System: ChaoticSystem + Clone
        requires
            dimensions.wf(),
        ensures
            r.wf(),
            r.dimensions@ == dimensions@,
            r.samples@.len() == volume_of(dimensions@),
            forall|k: int|
                0 <= k < volume_of(dimensions@) ==> #[trigger] cloned::<System>(
                    accumulator_of(initial, dimensions@, mutation_scales@, all_scale, k as nat),
                    r.samples@[k],
                ),
    {
        let ghost e = dimensions@;
        let volume = dimensions.volume();
        let mut samples: Vec<System> = Vec::with_capacity(volume);

        let mut prev = initial;
        let mut it = dimensions.iter();
        let mut produced: usize = 0;
        while produced < volume
            invariant
                produced <= volume,
                volume as int == volume_of(e),
                dimensions@ == e,
                dimensions.wf(),
                it.wf(),
                it.extents() == e,
                it.cursor() == produced as int,
                samples@.len() == produced as int,
                prev == accumulator_of(initial, e, mutation_scales@, all_scale, produced as nat),
                forall|k: int|
                    0 <= k < produced ==> #[trigger] cloned::<System>(
                        accumulator_of(initial, e, mutation_scales@, all_scale, k as nat),
                        samples@[k],
                    ),
            decreases volume - produced,
        {
            let pos = it.next().unwrap();
            let mutation = perturbation(&pos, dimensions.sizes(), mutation_scales, all_scale);
            proof {
                assert(mutation@ =~= perturbation_of(e, mutation_scales@, all_scale,
                produced as int));
            }
            samples.push(prev.clone());
            prev.mutate(mutation.as_slice());
            produced = produced + 1;
        }

        Samples { samples, dimensions }
    }

    /// Advances every instance of the population independently by exactly
    /// `iterations` integration steps of length `dt`: instance `k` becomes
    /// `advanced(old instance k, iterations, dt)`.  Each instance's new
    /// state depends on its own old state alone — no instance observes
    /// another instance's state, and the order of the samples cannot
    /// affect the outcome.
    pub fn update(&mut self, iterations: usize, dt: System::Scalar) where System: ChaoticSystem
        ensures
            final(self).dimensions == old(self).dimensions,
            final(self).samples@.len() == old(self).samples@.len(),
            forall|k: int|
                0 <= k < old(self).samples@.len() ==> #[trigger] final(self).samples@[k]
                    == advanced(old(self).samples@[k], iterations as nat, dt),
            old(self).wf() ==> final(self).wf(),
    {
        let n = self.samples.len();
        let mut s: usize = 0;
        while s < n
            invariant
                s <= n,
                self.samples@.len() == n,
                self.dimensions == old(self).dimensions,
                forall|k: int|
                    0 <= k < s ==> #[trigger] self.samples@[k] == advanced(
                        old(self).samples@[k],
                        iterations as nat,
                        dt,
                    ),
                forall|k: int| s <= k < n ==> #[trigger] self.samples@[k]
                    == old(self).samples@[k],
            decreases n - s,
        {
            let mut j: usize = 0;
            while j < iterations
                invariant
                    j <= iterations,
                    s < n,
                    self.samples@.len() == n,
                    self.dimensions == old(self).dimensions,
                    forall|k: int|
                        0 <= k < s ==> #[trigger] self.samples@[k] == advanced(
                            old(self).samples@[k],
                            iterations as nat,
                            dt,
                        ),
                    forall|k: int| s < k < n ==> #[trigger] self.samples@[k]
                        == old(self).samples@[k],
                    self.samples@[s as int] == advanced(old(self).samples@[s as int], j as nat, dt),
                decreases iterations - j,
            {
                self.samples[s].update(dt);
                j = j + 1;
            }
            s = s + 1;
        }
    }

    /// Starts a traversal of the population's addresses: pairs of a flat
    /// sample index and its grid coordinate, in enumeration order.  The
    /// instance for a pair is `self.samples[index]`.
    pub fn iter(&self) -> (it: SamplesIter)
        requires
            self.wf(),
        ensures
            it.wf(),
            it.extents() == self.dimensions@,
            it.cursor() == 0,
    {
        SamplesIter { coordinates: self.dimensions.iter(), index: 0 }
    }
}

/// The per-axis perturbation applied to the accumulator after a cell at
/// `pos` has been filled: slot `i` holds
/// `(pos[i] - extents[i]) * mutation_scales[i] * all_scale`.  The vector is
/// as long as the shorter of `pos` and `mutation_scales`.
fn perturbation<S: Scalar>(
    pos: &Vec<usize>,
    extents: &Vec<usize>,
    mutation_scales: &[S],
    all_scale: S,
) -> (mutation: Vec<S>)
    requires
        pos@.len() <= extents@.len(),
    ensures
        mutation@.len() == if pos@.len() <= mutation_scales@.len() {
            pos@.len()
        } else {
            mutation_scales@.len()
        },
        forall|i: int|
            0 <= i < mutation@.len() ==> #[trigger] mutation@[i] == S::spec_axis_offset(
                pos@[i],
                extents@[i],
            ).spec_times(mutation_scales@[i]).spec_times(all_scale),
{
    let axes = if pos.len() <= mutation_scales.len() {
        pos.len()
    } else {
        mutation_scales.len()
    };
    let mut mutation: Vec<S> = Vec::with_capacity(axes);
    let mut i: usize = 0;
    while i < axes
        invariant
            i <= axes,
            axes <= pos@.len(),
            axes <= mutation_scales@.len(),
            pos@.len() <= extents@.len(),
            mutation@.len() == i as int,
            forall|m: int|
                0 <= m < i ==> #[trigger] mutation@[m] == S::spec_axis_offset(
                    pos@[m],
                    extents@[m],
                ).spec_times(mutation_scales@[m]).spec_times(all_scale),
        decreases axes - i,
    {
        let offset = S::axis_offset(pos[i], extents[i]);
        mutation.push(offset.times(mutation_scales[i]).times(all_scale));
        i = i + 1;
    }
    mutation
}

/// A traversal of the addresses of a population: yields each flat sample
/// index paired with its grid coordinate, in enumeration order.
pub struct SamplesIter {
    coordinates: DimensionsIterator,
    index: usize,
}

impl SamplesIter {
    /// The extents of the grid being traversed.
    pub closed spec fn extents(&self) -> Seq<usize> {
        self.coordinates.extents()
    }

    /// Flat index of the pair the next call to `next` will yield.
    pub closed spec fn cursor(&self) -> int {
        self.coordinates.cursor()
    }

    /// How many pairs are still to be yielded.
    pub closed spec fn remaining(&self) -> int {
        self.coordinates.remaining()
    }

    /// Well formed: the underlying coordinate traversal is well formed and
    /// the stored flat index tracks its cursor.
    pub closed spec fn wf(&self) -> bool {
        &&& self.coordinates.wf()
        &&& self.index as int == self.coordinates.cursor()
    }

    /// Bounds every well-formed traversal satisfies: in particular, the
    /// pairs still to be yielded are exactly the grid cells not yet
    /// visited, so a fresh traversal of a population yields one pair per
    /// sample.
    pub proof fn lemma_wf(&self)
        requires
            self.wf(),
        ensures
            valid_extents(self.extents()),
            volume_of(self.extents()) <= usize::MAX,
            self.remaining() == volume_of(self.extents()) - self.cursor(),
            0 <= self.remaining() <= volume_of(self.extents()),
    {
        self.coordinates.lemma_wf();
    }

    /// Yields the pair at the cursor and advances, or `None` once every
    /// cell of the grid has been yielded.
    pub fn next(&mut self) -> (r: Option<(usize, Vec<usize>)>)
        requires
            old(self).wf(),
        ensures
            final(self).wf(),
            final(self).extents() == old(self).extents(),
            old(self).remaining() == 0 ==> r is None && final(self).remaining() == 0,
            old(self).remaining() > 0 ==> {
                &&& r is Some
                &&& r->Some_0.0 == old(self).cursor()
                &&& r->Some_0.1@ == pos_of(old(self).extents(), old(self).cursor())
                &&& in_bounds(r->Some_0.1@, old(self).extents())
                &&& index_of(r->Some_0.1@, old(self).extents()) == old(self).cursor()
                &&& final(self).cursor() == old(self).cursor() + 1
                &&& final(self).remaining() == old(self).remaining() - 1
            },
    {
        proof {
            self.coordinates.lemma_wf();
        }
        match self.coordinates.next() {
            Some(pos) => {
                let index = self.index;
                self.index = self.index + 1;
                Some((index, pos))
            },
            None => None,
        }
    }
}

} // verus!
