//! The shape of an N-dimensional sampling grid.
//!
//! A [`Dimensions`] value is an ordered list of positive axis extents.  It
//! converts between flat sample indices and N-dimensional coordinates (the
//! two directions are proved exact inverses) and enumerates every coordinate
//! of the grid in row-major order, first axis fastest.

use crate::indexing::{
    in_bounds, index_of, lemma_index_of_all_max, lemma_index_of_bounds, lemma_index_of_pos_of,
    lemma_index_of_push, lemma_next_pos_of, lemma_next_pos_of_form, lemma_pos_of_in_bounds,
    lemma_pos_of_index_of, lemma_pos_of_zero, lemma_volume_positive, lemma_volume_prefix_bound,
    lemma_volume_push, next_pos_of, pos_of, valid_extents, volume_of,
};
use vstd::prelude::*;

verus! {

/// An N-axis grid shape: one positive extent per perturbation axis.
///
/// The view of a `Dimensions` value is the sequence of its extents.
#[derive(Debug)]
pub struct Dimensions {
    dimensions: Vec<usize>,
}

impl View for Dimensions {
    type V = Seq<usize>;

    closed spec fn view(&self) -> Seq<usize> {
        self.dimensions@
    }
}

impl Clone for Dimensions {
    fn clone(&self) -> (r: Self)
        ensures
            r@ == self@,
    {
        Dimensions { dimensions: copy_usize_vec(&self.dimensions) }
    }
}

/// Copies a vector of machine words element by element.
fn copy_usize_vec(values: &Vec<usize>) -> (r: Vec<usize>)
    ensures
        r@ == values@,
{
    let mut r: Vec<usize> = Vec::new();
    let n = values.len();
    let mut i: usize = 0;
    while i < n
        invariant
            i <= n,
            n == values@.len(),
            r@ == values@.take(i as int),
        decreases n - i,
    {
        r.push(values[i]);
        proof {
            assert(values@.take(i + 1) =~= values@.take(i as int).push(values@[i as int]));
        }
        i += 1;
    }
    proof {
        assert(values@.take(n as int) =~= values@);
    }
    r
}

impl Dimensions {
    /// Well formed: every extent holds at least one cell and the total cell
    /// count fits in a machine word.
    pub open spec fn wf(&self) -> bool {
        &&& valid_extents(self@)
        &&& volume_of(self@) <= usize::MAX
    }

    /// Builds a grid shape from a borrowed extent list.
    pub fn new_static(dimensions: &[usize]) -> (r: Self)
        requires
            valid_extents(dimensions@),
            volume_of(dimensions@) <= usize::MAX,
        ensures
            r@ == dimensions@,
            r.wf(),
    {
        Dimensions { dimensions: vstd::slice::slice_to_vec(dimensions) }
    }

    /// Builds a grid shape after checking the extent list, rejecting a
    /// malformed configuration instead of accepting it silently: `None`
    /// exactly when some extent is zero or the cell count overflows a
    /// machine word.
    pub fn try_new(dimensions: Vec<usize>) -> (r: Option<Self>)
        ensures
            r is Some <==> valid_extents(dimensions@) && volume_of(dimensions@) <= usize::MAX,
            r matches Some(d) ==> d@ == dimensions@ && d.wf(),
    {
        let ghost e = dimensions@;
        let n = dimensions.len();
        let mut volume: usize = 1;
        let mut i: usize = 0;
        while i < n
            invariant
                i <= n,
                n == e.len(),
                dimensions@ == e,
                valid_extents(e.take(i as int)),
                volume as int == volume_of(e.take(i as int)),
            decreases n - i,
        {
            let extent = dimensions[i];
            proof {
                assert(e.take(i + 1) =~= e.take(i as int).push(e[i as int]));
                lemma_volume_push(e.take(i as int), e[i as int]);
            }
            if extent == 0 {
                return None;
            }
            volume = match volume.checked_mul(extent) {
                Some(v) => v,
                None => {
                    proof {
                        if valid_extents(e) && volume_of(e) <= usize::MAX {
                            lemma_volume_prefix_bound(e, i + 1);
                        }
                    }
                    return None;
                },
            };
            i = i + 1;
        }
        proof {
            assert(e.take(n as int) =~= e);
        }
        Some(Dimensions { dimensions })
    }

    /// Builds a grid shape from an owned extent list.
    pub fn new(dimensions: Vec<usize>) -> (r: Self)
        requires
            valid_extents(dimensions@),
            volume_of(dimensions@) <= usize::MAX,
        ensures
            r@ == dimensions@,
            r.wf(),
    {
        Dimensions { dimensions }
    }

    /// Number of axes.
    pub fn len(&self) -> (n: usize)
        ensures
            n == self@.len(),
    {
        self.dimensions.len()
    }

    /// The extents, one per axis.
    pub fn sizes(&self) -> (r: &Vec<usize>)
        ensures
            r@ == self@,
    {
        &self.dimensions
    }

    /// Total number of grid cells: the product of all extents.  A grid with
    /// no axes holds exactly one cell.
    pub fn volume(&self) -> (v: usize)
        requires
            self.wf(),
        ensures
            v as int == volume_of(self@),
    {
        let ghost e = self@;
        let n = self.dimensions.len();
        let mut v: usize = 1;
        let mut i: usize = 0;
        while i < n
            invariant
                i <= n,
                n == e.len(),
                self@ == e,
                valid_extents(e),
                volume_of(e) <= usize::MAX,
                v as int == volume_of(e.take(i as int)),
            decreases n - i,
        {
            proof {
                assert(e.take(i + 1) =~= e.take(i as int).push(e[i as int]));
                lemma_volume_push(e.take(i as int), e[i as int]);
                lemma_volume_prefix_bound(e, i + 1);
            }
            v = v * self.dimensions[i];
            i += 1;
        }
        proof {
            assert(e.take(n as int) =~= e);
        }
        v
    }

    /// The coordinate stored at flat index `index`: the digits of `index`
    /// in the mixed radix given by the extents, first axis fastest.
    pub fn index_to_pos(&self, index: usize) -> (pos: Vec<usize>)
        requires
            self.wf(),
            index < volume_of(self@),
        ensures
            pos@ == pos_of(self@, index as int),
            in_bounds(pos@, self@),
            index_of(pos@, self@) == index,
    {
        let ghost e = self@;
        let ghost target = pos_of(e, index as int);
        proof {
            lemma_pos_of_in_bounds(e, index as int);
            lemma_index_of_pos_of(e, index as int);
        }
        let n = self.dimensions.len();
        let mut pos: Vec<usize> = Vec::with_capacity(n);
        let mut remaining = index;
        let mut i: usize = 0;
        proof {
            assert(e.skip(0) =~= e);
            assert(target.skip(0) =~= target);
            assert(target.take(0) =~= pos@);
        }
        while i < n
            invariant
                i <= n,
                n == e.len(),
                self@ == e,
                valid_extents(e),
                target == pos_of(e, index as int),
                target.len() == n,
                pos@ == target.take(i as int),
                pos_of(e.skip(i as int), remaining as int) == target.skip(i as int),
            decreases n - i,
        {
            let dim_size = self.dimensions[i];
            proof {
                assert(e[i as int] >= 1);
                assert(e.skip(i as int).len() > 0);
                assert(e.skip(i as int)[0] == e[i as int]);
                assert(e.skip(i as int).skip(1) =~= e.skip(i + 1));
                let head = pos_of(e.skip(i as int), remaining as int);
                assert(head[0] == (remaining as int % (dim_size as int)) as usize);
                assert(head[0] == target.skip(i as int)[0]);
                assert(target.skip(i as int)[0] == target[i as int]);
                assert(head.skip(1) =~= pos_of(
                    e.skip(i as int).skip(1),
                    remaining as int / (dim_size as int),
                ));
                assert(head.skip(1) =~= target.skip(i as int).skip(1));
                assert(target.skip(i as int).skip(1) =~= target.skip(i + 1));
                assert(target.take(i + 1) =~= target.take(i as int).push(target[i as int]));
                assert(0 <= remaining as int % (dim_size as int) < dim_size as int);
            }
            pos.push(remaining % dim_size);
            remaining = remaining / dim_size;
            i += 1;
        }
        proof {
            assert(target.take(n as int) =~= target);
        }
        pos
    }

    /// The flat index of the coordinate `pos`: its value as a mixed-radix
    /// numeral, first axis fastest.
    pub fn pos_to_index(&self, pos: &[usize]) -> (index: usize)
        requires
            self.wf(),
            in_bounds(pos@, self@),
        ensures
            index == index_of(pos@, self@),
            index < volume_of(self@),
            pos_of(self@, index as int) == pos@,
    {
        let ghost e = self@;
        let ghost p = pos@;
        proof {
            lemma_index_of_bounds(p, e);
            lemma_pos_of_index_of(p, e);
        }
        let n = pos.len();
        let mut index: usize = 0;
        let mut multiplier: usize = 1;
        let mut i: usize = 0;
        while i < n
            invariant
                i <= n,
                n == e.len(),
                p.len() == n,
                self@ == e,
                pos@ == p,
                valid_extents(e),
                volume_of(e) <= usize::MAX,
                in_bounds(p, e),
                multiplier as int == volume_of(e.take(i as int)),
                index as int == index_of(p.take(i as int), e.take(i as int)),
                index < multiplier,
            decreases n - i,
        {
            let coord = pos[i];
            proof {
                assert(p[i as int] < e[i as int]);
                assert(p.take(i + 1) =~= p.take(i as int).push(p[i as int]));
                assert(e.take(i + 1) =~= e.take(i as int).push(e[i as int]));
                lemma_index_of_push(p.take(i as int), e.take(i as int), p[i as int], e[i as int]);
                lemma_volume_push(e.take(i as int), e[i as int]);
                lemma_volume_prefix_bound(e, i + 1);
                let m = multiplier as int;
                assert(index + coord * m < m * (e[i as int] as int)) by (nonlinear_arith)
                    requires
                        index < m,
                        0 <= coord,
                        coord < e[i as int] as int,
                        1 <= m,
                {}
                assert(m * (e[i as int] as int) == volume_of(e.take(i + 1)));
            }
            index = index + coord * multiplier;
            multiplier = multiplier * self.dimensions[i];
            i += 1;
        }
        proof {
            assert(p.take(n as int) =~= p);
            assert(e.take(n as int) =~= e);
        }
        index
    }

    /// Starts a fresh traversal of every coordinate of the grid in
    /// enumeration order: all zeros first, axis 0 incremented fastest.
    /// The traversal yields exactly `volume()` coordinates.
    pub fn iter(&self) -> (it: DimensionsIterator)
        requires
            self.wf(),
        ensures
            it.wf(),
            it.extents() == self@,
            it.cursor() == 0,
    {
        let ghost e = self@;
        let n = self.dimensions.len();
        let mut coordinates: Vec<usize> = Vec::with_capacity(n);
        let mut i: usize = 0;
        while i < n
            invariant
                i <= n,
                coordinates@ == Seq::new(i as nat, |j: int| 0usize),
            decreases n - i,
        {
            coordinates.push(0);
            proof {
                assert(coordinates@ =~= Seq::new((i + 1) as nat, |j: int| 0usize));
            }
            i += 1;
        }
        let remaining = self.volume();
        proof {
            lemma_volume_positive(e);
            lemma_pos_of_zero(e);
            assert(coordinates@ =~= pos_of(e, 0));
        }
        DimensionsIterator { dimensions: self.clone(), coordinates, remaining }
    }
}

/// A restartable traversal of every coordinate of a grid, in row-major
/// order with the first axis varying fastest.
///
/// The iterator keeps the coordinate it will yield next and turns it like
/// an odometer after each yield.
#[derive(Debug)]
pub struct DimensionsIterator {
    dimensions: Dimensions,
    coordinates: Vec<usize>,
    remaining: usize,
}

impl DimensionsIterator {
    /// The extents of the grid being traversed.
    pub closed spec fn extents(&self) -> Seq<usize> {
        self.dimensions@
    }

    /// How many coordinates are still to be yielded.
    pub closed spec fn remaining(&self) -> int {
        self.remaining as int
    }

    /// Flat index of the coordinate the next call to `next` will yield.
    pub open spec fn cursor(&self) -> int {
        volume_of(self.extents()) - self.remaining()
    }

    /// The iterator is well formed: its grid is well formed, it never
    /// promises more coordinates than the grid holds, and while coordinates
    /// remain it stores the digits of the cursor.
    pub closed spec fn wf(&self) -> bool {
        &&& self.dimensions.wf()
        &&& 0 <= self.remaining() <= volume_of(self.extents())
        &&& self.remaining() > 0 ==> self.coordinates@ == pos_of(self.extents(), self.cursor())
    }

    /// Bounds every well-formed traversal satisfies.
    pub proof fn lemma_wf(&self)
        requires
            self.wf(),
        ensures
            valid_extents(self.extents()),
            volume_of(self.extents()) <= usize::MAX,
            0 <= self.remaining() <= volume_of(self.extents()),
    {
    }

    /// Yields the coordinate at the cursor and advances, or `None` once
    /// every coordinate of the grid has been yielded.
    pub fn next(&mut self) -> (r: Option<Vec<usize>>)
        requires
            old(self).wf(),
        ensures
            final(self).wf(),
            final(self).extents() == old(self).extents(),
            old(self).remaining() == 0 ==> r is None && final(self).remaining() == 0,
            old(self).remaining() > 0 ==> {
                &&& r is Some
                &&& r->Some_0@ == pos_of(old(self).extents(), old(self).cursor())
                &&& in_bounds(r->Some_0@, old(self).extents())
                &&& index_of(r->Some_0@, old(self).extents()) == old(self).cursor()
                &&& final(self).remaining() == old(self).remaining() - 1
            },
    {
        let ghost e = self.extents();
        if self.remaining == 0 {
            return None;
        }
        proof {
            lemma_pos_of_in_bounds(e, old(self).cursor());
            lemma_index_of_pos_of(e, old(self).cursor());
        }
        let result = copy_usize_vec(&self.coordinates);
        if self.remaining > 1 {
            proof {
                lemma_next_pos_of(self.coordinates@, e);
            }
            self.advance_odometer();
            proof {
                lemma_pos_of_index_of(self.coordinates@, e);
            }
        }
        self.remaining = self.remaining - 1;
        Some(result)
    }

    /// Turns the stored coordinate to its successor in enumeration order:
    /// the first digit below its maximum is incremented and every digit
    /// before it wraps to zero.  When every digit is already at its
    /// maximum, the coordinate wraps to all zeros.
    fn advance_odometer(&mut self)
        requires
            old(self).dimensions.wf(),
            in_bounds(old(self).coordinates@, old(self).dimensions@),
        ensures
            final(self).dimensions == old(self).dimensions,
            final(self).remaining == old(self).remaining,
            index_of(old(self).coordinates@, old(self).dimensions@) + 1 < volume_of(
                old(self).dimensions@,
            ) ==> final(self).coordinates@ == next_pos_of(
                old(self).coordinates@,
                old(self).dimensions@,
            ),
    {
        let ghost e = self.dimensions@;
        let ghost orig = self.coordinates@;
        let n = self.coordinates.len();
        let mut i: usize = 0;
        let mut done = false;
        while !done && i < n
            invariant
                i <= n,
                n == orig.len(),
                orig.len() == e.len(),
                valid_extents(e),
                in_bounds(orig, e),
                self.dimensions == old(self).dimensions,
                self.remaining == old(self).remaining,
                self.dimensions@ == e,
                old(self).coordinates@ == orig,
                self.coordinates@.len() == n,
                !done ==> forall|j: int| 0 <= j < i ==> #[trigger] orig[j] == e[j] - 1,
                !done ==> forall|j: int| 0 <= j < i ==> #[trigger] self.coordinates@[j] == 0,
                !done ==> forall|j: int|
                    i <= j < n ==> #[trigger] self.coordinates@[j] == orig[j],
                done ==> self.coordinates@ == next_pos_of(orig, e),
            decreases n - i + if done {
                0int
            } else {
                1int
            },
        {
            let digit = self.coordinates[i];
            let limit = self.dimensions.dimensions[i];
            proof {
                assert(e[i as int] >= 1);
            }
            if digit < limit - 1 {
                self.coordinates.set(i, digit + 1);
                proof {
                    lemma_next_pos_of_form(orig, e, i as int);
                    assert(self.coordinates@ =~= next_pos_of(orig, e));
                }
                done = true;
            } else {
                self.coordinates.set(i, 0);
                i += 1;
            }
        }
        proof {
            if !done {
                assert forall|j: int| 0 <= j < orig.len()
                    implies #[trigger] orig[j] == e[j] - 1 by {}
                lemma_index_of_all_max(orig, e);
            }
        }
    }
}

} // verus!
