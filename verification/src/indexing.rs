//! Mixed-radix index arithmetic.
//!
//! A grid with extents `[e0, e1, ..]` stores its cells in row-major order
//! with the first axis varying fastest: the flat index of a coordinate is
//! `c0 + e0 * (c1 + e1 * (c2 + ..))`.  This module defines that numeral
//! system at the specification level and proves that flattening a coordinate
//! and extracting the digits of a flat index are exact inverses.

use vstd::arithmetic::div_mod::{
    lemma_fundamental_div_mod, lemma_fundamental_div_mod_converse,
};
use vstd::arithmetic::mul::{lemma_mul_inequality, lemma_mul_is_associative};
use vstd::prelude::*;

verus! {

/// Extents are well formed when every axis holds at least one cell.
pub open spec fn valid_extents(extents: Seq<usize>) -> bool {
    forall|i: int| 0 <= i < extents.len() ==> 1 <= #[trigger] extents[i]
}

/// Number of grid cells: the product of all extents.  A grid with no axes
/// holds exactly one cell (the empty coordinate).
pub open spec fn volume_of(extents: Seq<usize>) -> int
    decreases extents.len(),
{
    if extents.len() == 0 {
        1
    } else {
        extents[0] * volume_of(extents.skip(1))
    }
}

/// A coordinate lies in the grid when it has one digit per axis and every
/// digit is below its axis extent.
pub open spec fn in_bounds(pos: Seq<usize>, extents: Seq<usize>) -> bool {
    &&& pos.len() == extents.len()
    &&& forall|i: int| 0 <= i < pos.len() ==> #[trigger] pos[i] < extents[i]
}

/// The flat index of a coordinate: its value as a mixed-radix numeral whose
/// least significant digit comes first.
pub open spec fn index_of(pos: Seq<usize>, extents: Seq<usize>) -> int
    decreases pos.len(),
{
    if pos.len() == 0 {
        0
    } else {
        pos[0] + extents[0] * index_of(pos.skip(1), extents.skip(1))
    }
}

/// The coordinate of a flat index: the digits of the index written in the
/// mixed radix given by the extents, least significant digit first.
pub open spec fn pos_of(extents: Seq<usize>, index: int) -> Seq<usize>
    decreases extents.len(),
{
    if extents.len() == 0 {
        Seq::empty()
    } else {
        seq![(index % (extents[0] as int)) as usize]
            + pos_of(extents.skip(1), index / (extents[0] as int))
    }
}

/// The coordinate that follows `pos` in enumeration order, computed the way
/// an odometer turns: the first digit below its maximum is incremented and
/// every digit before it wraps to zero.
pub open spec fn next_pos_of(pos: Seq<usize>, extents: Seq<usize>) -> Seq<usize>
    decreases pos.len(),
{
    if pos.len() == 0 {
        pos
    } else if pos[0] < extents[0] - 1 {
        seq![(pos[0] + 1) as usize] + pos.skip(1)
    } else {
        seq![0usize] + next_pos_of(pos.skip(1), extents.skip(1))
    }
}

/// A well-formed grid holds at least one cell.
pub proof fn lemma_volume_positive(extents: Seq<usize>)
    requires
        valid_extents(extents),
    ensures
        volume_of(extents) >= 1,
    decreases extents.len(),
{
    if extents.len() > 0 {
        lemma_volume_positive(extents.skip(1));
        lemma_mul_inequality(1, extents[0] as int, volume_of(extents.skip(1)));
    }
}

/// Appending an axis multiplies the volume by its extent.
pub proof fn lemma_volume_push(extents: Seq<usize>, extent: usize)
    ensures
        volume_of(extents.push(extent)) == volume_of(extents) * extent,
    decreases extents.len(),
{
    if extents.len() == 0 {
        assert(extents.push(extent).skip(1) =~= Seq::<usize>::empty());
        assert(extents.push(extent)[0] == extent);
        assert(volume_of(extents.push(extent)) == extent * volume_of(Seq::<usize>::empty()));
        assert(extent * 1 == 1 * extent) by (nonlinear_arith);
    } else {
        assert(extents.push(extent).skip(1) =~= extents.skip(1).push(extent));
        lemma_volume_push(extents.skip(1), extent);
        lemma_mul_is_associative(
            extents[0] as int,
            volume_of(extents.skip(1)),
            extent as int,
        );
    }
}

/// The volume splits at any axis into the volume of the prefix times the
/// volume of the suffix.
pub proof fn lemma_volume_split(extents: Seq<usize>, i: int)
    requires
        0 <= i <= extents.len(),
    ensures
        volume_of(extents) == volume_of(extents.take(i)) * volume_of(extents.skip(i)),
    decreases extents.len() - i,
{
    if i == extents.len() {
        assert(extents.take(i) =~= extents);
        assert(extents.skip(i) =~= Seq::<usize>::empty());
    } else {
        lemma_volume_split(extents, i + 1);
        assert(extents.take(i + 1) =~= extents.take(i).push(extents[i]));
        lemma_volume_push(extents.take(i), extents[i]);
        assert(extents.skip(i)[0] == extents[i]);
        assert(extents.skip(i).skip(1) =~= extents.skip(i + 1));
        assert(volume_of(extents.skip(i)) == extents[i] * volume_of(extents.skip(i + 1)));
        lemma_mul_is_associative(
            volume_of(extents.take(i)),
            extents[i] as int,
            volume_of(extents.skip(i + 1)),
        );
    }
}

/// The volume of a prefix of the axes never exceeds the whole volume.
pub proof fn lemma_volume_prefix_bound(extents: Seq<usize>, i: int)
    requires
        valid_extents(extents),
        0 <= i <= extents.len(),
    ensures
        1 <= volume_of(extents.take(i)),
        volume_of(extents.take(i)) <= volume_of(extents),
{
    assert(valid_extents(extents.take(i)));
    assert(valid_extents(extents.skip(i)));
    lemma_volume_positive(extents.take(i));
    lemma_volume_positive(extents.skip(i));
    lemma_volume_split(extents, i);
    lemma_mul_inequality(1, volume_of(extents.skip(i)), volume_of(extents.take(i)));
    vstd::arithmetic::mul::lemma_mul_is_commutative(
        volume_of(extents.take(i)),
        volume_of(extents.skip(i)),
    );
}

/// The flat index of an in-bounds coordinate lies in `[0, volume)`.
pub proof fn lemma_index_of_bounds(pos: Seq<usize>, extents: Seq<usize>)
    requires
        valid_extents(extents),
        in_bounds(pos, extents),
    ensures
        0 <= index_of(pos, extents),
        index_of(pos, extents) < volume_of(extents),
    decreases pos.len(),
{
    if pos.len() > 0 {
        assert(valid_extents(extents.skip(1)));
        assert(in_bounds(pos.skip(1), extents.skip(1)));
        lemma_index_of_bounds(pos.skip(1), extents.skip(1));
        let e0 = extents[0] as int;
        let rest = index_of(pos.skip(1), extents.skip(1));
        let vrest = volume_of(extents.skip(1));
        assert(pos[0] + e0 * rest < e0 * vrest) by (nonlinear_arith)
            requires
                pos[0] < e0,
                0 <= rest,
                rest <= vrest - 1,
                1 <= e0,
        {}
        assert(0 <= e0 * rest) by (nonlinear_arith)
            requires
                0 <= rest,
                1 <= e0,
        {}
    }
}

/// The digits of any non-negative index form an in-bounds coordinate.
pub proof fn lemma_pos_of_in_bounds(extents: Seq<usize>, index: int)
    requires
        valid_extents(extents),
        0 <= index,
    ensures
        in_bounds(pos_of(extents, index), extents),
    decreases extents.len(),
{
    if extents.len() > 0 {
        let e0 = extents[0] as int;
        assert(0 <= index % e0 < e0);
        assert(0 <= index / e0) by {
            lemma_fundamental_div_mod(index, e0);
            assert(index == e0 * (index / e0) + index % e0);
            if index / e0 < 0 {
                lemma_mul_inequality(index / e0, -1, e0);
                vstd::arithmetic::mul::lemma_mul_is_commutative(e0, index / e0);
            }
        }
        assert(valid_extents(extents.skip(1)));
        lemma_pos_of_in_bounds(extents.skip(1), index / e0);
        let p = pos_of(extents, index);
        assert(p.len() == extents.len());
        assert forall|i: int| 0 <= i < p.len() implies #[trigger] p[i] < extents[i] by {
            if i == 0 {
                assert(p[0] == (index % e0) as usize);
            } else {
                assert(p[i] == pos_of(extents.skip(1), index / e0)[i - 1]);
                assert(extents[i] == extents.skip(1)[i - 1]);
            }
        }
    }
}

/// Flattening the digits of `index` gives back `index`: the first half of
/// the round-trip law.
pub proof fn lemma_index_of_pos_of(extents: Seq<usize>, index: int)
    requires
        valid_extents(extents),
        0 <= index < volume_of(extents),
    ensures
        index_of(pos_of(extents, index), extents) == index,
    decreases extents.len(),
{
    if extents.len() == 0 {
        assert(volume_of(extents) == 1);
    } else {
        let e0 = extents[0] as int;
        let q = index / e0;
        let r = index % e0;
        lemma_fundamental_div_mod(index, e0);
        assert(valid_extents(extents.skip(1)));
        assert(0 <= q) by (nonlinear_arith)
            requires
                index == e0 * q + r,
                0 <= index,
                0 <= r < e0,
                1 <= e0,
        {}
        assert(q < volume_of(extents.skip(1))) by (nonlinear_arith)
            requires
                index == e0 * q + r,
                index < e0 * volume_of(extents.skip(1)),
                0 <= r < e0,
                1 <= e0,
        {}
        lemma_index_of_pos_of(extents.skip(1), q);
        let p = pos_of(extents, index);
        assert(p[0] == r as usize);
        assert(p.skip(1) =~= pos_of(extents.skip(1), q));
        assert(index_of(p, extents) == p[0] + e0 * index_of(p.skip(1), extents.skip(1)));
    }
}

/// Taking the digits of a coordinate's flat index gives back the same
/// coordinate: the second half of the round-trip law.
pub proof fn lemma_pos_of_index_of(pos: Seq<usize>, extents: Seq<usize>)
    requires
        valid_extents(extents),
        in_bounds(pos, extents),
    ensures
        pos_of(extents, index_of(pos, extents)) == pos,
    decreases pos.len(),
{
    if pos.len() == 0 {
        assert(pos_of(extents, 0) =~= pos);
    } else {
        let e0 = extents[0] as int;
        let rest = index_of(pos.skip(1), extents.skip(1));
        let index = index_of(pos, extents);
        assert(valid_extents(extents.skip(1)));
        assert(in_bounds(pos.skip(1), extents.skip(1)));
        lemma_index_of_bounds(pos.skip(1), extents.skip(1));
        vstd::arithmetic::mul::lemma_mul_is_commutative(e0, rest);
        lemma_fundamental_div_mod_converse(index, e0, rest, pos[0] as int);
        assert(index % e0 == pos[0] as int);
        assert(index / e0 == rest);
        lemma_pos_of_index_of(pos.skip(1), extents.skip(1));
        assert(pos_of(extents, index) =~= pos);
    }
}

/// Appending a digit to a coordinate adds that digit times the volume of
/// the axes that precede it.
pub proof fn lemma_index_of_push(
    pos: Seq<usize>,
    extents: Seq<usize>,
    digit: usize,
    extent: usize,
)
    requires
        pos.len() == extents.len(),
    ensures
        index_of(pos.push(digit), extents.push(extent)) == index_of(pos, extents) + digit
            * volume_of(extents),
    decreases pos.len(),
{
    if pos.len() == 0 {
        assert(pos.push(digit).skip(1) =~= Seq::<usize>::empty());
        assert(extents.push(extent).skip(1) =~= Seq::<usize>::empty());
        assert(index_of(pos.push(digit).skip(1), extents.push(extent).skip(1)) == 0);
        assert(pos.push(digit)[0] == digit);
        assert(index_of(pos.push(digit), extents.push(extent)) == digit + (extents.push(
            extent,
        )[0] as int) * 0);
        assert(volume_of(extents) == 1);
        assert(digit * 1 == digit) by (nonlinear_arith);
    } else {
        assert(pos.push(digit).skip(1) =~= pos.skip(1).push(digit));
        assert(extents.push(extent).skip(1) =~= extents.skip(1).push(extent));
        assert(pos.push(digit)[0] == pos[0]);
        assert(extents.push(extent)[0] == extents[0]);
        lemma_index_of_push(pos.skip(1), extents.skip(1), digit, extent);
        let e0 = extents[0] as int;
        let rest = index_of(pos.skip(1), extents.skip(1));
        let vrest = volume_of(extents.skip(1));
        assert(index_of(pos.push(digit), extents.push(extent)) == pos[0] + e0 * (rest + digit
            * vrest));
        assert(e0 * (rest + digit * vrest) == e0 * rest + digit * (e0 * vrest))
            by (nonlinear_arith);
    }
}

/// The coordinate whose digits are all at their maximum has the last flat
/// index of the grid.
pub proof fn lemma_index_of_all_max(pos: Seq<usize>, extents: Seq<usize>)
    requires
        valid_extents(extents),
        in_bounds(pos, extents),
        forall|j: int| 0 <= j < pos.len() ==> #[trigger] pos[j] == extents[j] - 1,
    ensures
        index_of(pos, extents) == volume_of(extents) - 1,
    decreases pos.len(),
{
    if pos.len() > 0 {
        let e0 = extents[0] as int;
        let vrest = volume_of(extents.skip(1));
        assert(valid_extents(extents.skip(1)));
        assert(in_bounds(pos.skip(1), extents.skip(1)));
        assert forall|j: int| 0 <= j < pos.skip(1).len()
            implies #[trigger] pos.skip(1)[j] == extents.skip(1)[j] - 1 by {
            assert(pos.skip(1)[j] == pos[j + 1]);
            assert(extents.skip(1)[j] == extents[j + 1]);
        }
        lemma_index_of_all_max(pos.skip(1), extents.skip(1));
        assert((e0 - 1) + e0 * (vrest - 1) == e0 * vrest - 1) by (nonlinear_arith);
    }
}

/// Turning the odometer adds one to the flat index and stays in bounds.
pub proof fn lemma_next_pos_of(pos: Seq<usize>, extents: Seq<usize>)
    requires
        valid_extents(extents),
        in_bounds(pos, extents),
        index_of(pos, extents) + 1 < volume_of(extents),
    ensures
        in_bounds(next_pos_of(pos, extents), extents),
        index_of(next_pos_of(pos, extents), extents) == index_of(pos, extents) + 1,
    decreases pos.len(),
{
    let e0 = extents[0] as int;
    let rest = index_of(pos.skip(1), extents.skip(1));
    let next = next_pos_of(pos, extents);
    if pos[0] < e0 - 1 {
        assert(next.skip(1) =~= pos.skip(1));
        assert(index_of(next, extents) == pos[0] + 1 + e0 * rest);
        assert forall|i: int| 0 <= i < next.len() implies #[trigger] next[i] < extents[i] by {
            if i > 0 {
                assert(next[i] == pos[i]);
            }
        }
    } else {
        assert(pos[0] == e0 - 1);
        let vrest = volume_of(extents.skip(1));
        assert(valid_extents(extents.skip(1)));
        assert(in_bounds(pos.skip(1), extents.skip(1)));
        assert(rest + 1 < vrest) by (nonlinear_arith)
            requires
                (e0 - 1) + e0 * rest + 1 < e0 * vrest,
                1 <= e0,
        {}
        lemma_next_pos_of(pos.skip(1), extents.skip(1));
        let next_rest = next_pos_of(pos.skip(1), extents.skip(1));
        assert(next.skip(1) =~= next_rest);
        assert(index_of(next, extents) == 0 + e0 * (rest + 1));
        assert(e0 * (rest + 1) == e0 - 1 + e0 * rest + 1) by (nonlinear_arith);
        assert forall|i: int| 0 <= i < next.len() implies #[trigger] next[i] < extents[i] by {
            if i > 0 {
                assert(next[i] == next_rest[i - 1]);
                assert(extents[i] == extents.skip(1)[i - 1]);
            }
        }
    }
}

/// Written out positionally, the odometer step zeroes every digit before
/// the first one below its maximum and increments that digit.
pub proof fn lemma_next_pos_of_form(pos: Seq<usize>, extents: Seq<usize>, i: int)
    requires
        pos.len() == extents.len(),
        0 <= i < pos.len(),
        forall|j: int| 0 <= j < i ==> #[trigger] pos[j] == extents[j] - 1,
        pos[i] < extents[i] - 1,
    ensures
        next_pos_of(pos, extents) =~= Seq::new(
            pos.len(),
            |j: int|
                if j < i {
                    0usize
                } else if j == i {
                    (pos[i] + 1) as usize
                } else {
                    pos[j]
                },
        ),
    decreases i,
{
    if i == 0 {
        assert(pos[0] < extents[0] - 1);
    } else {
        assert(pos[0] == extents[0] - 1);
        assert forall|j: int| 0 <= j < i - 1
            implies #[trigger] pos.skip(1)[j] == extents.skip(1)[j] - 1 by {
            assert(pos.skip(1)[j] == pos[j + 1]);
            assert(extents.skip(1)[j] == extents[j + 1]);
        }
        assert(pos.skip(1)[i - 1] == pos[i]);
        assert(extents.skip(1)[i - 1] == extents[i]);
        lemma_next_pos_of_form(pos.skip(1), extents.skip(1), i - 1);
    }
}

/// The closed form of a digit: axis `i` of the coordinate of `index` is
/// the index divided by the volume of the axes before `i`, modulo the
/// extent of axis `i`.
pub proof fn lemma_pos_of_digit(extents: Seq<usize>, index: int, i: int)
    requires
        valid_extents(extents),
        0 <= index,
        0 <= i < extents.len(),
    ensures
        pos_of(extents, index)[i] == (index / volume_of(extents.take(i))) % (extents[i] as int),
    decreases i,
{
    lemma_pos_of_in_bounds(extents, index);
    let e0 = extents[0] as int;
    if i == 0 {
        assert(extents.take(0) =~= Seq::<usize>::empty());
        assert(index / 1 == index) by (nonlinear_arith);
        assert(pos_of(extents, index)[0] == (index % e0) as usize);
        assert(0 <= index % e0 < e0);
    } else {
        let q = index / e0;
        assert(0 <= q) by {
            vstd::arithmetic::div_mod::lemma_div_pos_is_pos(index, e0);
        }
        assert(valid_extents(extents.skip(1)));
        lemma_pos_of_digit(extents.skip(1), q, i - 1);
        assert(pos_of(extents, index)[i] == pos_of(extents.skip(1), q)[i - 1]);
        assert(extents.skip(1)[i - 1] == extents[i]);
        let vprefix = volume_of(extents.skip(1).take(i - 1));
        assert(extents.take(i)[0] == extents[0]);
        assert(extents.take(i).skip(1) =~= extents.skip(1).take(i - 1));
        assert(volume_of(extents.take(i)) == e0 * vprefix);
        assert(valid_extents(extents.skip(1).take(i - 1)));
        lemma_volume_positive(extents.skip(1).take(i - 1));
        assert(q / vprefix == index / (e0 * vprefix)) by {
            vstd::arithmetic::div_mod::lemma_div_denominator(index, e0, vprefix);
        }
    }
}

/// Enumeration law: walking the flat indices `0 .. volume` through
/// `pos_of` visits only in-bounds coordinates and never visits one twice,
/// so a full walk yields exactly `volume` distinct coordinates.
pub proof fn lemma_enumeration_distinct(extents: Seq<usize>, j: int, k: int)
    requires
        valid_extents(extents),
        0 <= j < volume_of(extents),
        0 <= k < volume_of(extents),
    ensures
        in_bounds(pos_of(extents, j), extents),
        j != k ==> pos_of(extents, j) != pos_of(extents, k),
{
    lemma_pos_of_in_bounds(extents, j);
    lemma_index_of_pos_of(extents, j);
    lemma_index_of_pos_of(extents, k);
}

/// The all-zero coordinate is the digit string of index zero.
pub proof fn lemma_pos_of_zero(extents: Seq<usize>)
    requires
        valid_extents(extents),
    ensures
        pos_of(extents, 0) =~= Seq::new(extents.len(), |i: int| 0usize),
    decreases extents.len(),
{
    if extents.len() > 0 {
        let e0 = extents[0] as int;
        assert(0int % e0 == 0);
        assert(0int / e0 == 0) by {
            vstd::arithmetic::div_mod::lemma_div_of0(e0);
        }
        assert(valid_extents(extents.skip(1)));
        lemma_pos_of_zero(extents.skip(1));
    }
}

} // verus!
