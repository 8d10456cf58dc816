//! The quantities a MOC can cover: here the HEALPix sky tessellation.

use vstd::prelude::*;
use vstd::arithmetic::power2::{pow2, lemma2_to64, lemma2_to64_rest, lemma_pow2_adds, lemma_pow2_pos};
use vstd::arithmetic::mul::lemma_mul_inequality;
use core::marker::PhantomData;
use crate::idx::Idx;

verus! {

/// A hierarchical tessellation of a quantity: `n_d0_cells` cells at depth 0, each cell
/// of depth `d` split into `2^dim` cells of depth `d + 1`, down to `max_depth`.
///
/// MOC ranges are expressed at `max_depth`: the universe is `[0, n_cells_max)`.
pub trait MocQty<T: Idx>: Sized {
    spec fn n_d0_cells_spec() -> nat;
    spec fn dim_spec() -> nat;
    spec fn max_depth_spec() -> nat;

    fn max_depth() -> (r: u8)
        ensures
            r as nat == Self::max_depth_spec(),
    ;

    fn dim() -> (r: u8)
        ensures
            r as nat == Self::dim_spec(),
    ;

    /// Number of cells at the maximum depth: the exclusive upper bound of every range.
    fn n_cells_max() -> (r: u64)
        ensures
            r as nat == Self::n_d0_cells_spec() * pow2(Self::dim_spec() * Self::max_depth_spec()),
    ;

    /// Facts shared by every quantity: the universe fits in the index type.
    proof fn lemma_qty()
        ensures
            Self::n_d0_cells_spec() > 0,
            Self::dim_spec() > 0,
            Self::dim_spec() * Self::max_depth_spec() < 64,
            Self::max_depth_spec() <= 29,
            Self::n_d0_cells_spec() * pow2(Self::dim_spec() * Self::max_depth_spec()) <= T::max_value_spec(),
    ;
}

/// Number of cells at depth `depth`.
pub open spec fn n_cells_spec<T: Idx, Q: MocQty<T>>(depth: nat) -> nat {
    Q::n_d0_cells_spec() * pow2(Q::dim_spec() * depth)
}

/// Exclusive upper bound of the values of a MOC on quantity `Q`.
pub open spec fn upper_bound_spec<T: Idx, Q: MocQty<T>>() -> nat {
    n_cells_spec::<T, Q>(Q::max_depth_spec())
}

/// Number of bits a cell index of depth `depth` is shifted by to be expressed at the maximum depth.
pub open spec fn shift_spec<T: Idx, Q: MocQty<T>>(depth: nat) -> nat {
    (Q::dim_spec() * (Q::max_depth_spec() - depth)) as nat
}

/// Number of maximum-depth values that a cell of depth `depth` covers.
pub open spec fn cell_size_spec<T: Idx, Q: MocQty<T>>(depth: nat) -> nat {
    pow2(shift_spec::<T, Q>(depth))
}

/// Returns the number of bits a cell index of the given depth is shifted by to be expressed at the
/// maximum depth.
pub fn shift_from_depth_max<T: Idx, Q: MocQty<T>>(depth: u8) -> (r: u32)
    requires
        depth as nat <= Q::max_depth_spec(),
    ensures
        r as nat == shift_spec::<T, Q>(depth as nat),
        r < 64,
{
    proof {
        Q::lemma_qty();
        assert(Q::dim_spec() * (Q::max_depth_spec() - depth) <= Q::dim_spec() * Q::max_depth_spec())
            by (nonlinear_arith)
            requires depth as nat <= Q::max_depth_spec();
    }
    let md = Q::max_depth();
    let dim = Q::dim();
    let diff: u8 = md - depth;
    assert((dim as nat) * (diff as nat) < 64);
    (dim as u32) * (diff as u32)
}

/// A cell `idx` of depth `depth` covers the maximum-depth values
/// `[idx * cell_size, (idx + 1) * cell_size)`, all below the upper bound.
pub proof fn lemma_cell_in_universe<T: Idx, Q: MocQty<T>>(depth: nat, idx: nat)
    requires
        depth <= Q::max_depth_spec(),
        idx < n_cells_spec::<T, Q>(depth),
    ensures
        (idx + 1) * cell_size_spec::<T, Q>(depth) <= upper_bound_spec::<T, Q>(),
        cell_size_spec::<T, Q>(depth) > 0,
{
    Q::lemma_qty();
    let d = Q::dim_spec();
    let md = Q::max_depth_spec();
    assert(d * depth + d * ((md - depth) as nat) == d * md) by (nonlinear_arith)
        requires depth <= md;
    lemma_pow2_adds(d * depth, d * ((md - depth) as nat));
    lemma_pow2_pos(shift_spec::<T, Q>(depth));
    lemma_mul_inequality((idx + 1) as int, n_cells_spec::<T, Q>(depth) as int, cell_size_spec::<T, Q>(depth) as int);
    let a = Q::n_d0_cells_spec();
    let p1 = pow2(d * depth);
    let p2 = pow2(d * ((md - depth) as nat));
    assert((a * p1) * p2 == a * (p1 * p2)) by (nonlinear_arith);
}

/// The HEALPix tessellation of the sphere: 12 base cells, each split in 4 at each depth.
#[derive(Debug)]
pub struct Hpx<T> {
    _type: PhantomData<T>,
}

impl<T: Idx> MocQty<T> for Hpx<T> {
    open spec fn n_d0_cells_spec() -> nat { 12 }
    open spec fn dim_spec() -> nat { 2 }
    /// One bit is kept for a sentinel and four code the base cell.
    open spec fn max_depth_spec() -> nat { ((T::n_bits_spec() - 5) / 2) as nat }

    fn max_depth() -> (r: u8) {
        proof { T::lemma_width(); }
        (T::n_bits() - 5) / 2
    }

    fn dim() -> (r: u8) {
        2
    }

    fn n_cells_max() -> (r: u64) {
        proof {
            T::lemma_width();
            lemma2_to64();
            lemma2_to64_rest();
        }
        let md = Self::max_depth();
        if md == 29 {
            0x3000_0000_0000_0000u64
        } else if md == 13 {
            0x3000_0000u64
        } else {
            0x3000u64
        }
    }

    proof fn lemma_qty() {
        T::lemma_width();
        lemma2_to64();
        lemma2_to64_rest();
    }
}

} // verus!
