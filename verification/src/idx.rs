//! Unsigned integer types usable as MOC cell indices.

use vstd::prelude::*;

verus! {

/// An unsigned integer type able to store the index of a MOC cell.
///
/// Every value converts losslessly to a `u64`; the abstract value of an index
/// is that `u64`.
pub trait Idx: Sized + Copy {
    /// Number of bits of the type.
    spec fn n_bits_spec() -> nat;

    /// Largest value of the type, as a `u64`.
    spec fn max_value_spec() -> u64;

    /// The value as a `u64`.
    spec fn to_u64_spec(self) -> u64;

    fn n_bits() -> (r: u8)
        ensures
            r as nat == Self::n_bits_spec(),
    ;

    fn to_u64(&self) -> (r: u64)
        ensures
            r == self.to_u64_spec(),
    ;

    fn from_u64(v: u64) -> (r: Self)
        requires
            v <= Self::max_value_spec(),
        ensures
            r.to_u64_spec() == v,
    ;

    /// The width of the type and its largest value.
    proof fn lemma_width()
        ensures
            Self::n_bits_spec() == 16 || Self::n_bits_spec() == 32 || Self::n_bits_spec() == 64,
            Self::max_value_spec() as nat + 1 == vstd::arithmetic::power2::pow2(Self::n_bits_spec()),
    ;
}

/// The values of a list of indices, as `u64`.
pub open spec fn idx_values<T: Idx>(s: Seq<T>) -> Seq<u64> {
    s.map_values(|t: T| t.to_u64_spec())
}

impl Idx for u64 {
    open spec fn n_bits_spec() -> nat { 64 }
    open spec fn max_value_spec() -> u64 { u64::MAX }
    open spec fn to_u64_spec(self) -> u64 { self }

    fn n_bits() -> (r: u8) { 64 }
    fn to_u64(&self) -> (r: u64) { *self }
    fn from_u64(v: u64) -> (r: Self) { v }

    proof fn lemma_width() {
        vstd::arithmetic::power2::lemma2_to64();
        vstd::arithmetic::power2::lemma2_to64_rest();
    }
}

impl Idx for u32 {
    open spec fn n_bits_spec() -> nat { 32 }
    open spec fn max_value_spec() -> u64 { u32::MAX as u64 }
    open spec fn to_u64_spec(self) -> u64 { self as u64 }

    fn n_bits() -> (r: u8) { 32 }
    fn to_u64(&self) -> (r: u64) { *self as u64 }
    fn from_u64(v: u64) -> (r: Self) { v as u32 }

    proof fn lemma_width() {
        vstd::arithmetic::power2::lemma2_to64();
    }
}

impl Idx for u16 {
    open spec fn n_bits_spec() -> nat { 16 }
    open spec fn max_value_spec() -> u64 { u16::MAX as u64 }
    open spec fn to_u64_spec(self) -> u64 { self as u64 }

    fn n_bits() -> (r: u8) { 16 }
    fn to_u64(&self) -> (r: u64) { *self as u64 }
    fn from_u64(v: u64) -> (r: Self) { v as u16 }

    proof fn lemma_width() {
        vstd::arithmetic::power2::lemma2_to64();
    }
}

} // verus!
