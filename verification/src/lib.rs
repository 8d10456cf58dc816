//! Multi-Order Coverage maps (MOCs) stored as sorted, non-overlapping ranges of cell indices at
//! the maximum depth of a hierarchical tessellation (here HEALPix), with the boolean operations on
//! them, their construction from cells, their borders and their conversion to smaller index types.

pub mod idx;
pub mod qty;
pub mod ranges;
pub mod moc_ranges;
pub mod cells;
pub mod builder;
mod trusted;
pub mod range_moc;
pub mod resolution;
pub mod hpx;
pub mod convert;
pub mod bmoc;
pub mod laws;

pub use idx::Idx;
pub use qty::{Hpx, MocQty};
pub use moc_ranges::MocRanges;
pub use cells::Cell;
pub use range_moc::{RangeMOC, RangeMocIter, RangeRefMocIter, RangeMOCIntoIterator};
pub use convert::{from, checked_from};
