//! A MOC made of (ordered and non-overlapping) ranges, and iterators over its ranges.

use vstd::prelude::*;
use core::marker::PhantomData;
use core::ops::Range;
use crate::idx::{Idx, idx_values};
use crate::qty::{MocQty, n_cells_spec, cell_size_spec, upper_bound_spec};
use crate::ranges::{cover, canonical, canonical_of, universe, sym_diff, sorted_non_overlapping};
use crate::cells::cells_cover;
use crate::moc_ranges::{MocRanges, range_pairs};
use crate::builder::add_fixed_depth_cells;

verus! {

/// The larger of two depths.
pub open spec fn max_depth_of(a: u8, b: u8) -> u8 {
    if a >= b { a } else { b }
}

fn max_u8(a: u8, b: u8) -> (r: u8)
    ensures
        r == max_depth_of(a, b),
{
    if a >= b { a } else { b }
}

/// The `(start, end)` values of a range of indices.
pub open spec fn range_pair<T: Idx>(r: Range<T>) -> (u64, u64) {
    (r.start.to_u64_spec(), r.end.to_u64_spec())
}

/// A MOC made of (ordered and non-overlaping) ranges.
#[derive(Debug)]
pub struct RangeMOC<T: Idx, Q: MocQty<T>> {
    depth_max: u8,
    ranges: MocRanges<T, Q>,
}

impl<T: Idx, Q: MocQty<T>> Clone for RangeMOC<T, Q> {
    fn clone(&self) -> (r: Self)
        ensures
            r.depth_max_spec() == self.depth_max_spec(),
            r.ranges_view() == self.ranges_view(),
    {
        RangeMOC { depth_max: self.depth_max, ranges: self.ranges.clone() }
    }
}

impl<T: Idx, Q: MocQty<T>> RangeMOC<T, Q> {
    /// The depth of the MOC.
    pub closed spec fn depth_max_spec(&self) -> u8 {
        self.depth_max
    }

    /// The `(start, end)` values of the ranges of the MOC, at the maximum depth of `Q`.
    pub closed spec fn ranges_view(&self) -> Seq<(u64, u64)> {
        self.ranges@
    }

    /// The maximum-depth values the MOC covers.
    pub open spec fn covered(&self) -> Set<int> {
        cover(self.ranges_view())
    }

    pub fn new(depth_max: u8, ranges: MocRanges<T, Q>) -> (r: Self)
        ensures
            r.depth_max_spec() == depth_max,
            r.ranges_view() == ranges@,
    {
        Self { depth_max, ranges }
    }

    /// Returns the number of ranges the MOC contains
    pub fn len(&self) -> (r: usize)
        ensures
            r == self.ranges_view().len(),
    {
        self.ranges.len()
    }

    pub fn is_empty(&self) -> (r: bool)
        ensures
            r == (self.ranges_view().len() == 0),
    {
        self.len() == 0
    }

    pub fn moc_ranges(&self) -> (r: &MocRanges<T, Q>)
        ensures
            r@ == self.ranges_view(),
    {
        &self.ranges
    }

    pub fn into_moc_ranges(self) -> (r: MocRanges<T, Q>)
        ensures
            r@ == self.ranges_view(),
    {
        self.ranges
    }

    pub fn depth_max(&self) -> (r: u8)
        ensures
            r == self.depth_max_spec(),
    {
        self.depth_max
    }

    /// <=> from HEALPix map, i.e. from a list of HEALPic cell indices at the same depth
    pub fn from_fixed_depth_cells(depth: u8, cells_it: Vec<T>, buf_capacity: Option<usize>) -> (r: Self)
        requires
            depth as nat <= Q::max_depth_spec(),
            forall|k: int| 0 <= k < cells_it@.len() ==> (#[trigger] cells_it@[k]).to_u64_spec()
                < n_cells_spec::<T, Q>(depth as nat),
        ensures
            r.depth_max_spec() == depth,
            r.ranges_view() == canonical_of(
                cells_cover(idx_values(cells_it@), cell_size_spec::<T, Q>(depth as nat)),
            ),
            canonical(r.ranges_view()),
            r.covered() == cells_cover(idx_values(cells_it@), cell_size_spec::<T, Q>(depth as nat)),
    {
        let acc: MocRanges<T, Q> = MocRanges::empty();
        let ranges = add_fixed_depth_cells(acc, depth, &cells_it, buf_capacity);
        proof {
            let target = cells_cover(idx_values(cells_it@), cell_size_spec::<T, Q>(depth as nat));
            assert(cover(Seq::<(u64, u64)>::empty()).union(target) =~= target);
            if cells_it@.len() == 0 {
                assert(target =~= Set::<int>::empty());
                assert(cover(Seq::<(u64, u64)>::empty()) =~= Set::<int>::empty());
                crate::ranges::lemma_is_canonical_of(Seq::<(u64, u64)>::empty(), target);
            }
        }
        Self::new(depth, ranges)
    }

    /// Adds cells of the MOC depth to the MOC.
    pub fn append_fixed_depth_cells(self, depth: u8, cells_it: Vec<T>, buf_capacity: Option<usize>) -> (r: Self)
        requires
            depth == self.depth_max_spec(),
            depth as nat <= Q::max_depth_spec(),
            forall|k: int| 0 <= k < cells_it@.len() ==> (#[trigger] cells_it@[k]).to_u64_spec()
                < n_cells_spec::<T, Q>(depth as nat),
        ensures
            r.depth_max_spec() == depth,
            r.covered() == self.covered().union(
                cells_cover(idx_values(cells_it@), cell_size_spec::<T, Q>(depth as nat)),
            ),
            cells_it@.len() > 0 ==> r.ranges_view() == canonical_of(
                self.covered().union(cells_cover(idx_values(cells_it@), cell_size_spec::<T, Q>(depth as nat))),
            ),
            cells_it@.len() == 0 ==> r.ranges_view() == self.ranges_view(),
            cells_it@.len() > 0 ==> canonical(r.ranges_view()),
    {
        let depth_max = self.depth_max;
        let ranges = add_fixed_depth_cells(self.ranges, depth, &cells_it, buf_capacity);
        Self::new(depth_max, ranges)
    }

    pub fn and(&self, rhs: &RangeMOC<T, Q>) -> (r: RangeMOC<T, Q>)
        ensures
            r.depth_max_spec() == max_depth_of(self.depth_max_spec(), rhs.depth_max_spec()),
            r.ranges_view() == canonical_of(self.covered().intersect(rhs.covered())),
            canonical(r.ranges_view()),
            r.covered() == self.covered().intersect(rhs.covered()),
    {
        let depth_max = max_u8(self.depth_max, rhs.depth_max);
        let ranges = self.ranges.intersection(&rhs.ranges);
        RangeMOC::new(depth_max, ranges)
    }

    pub fn intersection(&self, rhs: &RangeMOC<T, Q>) -> (r: RangeMOC<T, Q>)
        ensures
            r.depth_max_spec() == max_depth_of(self.depth_max_spec(), rhs.depth_max_spec()),
            r.ranges_view() == canonical_of(self.covered().intersect(rhs.covered())),
            canonical(r.ranges_view()),
            r.covered() == self.covered().intersect(rhs.covered()),
    {
        self.and(rhs)
    }

    pub fn or(&self, rhs: &RangeMOC<T, Q>) -> (r: RangeMOC<T, Q>)
        ensures
            r.depth_max_spec() == max_depth_of(self.depth_max_spec(), rhs.depth_max_spec()),
            r.ranges_view() == canonical_of(self.covered().union(rhs.covered())),
            canonical(r.ranges_view()),
            r.covered() == self.covered().union(rhs.covered()),
    {
        let depth_max = max_u8(self.depth_max, rhs.depth_max);
        let ranges = self.ranges.union(&rhs.ranges);
        RangeMOC::new(depth_max, ranges)
    }

    pub fn union(&self, rhs: &RangeMOC<T, Q>) -> (r: RangeMOC<T, Q>)
        ensures
            r.depth_max_spec() == max_depth_of(self.depth_max_spec(), rhs.depth_max_spec()),
            r.ranges_view() == canonical_of(self.covered().union(rhs.covered())),
            canonical(r.ranges_view()),
            r.covered() == self.covered().union(rhs.covered()),
    {
        self.or(rhs)
    }

    pub fn not(&self) -> (r: RangeMOC<T, Q>)
        ensures
            r.depth_max_spec() == self.depth_max_spec(),
            r.ranges_view() == canonical_of(universe(upper_bound_spec::<T, Q>()).difference(self.covered())),
            canonical(r.ranges_view()),
            r.covered() == universe(upper_bound_spec::<T, Q>()).difference(self.covered()),
    {
        self.complement()
    }

    pub fn complement(&self) -> (r: RangeMOC<T, Q>)
        ensures
            r.depth_max_spec() == self.depth_max_spec(),
            r.ranges_view() == canonical_of(universe(upper_bound_spec::<T, Q>()).difference(self.covered())),
            canonical(r.ranges_view()),
            r.covered() == universe(upper_bound_spec::<T, Q>()).difference(self.covered()),
    {
        RangeMOC::new(self.depth_max, self.ranges.complement())
    }

    pub fn xor(&self, rhs: &RangeMOC<T, Q>) -> (r: RangeMOC<T, Q>)
        ensures
            r.depth_max_spec() == max_depth_of(self.depth_max_spec(), rhs.depth_max_spec()),
            r.ranges_view() == canonical_of(sym_diff(self.covered(), rhs.covered())),
            canonical(r.ranges_view()),
            r.covered() == sym_diff(self.covered(), rhs.covered()),
    {
        let depth_max = max_u8(self.depth_max, rhs.depth_max);
        let ranges = self.ranges.symmetric_difference(&rhs.ranges);
        RangeMOC::new(depth_max, ranges)
    }

    pub fn minus(&self, rhs: &RangeMOC<T, Q>) -> (r: RangeMOC<T, Q>)
        ensures
            r.depth_max_spec() == max_depth_of(self.depth_max_spec(), rhs.depth_max_spec()),
            r.ranges_view() == canonical_of(self.covered().difference(rhs.covered())),
            canonical(r.ranges_view()),
            r.covered() == self.covered().difference(rhs.covered()),
    {
        let depth_max = max_u8(self.depth_max, rhs.depth_max);
        let ranges = self.ranges.difference(&rhs.ranges);
        RangeMOC::new(depth_max, ranges)
    }
}

} // verus!

verus! {

/// What is left of sorted, non-overlapping ranges after the first `k` is sorted and non-overlapping.
proof fn lemma_skip_sorted(s: Seq<(u64, u64)>, k: int)
    requires
        sorted_non_overlapping(s),
        0 <= k <= s.len(),
    ensures
        sorted_non_overlapping(s.skip(k)),
{
    let t = s.skip(k);
    assert forall|i: int| 0 <= i < t.len() implies #[trigger] t[i].0 < t[i].1 by {
        assert(t[i] == s[i + k]);
    }
    assert forall|i: int, j: int| 0 <= i < j < t.len() implies #[trigger] t[i].1 <= #[trigger] t[j].0 by {
        assert(t[i] == s[i + k] && t[j] == s[j + k]);
    }
}

/// Iterator taking the ownership of the `RangeMOC` it iterates over.
pub struct RangeMocIter<T: Idx, Q: MocQty<T>> {
    depth_max: u8,
    ranges: Vec<Range<T>>,
    pos: usize,
    last: Option<Range<T>>,
    _qty: PhantomData<Q>,
}

impl<T: Idx, Q: MocQty<T>> RangeMocIter<T, Q> {
    #[verifier::type_invariant]
    spec fn valid(self) -> bool {
        &&& self.pos <= self.ranges@.len()
        &&& sorted_non_overlapping(range_pairs(self.ranges@))
    }

    /// The depth of the MOC iterated over.
    pub closed spec fn depth_max_spec(&self) -> u8 {
        self.depth_max
    }

    /// The ranges not yet returned.
    pub closed spec fn remaining(&self) -> Seq<(u64, u64)> {
        range_pairs(self.ranges@).skip(self.pos as int)
    }

    /// The last range of the MOC iterated over, if any.
    pub closed spec fn last_spec(&self) -> Option<(u64, u64)> {
        match self.last {
            Some(r) => Some(range_pair(r)),
            None => None,
        }
    }

    pub fn depth_max(&self) -> (r: u8)
        ensures
            r == self.depth_max_spec(),
    {
        self.depth_max
    }

    /// Returns the next range, if any.
    pub fn next(&mut self) -> (r: Option<Range<T>>)
        ensures
            final(self).depth_max_spec() == old(self).depth_max_spec(),
            final(self).last_spec() == old(self).last_spec(),
            old(self).remaining().len() == 0 ==> r is None && final(self).remaining() == old(self).remaining(),
            old(self).remaining().len() > 0 ==> (r matches Some(x) && range_pair(x) == old(self).remaining()[0]
                && final(self).remaining() == old(self).remaining().drop_first()),
            r matches Some(x) ==> range_pair(x).0 < range_pair(x).1,
            r matches Some(x) ==> (final(self).remaining().len() > 0 ==> range_pair(x).1
                <= final(self).remaining()[0].0),
            sorted_non_overlapping(old(self).remaining()),
            sorted_non_overlapping(final(self).remaining()),
    {
        proof {
            use_type_invariant(&*self);
        }
        if self.pos < self.ranges.len() {
            let start = self.ranges[self.pos].start;
            let end = self.ranges[self.pos].end;
            self.pos = self.pos + 1;
            proof {
                assert(old(self).remaining()[0] == range_pairs(self.ranges@)[self.pos - 1]);
                assert(self.remaining() =~= old(self).remaining().drop_first());
                lemma_skip_sorted(range_pairs(self.ranges@), self.pos - 1);
                lemma_skip_sorted(range_pairs(self.ranges@), self.pos as int);
                if self.remaining().len() > 0 {
                    assert(self.remaining()[0] == range_pairs(self.ranges@)[self.pos as int]);
                }
            }
            Some(Range { start, end })
        } else {
            proof {
                lemma_skip_sorted(range_pairs(self.ranges@), self.pos as int);
            }
            None
        }
    }

    /// Returns the number of ranges left, as lower and upper bounds.
    pub fn size_hint(&self) -> (r: (usize, Option<usize>))
        ensures
            r.0 == self.remaining().len(),
            r.1 == Some(r.0),
    {
        proof {
            use_type_invariant(self);
        }
        let n = self.ranges.len() - self.pos;
        (n, Some(n))
    }

    /// The last range of the MOC iterated over, if any.
    pub fn peek_last(&self) -> (r: Option<&Range<T>>)
        ensures
            r matches Some(x) ==> self.last_spec() == Some(range_pair(*x)),
            r is None ==> self.last_spec() is None,
    {
        self.last.as_ref()
    }
}

/// Iterator borrowing the `RangeMOC` it iterates over.
pub struct RangeRefMocIter<'a, T: Idx, Q: MocQty<T>> {
    depth_max: u8,
    ranges: &'a [Range<T>],
    pos: usize,
    last: Option<Range<T>>,
    _qty: PhantomData<Q>,
}

impl<'a, T: Idx, Q: MocQty<T>> RangeRefMocIter<'a, T, Q> {
    #[verifier::type_invariant]
    spec fn valid(self) -> bool {
        &&& self.pos <= self.ranges@.len()
        &&& sorted_non_overlapping(range_pairs(self.ranges@))
    }

    /// The depth of the MOC iterated over.
    pub closed spec fn depth_max_spec(&self) -> u8 {
        self.depth_max
    }

    /// The ranges not yet returned.
    pub closed spec fn remaining(&self) -> Seq<(u64, u64)> {
        range_pairs(self.ranges@).skip(self.pos as int)
    }

    /// The last range of the MOC iterated over, if any.
    pub closed spec fn last_spec(&self) -> Option<(u64, u64)> {
        match self.last {
            Some(r) => Some(range_pair(r)),
            None => None,
        }
    }

    pub fn depth_max(&self) -> (r: u8)
        ensures
            r == self.depth_max_spec(),
    {
        self.depth_max
    }

    /// Returns (a copy of) the next range, if any.
    pub fn next(&mut self) -> (r: Option<Range<T>>)
        ensures
            final(self).depth_max_spec() == old(self).depth_max_spec(),
            final(self).last_spec() == old(self).last_spec(),
            old(self).remaining().len() == 0 ==> r is None && final(self).remaining() == old(self).remaining(),
            old(self).remaining().len() > 0 ==> (r matches Some(x) && range_pair(x) == old(self).remaining()[0]
                && final(self).remaining() == old(self).remaining().drop_first()),
            r matches Some(x) ==> range_pair(x).0 < range_pair(x).1,
            r matches Some(x) ==> (final(self).remaining().len() > 0 ==> range_pair(x).1
                <= final(self).remaining()[0].0),
            sorted_non_overlapping(old(self).remaining()),
            sorted_non_overlapping(final(self).remaining()),
    {
        proof {
            use_type_invariant(&*self);
        }
        if self.pos < self.ranges.len() {
            let start = self.ranges[self.pos].start;
            let end = self.ranges[self.pos].end;
            self.pos = self.pos + 1;
            proof {
                assert(old(self).remaining()[0] == range_pairs(self.ranges@)[self.pos - 1]);
                assert(self.remaining() =~= old(self).remaining().drop_first());
                lemma_skip_sorted(range_pairs(self.ranges@), self.pos - 1);
                lemma_skip_sorted(range_pairs(self.ranges@), self.pos as int);
                if self.remaining().len() > 0 {
                    assert(self.remaining()[0] == range_pairs(self.ranges@)[self.pos as int]);
                }
            }
            Some(Range { start, end })
        } else {
            proof {
                lemma_skip_sorted(range_pairs(self.ranges@), self.pos as int);
            }
            None
        }
    }

    /// Returns the number of ranges left, as lower and upper bounds.
    pub fn size_hint(&self) -> (r: (usize, Option<usize>))
        ensures
            r.0 == self.remaining().len(),
            r.1 == Some(r.0),
    {
        proof {
            use_type_invariant(self);
        }
        let n = self.ranges.len() - self.pos;
        (n, Some(n))
    }

    /// The last range of the MOC iterated over, if any.
    pub fn peek_last(&self) -> (r: Option<&Range<T>>)
        ensures
            r matches Some(x) ==> self.last_spec() == Some(range_pair(*x)),
            r is None ==> self.last_spec() is None,
    {
        self.last.as_ref()
    }
}

/// Conversion of a MOC into an iterator over its ranges.
pub trait RangeMOCIntoIterator<T: Idx>: Sized {
    type Qty: MocQty<T>;
    type IntoRangeMOCIter;

    fn into_range_moc_iter(self) -> Self::IntoRangeMOCIter;
}

impl<T: Idx, Q: MocQty<T>> RangeMOCIntoIterator<T> for RangeMOC<T, Q> {
    type Qty = Q;
    type IntoRangeMOCIter = RangeMocIter<T, Q>;

    fn into_range_moc_iter(self) -> (r: RangeMocIter<T, Q>)
        ensures
            r.depth_max_spec() == self.depth_max_spec(),
            r.remaining() == self.ranges_view(),
            sorted_non_overlapping(r.remaining()),
            self.ranges_view().len() == 0 ==> r.last_spec() is None,
            self.ranges_view().len() > 0 ==> r.last_spec() == Some(self.ranges_view().last()),
    {
        let depth_max = self.depth_max;
        let v = self.ranges.into_vec();
        let l = v.len();
        let last: Option<Range<T>> = if l > 0 {
            Some(Range { start: v[l - 1].start, end: v[l - 1].end })
        } else {
            None
        };
        let r = RangeMocIter { depth_max, ranges: v, pos: 0, last, _qty: PhantomData };
        assert(r.remaining() =~= range_pairs(v@));
        r
    }
}

impl<'a, T: Idx, Q: MocQty<T>> RangeMOCIntoIterator<T> for &'a RangeMOC<T, Q> {
    type Qty = Q;
    type IntoRangeMOCIter = RangeRefMocIter<'a, T, Q>;

    fn into_range_moc_iter(self) -> (r: RangeRefMocIter<'a, T, Q>)
        ensures
            r.depth_max_spec() == self.depth_max_spec(),
            r.remaining() == self.ranges_view(),
            sorted_non_overlapping(r.remaining()),
            self.ranges_view().len() == 0 ==> r.last_spec() is None,
            self.ranges_view().len() > 0 ==> r.last_spec() == Some(self.ranges_view().last()),
    {
        let s = self.ranges.ranges();
        let l = s.len();
        let last: Option<Range<T>> = if l > 0 {
            Some(Range { start: s[l - 1].start, end: s[l - 1].end })
        } else {
            None
        };
        let r = RangeRefMocIter { depth_max: self.depth_max, ranges: s, pos: 0, last, _qty: PhantomData };
        assert(r.remaining() =~= range_pairs(s@));
        r
    }
}

} // verus!
