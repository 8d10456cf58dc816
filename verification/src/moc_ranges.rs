//! Sorted, non-overlapping ranges of cell indices at the maximum depth of a quantity.

use vstd::prelude::*;
use core::marker::PhantomData;
use core::ops::Range;
use crate::idx::Idx;
use crate::qty::{MocQty, upper_bound_spec};
use crate::ranges::{
    covers, cover, sorted_non_overlapping, canonical, bounded, canonical_of, universe, sym_diff,
    sweep, SetOp, lemma_cover_bounded, lemma_bounded_cover, lemma_is_canonical_of,
    lemma_canonical_is_sno,
};

verus! {

/// The `(start, end)` values of a list of ranges of indices.
pub open spec fn range_pairs<T: Idx>(s: Seq<Range<T>>) -> Seq<(u64, u64)> {
    s.map_values(|r: Range<T>| (r.start.to_u64_spec(), r.end.to_u64_spec()))
}

/// The set of the points `x` with `op(x in a, x in b)`.
pub open spec fn op_set(op: SetOp, a: Set<int>, b: Set<int>) -> Set<int> {
    Set::new(|x: int| op.apply_spec(a.contains(x), b.contains(x)))
}

/// Reads the `(start, end)` values of a list of ranges.
pub fn to_pairs<T: Idx>(v: &[Range<T>]) -> (r: Vec<(u64, u64)>)
    ensures
        r@ == range_pairs(v@),
{
    let mut r: Vec<(u64, u64)> = Vec::new();
    let mut i: usize = 0;
    while i < v.len()
        invariant
            0 <= i <= v@.len(),
            r@ == range_pairs(v@.take(i as int)),
        decreases v@.len() - i,
    {
        let s = v[i].start.to_u64();
        let e = v[i].end.to_u64();
        r.push((s, e));
        assert(v@.take(i + 1) == v@.take(i as int).push(v@[i as int]));
        i = i + 1;
    }
    assert(v@.take(v@.len() as int) == v@);
    r
}

/// Builds a list of ranges of indices from `(start, end)` values that fit the index type.
pub fn from_pairs<T: Idx>(v: &Vec<(u64, u64)>) -> (r: Vec<Range<T>>)
    requires
        forall|k: int| 0 <= k < v@.len() ==> #[trigger] v@[k].0 <= T::max_value_spec() && v@[k].1
            <= T::max_value_spec(),
    ensures
        range_pairs(r@) == v@,
{
    let mut r: Vec<Range<T>> = Vec::new();
    let mut i: usize = 0;
    while i < v.len()
        invariant
            0 <= i <= v@.len(),
            forall|k: int| 0 <= k < v@.len() ==> #[trigger] v@[k].0 <= T::max_value_spec() && v@[k].1
                <= T::max_value_spec(),
            range_pairs(r@) == v@.take(i as int),
            r@.len() == i,
        decreases v@.len() - i,
    {
        let (s, e) = v[i];
        let range = Range { start: T::from_u64(s), end: T::from_u64(e) };
        let ghost old_r = r@;
        r.push(range);
        assert(range_pairs(r@) =~= v@.take(i + 1)) by {
            assert forall|k: int| 0 <= k < i + 1 implies range_pairs(r@)[k] == v@.take(i + 1)[k] by {
                if k < i {
                    assert(r@[k] == old_r[k]);
                    assert(range_pairs(old_r)[k] == v@.take(i as int)[k]);
                }
            }
        }
        i = i + 1;
    }
    assert(v@.take(v@.len() as int) == v@);
    r
}

/// Ranges of indices at the maximum depth of quantity `Q`: sorted, non-overlapping, non-empty
/// and within the universe `[0, n_cells_max)` of `Q`.
#[derive(Debug)]
pub struct MocRanges<T: Idx, Q: MocQty<T>> {
    ranges: Vec<Range<T>>,
    _qty: PhantomData<Q>,
}

impl<T: Idx, Q: MocQty<T>> Clone for MocRanges<T, Q> {
    fn clone(&self) -> (r: Self)
        ensures
            r@ == self@,
    {
        proof {
            use_type_invariant(self);
        }
        let pairs = to_pairs(self.ranges.as_slice());
        proof {
            Q::lemma_qty();
            assert forall|k: int| 0 <= k < pairs@.len() implies #[trigger] pairs@[k].0 <= T::max_value_spec()
                && pairs@[k].1 <= T::max_value_spec() by {
                assert(pairs@[k].0 < pairs@[k].1);
            }
        }
        let ranges = from_pairs::<T>(&pairs);
        MocRanges { ranges, _qty: PhantomData }
    }
}

impl<T: Idx, Q: MocQty<T>> View for MocRanges<T, Q> {
    type V = Seq<(u64, u64)>;

    closed spec fn view(&self) -> Seq<(u64, u64)> {
        range_pairs(self.ranges@)
    }
}

impl<T: Idx, Q: MocQty<T>> MocRanges<T, Q> {
    #[verifier::type_invariant]
    spec fn valid(self) -> bool {
        &&& sorted_non_overlapping(range_pairs(self.ranges@))
        &&& bounded(range_pairs(self.ranges@), upper_bound_spec::<T, Q>())
    }

    /// Wraps ranges that are known to be sorted, non-overlapping and within the universe.
    pub fn new_unchecked(ranges: Vec<Range<T>>) -> (r: Self)
        requires
            sorted_non_overlapping(range_pairs(ranges@)),
            bounded(range_pairs(ranges@), upper_bound_spec::<T, Q>()),
        ensures
            r@ == range_pairs(ranges@),
    {
        MocRanges { ranges, _qty: PhantomData }
    }

    /// No range.
    pub fn empty() -> (r: Self)
        ensures
            r@ == Seq::<(u64, u64)>::empty(),
    {
        let v: Vec<Range<T>> = Vec::new();
        assert(range_pairs(v@) =~= Seq::<(u64, u64)>::empty());
        MocRanges { ranges: v, _qty: PhantomData }
    }

    /// Builds the ranges from `(start, end)` values: sorted, non-overlapping, within the universe.
    pub(crate) fn from_valid_pairs(v: &Vec<(u64, u64)>) -> (r: Self)
        requires
            sorted_non_overlapping(v@),
            bounded(v@, upper_bound_spec::<T, Q>()),
        ensures
            r@ == v@,
    {
        proof {
            Q::lemma_qty();
            assert forall|k: int| 0 <= k < v@.len() implies #[trigger] v@[k].0 <= T::max_value_spec()
                && v@[k].1 <= T::max_value_spec() by {
                assert(v@[k].0 < v@[k].1);
            }
        }
        let ranges = from_pairs::<T>(v);
        MocRanges { ranges, _qty: PhantomData }
    }

    /// The ranges.
    pub fn ranges(&self) -> (r: &[Range<T>])
        ensures
            range_pairs(r@) == self@,
            sorted_non_overlapping(self@),
    {
        proof {
            use_type_invariant(self);
        }
        self.ranges.as_slice()
    }

    /// Gives back the ranges.
    pub fn into_vec(self) -> (r: Vec<Range<T>>)
        ensures
            range_pairs(r@) == self@,
            sorted_non_overlapping(self@),
    {
        proof {
            use_type_invariant(&self);
        }
        self.ranges
    }

    /// Number of ranges.
    pub fn len(&self) -> (r: usize)
        ensures
            r == self@.len(),
    {
        self.ranges.len()
    }

    /// The `(start, end)` values of the ranges.
    pub fn to_pairs(&self) -> (r: Vec<(u64, u64)>)
        ensures
            r@ == self@,
            sorted_non_overlapping(r@),
            bounded(r@, upper_bound_spec::<T, Q>()),
    {
        proof {
            use_type_invariant(self);
        }
        to_pairs(self.ranges.as_slice())
    }

    /// Combines two lists of ranges point by point with `op`.
    fn combine(&self, rhs: &Self, op: SetOp) -> (r: Self)
        requires
            !op.apply_spec(false, false),
        ensures
            r@ == canonical_of(op_set(op, cover(self@), cover(rhs@))),
            canonical(r@),
            cover(r@) == op_set(op, cover(self@), cover(rhs@)),
    {
        proof {
            use_type_invariant(self);
            use_type_invariant(rhs);
        }
        let a = self.to_pairs();
        let b = rhs.to_pairs();
        let out = sweep(&a, &b, op);
        proof {
            let ub = upper_bound_spec::<T, Q>();
            assert forall|x: int| covers(out@, x) implies x < ub by {
                if covers(a@, x) {
                    lemma_bounded_cover(a@, ub, x);
                } else {
                    lemma_bounded_cover(b@, ub, x);
                }
            }
            lemma_canonical_is_sno(out@);
            lemma_cover_bounded(out@, ub);
            assert(cover(out@) =~= op_set(op, cover(self@), cover(rhs@)));
            lemma_is_canonical_of(out@, op_set(op, cover(self@), cover(rhs@)));
        }
        Self::from_valid_pairs(&out)
    }

    /// The ranges covering the points covered by both lists.
    pub fn intersection(&self, rhs: &Self) -> (r: Self)
        ensures
            r@ == canonical_of(cover(self@).intersect(cover(rhs@))),
            canonical(r@),
            cover(r@) == cover(self@).intersect(cover(rhs@)),
    {
        let r = self.combine(rhs, SetOp::And);
        assert(op_set(SetOp::And, cover(self@), cover(rhs@)) =~= cover(self@).intersect(cover(rhs@)));
        r
    }

    /// The ranges covering the points covered by either list.
    pub fn union(&self, rhs: &Self) -> (r: Self)
        ensures
            r@ == canonical_of(cover(self@).union(cover(rhs@))),
            canonical(r@),
            cover(r@) == cover(self@).union(cover(rhs@)),
    {
        let r = self.combine(rhs, SetOp::Or);
        assert(op_set(SetOp::Or, cover(self@), cover(rhs@)) =~= cover(self@).union(cover(rhs@)));
        r
    }

    /// The ranges covering the points covered by exactly one of the lists.
    pub fn symmetric_difference(&self, rhs: &Self) -> (r: Self)
        ensures
            r@ == canonical_of(sym_diff(cover(self@), cover(rhs@))),
            canonical(r@),
            cover(r@) == sym_diff(cover(self@), cover(rhs@)),
    {
        let r = self.combine(rhs, SetOp::Xor);
        assert(op_set(SetOp::Xor, cover(self@), cover(rhs@)) =~= sym_diff(cover(self@), cover(rhs@)));
        r
    }

    /// The ranges covering the points covered by `self` and not by `rhs`.
    pub fn difference(&self, rhs: &Self) -> (r: Self)
        ensures
            r@ == canonical_of(cover(self@).difference(cover(rhs@))),
            canonical(r@),
            cover(r@) == cover(self@).difference(cover(rhs@)),
    {
        let r = self.combine(rhs, SetOp::Minus);
        assert(op_set(SetOp::Minus, cover(self@), cover(rhs@)) =~= cover(self@).difference(cover(rhs@)));
        r
    }

    /// The whole universe `[0, n_cells_max)` of the quantity.
    pub fn full() -> (r: Self)
        ensures
            r@ == seq![(0u64, upper_bound_spec::<T, Q>() as u64)],
            cover(r@) == universe(upper_bound_spec::<T, Q>()),
    {
        proof {
            Q::lemma_qty();
            let p = vstd::arithmetic::power2::pow2(Q::dim_spec() * Q::max_depth_spec());
            vstd::arithmetic::power2::lemma_pow2_pos(Q::dim_spec() * Q::max_depth_spec());
            let n = Q::n_d0_cells_spec();
            assert(n * p > 0) by (nonlinear_arith) requires n > 0, p > 0;
        }
        let ub = Q::n_cells_max();
        let mut v: Vec<(u64, u64)> = Vec::new();
        v.push((0, ub));
        proof {
            assert(cover(v@) =~= universe(upper_bound_spec::<T, Q>())) by {
                assert forall|x: int| universe(upper_bound_spec::<T, Q>()).contains(x) implies covers(v@, x) by {
                    assert(v@[0].0 <= x && x < v@[0].1);
                }
            }
        }
        Self::from_valid_pairs(&v)
    }

    /// The ranges covering the points of the universe not covered by `self`.
    pub fn complement(&self) -> (r: Self)
        ensures
            r@ == canonical_of(universe(upper_bound_spec::<T, Q>()).difference(cover(self@))),
            canonical(r@),
            cover(r@) == universe(upper_bound_spec::<T, Q>()).difference(cover(self@)),
    {
        let full = Self::full();
        full.difference(self)
    }
}

} // verus!
