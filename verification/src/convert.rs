//! Conversion of a HEALPix MOC on `u64` indices to smaller index types.

use vstd::prelude::*;
use vstd::arithmetic::power2::{pow2, lemma2_to64, lemma2_to64_rest};
use vstd::arithmetic::div_mod::lemma_div_is_ordered;
use crate::idx::Idx;
use crate::qty::{Hpx, MocQty, upper_bound_spec};
use crate::ranges::{sorted_non_overlapping, bounded};
use crate::moc_ranges::MocRanges;
use crate::range_moc::RangeMOC;
use crate::hpx::{hpx_upper_bound, lemma_hpx_u64_universe};
use crate::resolution::{bounds_divisible, whole_cells, lemma_multiple};
use crate::qty::{cell_size_spec, shift_spec};
use vstd::arithmetic::power2::{lemma_pow2_adds, lemma_pow2_pos};
use vstd::arithmetic::div_mod::{lemma_div_multiples_vanish, lemma_mod_multiples_basic};

verus! {

/// The ranges `rs` with both bounds divided by `div`.
pub open spec fn coarsen(rs: Seq<(u64, u64)>, div: nat) -> Seq<(u64, u64)> {
    rs.map_values(|r: (u64, u64)| ((r.0 as nat / div) as u64, (r.1 as nat / div) as u64))
}

/// The divisor from depth-29 `u64` values to the maximum depth of `Hpx<T>`.
pub open spec fn coarsen_div<T: Idx>() -> nat {
    pow2((64 - T::n_bits_spec()) as nat)
}

/// Facts on the three index types: the divisor, and the universe of `Hpx<T>` being the `u64`
/// universe divided by it.
proof fn lemma_coarsen_div<T: Idx>()
    ensures
        coarsen_div::<T>() > 0,
        upper_bound_spec::<T, Hpx<T>>() == hpx_upper_bound() / coarsen_div::<T>(),
        T::n_bits_spec() == 64 ==> coarsen_div::<T>() == 1,
        T::n_bits_spec() == 32 ==> coarsen_div::<T>() == 0x1_0000_0000,
        T::n_bits_spec() == 16 ==> coarsen_div::<T>() == 0x1_0000_0000_0000,
{
    T::lemma_width();
    lemma2_to64();
    lemma2_to64_rest();
    let n = T::n_bits_spec();
    if n == 64 {
        assert(Hpx::<T>::max_depth_spec() == 29);
        assert(upper_bound_spec::<T, Hpx<T>>() == 12 * pow2(58));
        assert(coarsen_div::<T>() == pow2(0));
        assert(hpx_upper_bound() / 1 == hpx_upper_bound());
    } else if n == 32 {
        assert(Hpx::<T>::max_depth_spec() == 13);
        assert(upper_bound_spec::<T, Hpx<T>>() == 12 * pow2(26));
        assert(coarsen_div::<T>() == pow2(32));
        assert(0x3000_0000_0000_0000nat / 0x1_0000_0000nat == 0x3000_0000nat);
    } else {
        assert(Hpx::<T>::max_depth_spec() == 5);
        assert(upper_bound_spec::<T, Hpx<T>>() == 12 * pow2(10));
        assert(coarsen_div::<T>() == pow2(48));
        assert(0x3000_0000_0000_0000nat / 0x1_0000_0000_0000nat == 0x3000nat);
    }
}

/// Converts a MOC on `u64` indices to a MOC on a smaller index type: each range bound is shifted
/// right by the difference of the number of bits of the two types. The bounds must be multiples
/// of the corresponding power of two (the MOC is made of whole cells of the maximum depth of the
/// smaller type), so that no range becomes empty.
///
/// The depth must be at most the maximum depth of `Hpx<T>` (13 for `u32`, 5 for `u16`).
pub fn from<T: Idx>(range_moc: RangeMOC<u64, Hpx<u64>>) -> (r: RangeMOC<T, Hpx<T>>)
    requires
        range_moc.depth_max_spec() as nat <= Hpx::<T>::max_depth_spec(),
        bounds_divisible(range_moc.ranges_view(), coarsen_div::<T>()),
    ensures
        r.depth_max_spec() == range_moc.depth_max_spec(),
        r.ranges_view() == coarsen(range_moc.ranges_view(), coarsen_div::<T>()),
        whole_cells(range_moc) ==> whole_cells(r),
{
    let ghost input = range_moc.ranges_view();
    let ghost d = range_moc.depth_max_spec() as nat;
    let depth_max = range_moc.depth_max();
    let pairs = range_moc.moc_ranges().to_pairs();
    let n_bits = T::n_bits();
    proof {
        T::lemma_width();
        lemma_hpx_u64_universe();
        lemma_coarsen_div::<T>();
    }
    let shift: u64 = (64 - n_bits) as u64;
    let ghost div = coarsen_div::<T>();
    let ghost ub = upper_bound_spec::<T, Hpx<T>>();
    let mut out: Vec<(u64, u64)> = Vec::new();
    let mut i: usize = 0;
    while i < pairs.len()
        invariant
            0 <= i <= pairs@.len(),
            shift < 64,
            div == pow2(shift as nat),
            div > 0,
            ub == hpx_upper_bound() / div,
            sorted_non_overlapping(pairs@),
            bounded(pairs@, hpx_upper_bound()),
            bounds_divisible(pairs@, div),
            out@ == coarsen(pairs@.take(i as int), div),
            sorted_non_overlapping(out@),
            bounded(out@, ub),
            i > 0 ==> out@.len() > 0 && out@.last().1 <= pairs@[i - 1].1 as nat / div,
        decreases pairs@.len() - i,
    {
        let (s, e) = pairs[i];
        proof {
            vstd::bits::lemma_u64_shr_is_div(s, shift);
            vstd::bits::lemma_u64_shr_is_div(e, shift);
            assert(pairs@[i as int].0 < pairs@[i as int].1);
            assert(e <= hpx_upper_bound());
            lemma_div_is_ordered(e as int, hpx_upper_bound() as int, div as int);
            lemma_divided_lt(s as int, e as int, div as int);
            if i > 0 {
                assert(pairs@[i - 1].1 <= pairs@[i as int].0);
                lemma_div_is_ordered(pairs@[i - 1].1 as int, s as int, div as int);
            }
        }
        let a = s >> shift;
        let b = e >> shift;
        let ghost old_out = out@;
        out.push((a, b));
        proof {
            assert forall|x: int, y: int| 0 <= x < y < out@.len() implies #[trigger] out@[x].1
                <= #[trigger] out@[y].0 by {
                if y == out@.len() - 1 && x < old_out.len() {
                    let l = old_out.len() - 1;
                    if x < l {
                        assert(old_out[x].1 <= old_out[l].0);
                    }
                    assert(old_out[l].0 < old_out[l].1);
                }
            }
            assert(out@ =~= coarsen(pairs@.take(i + 1), div));
        }
        i = i + 1;
    }
    proof {
        assert(pairs@.take(pairs@.len() as int) == pairs@);
    }
    let ranges: MocRanges<T, Hpx<T>> = MocRanges::from_valid_pairs(&out);
    let r = RangeMOC::new(depth_max, ranges);
    proof {
        if whole_cells(range_moc) {
            lemma_coarsen_whole_cells::<T>(input, d);
        }
    }
    r
}

/// Dividing bounds that are multiples of the depth-`d` cell size at depth 29 by the divisor gives
/// multiples of the depth-`d` cell size of `Hpx<T>`.
proof fn lemma_coarsen_whole_cells<T: Idx>(rs: Seq<(u64, u64)>, d: nat)
    requires
        d <= Hpx::<T>::max_depth_spec(),
        bounds_divisible(rs, cell_size_spec::<u64, Hpx<u64>>(d)),
    ensures
        bounds_divisible(coarsen(rs, coarsen_div::<T>()), cell_size_spec::<T, Hpx<T>>(d)),
{
    T::lemma_width();
    lemma_hpx_u64_universe();
    let a = shift_spec::<T, Hpx<T>>(d);
    let b = (64 - T::n_bits_spec()) as nat;
    let n = T::n_bits_spec();
    assert(shift_spec::<u64, Hpx<u64>>(d) == (2 * (29 - d)) as nat);
    if n == 64 {
        assert(Hpx::<T>::max_depth_spec() == 29);
        assert(a == (2 * (29 - d)) as nat && b == 0);
    } else if n == 32 {
        assert(Hpx::<T>::max_depth_spec() == 13);
        assert(a == (2 * (13 - d)) as nat && b == 32);
    } else {
        assert(Hpx::<T>::max_depth_spec() == 5);
        assert(a == (2 * (5 - d)) as nat && b == 48);
    }
    assert(shift_spec::<u64, Hpx<u64>>(d) == a + b);
    lemma_pow2_adds(a, b);
    lemma_pow2_pos(a);
    lemma_pow2_pos(b);
    let pa = pow2(a) as int;
    let pb = pow2(b) as int;
    let c = coarsen(rs, coarsen_div::<T>());
    assert forall|i: int| 0 <= i < c.len() implies (#[trigger] c[i]).0 as int % pa == 0 && c[i].1 as int % pa == 0 by {
        let lo = rs[i].0 as int;
        let hi = rs[i].1 as int;
        assert(pa * pb > 0) by (nonlinear_arith)
            requires pa > 0, pb > 0;
        lemma_multiple(lo, pa * pb);
        lemma_multiple(hi, pa * pb);
        let m0 = lo / (pa * pb);
        let m1 = hi / (pa * pb);
        assert(lo == (m0 * pa) * pb && hi == (m1 * pa) * pb) by (nonlinear_arith)
            requires lo == m0 * (pa * pb), hi == m1 * (pa * pb);
        lemma_div_multiples_vanish(m0 * pa, pb);
        lemma_div_multiples_vanish(m1 * pa, pb);
        assert(pb * (m0 * pa) == (m0 * pa) * pb && pb * (m1 * pa) == (m1 * pa) * pb) by (nonlinear_arith);
        assert(0 <= m0 * pa <= lo) by (nonlinear_arith)
            requires lo == (m0 * pa) * pb, pb > 0, lo >= 0;
        assert(0 <= m1 * pa <= hi) by (nonlinear_arith)
            requires hi == (m1 * pa) * pb, pb > 0, hi >= 0;
        assert(c[i].0 as int == m0 * pa);
        assert(c[i].1 as int == m1 * pa);
        lemma_mod_multiples_basic(m0, pa);
        lemma_mod_multiples_basic(m1, pa);
    }
}

/// The MOC on the smaller index type (see `from`), or `None` when the depth is above the maximum
/// depth of `Hpx<T>` or a range bound is not a multiple of `2^(64 - bits of T)`.
pub fn checked_from<T: Idx>(range_moc: RangeMOC<u64, Hpx<u64>>) -> (r: Option<RangeMOC<T, Hpx<T>>>)
    ensures
        r is Some <==> (range_moc.depth_max_spec() as nat <= Hpx::<T>::max_depth_spec() && bounds_divisible(
            range_moc.ranges_view(),
            coarsen_div::<T>(),
        )),
        r matches Some(m) ==> m.depth_max_spec() == range_moc.depth_max_spec() && m.ranges_view() == coarsen(
            range_moc.ranges_view(),
            coarsen_div::<T>(),
        ),
{
    if range_moc.depth_max() > Hpx::<T>::max_depth() {
        return None;
    }
    let pairs = range_moc.moc_ranges().to_pairs();
    let n_bits = T::n_bits();
    proof {
        T::lemma_width();
        lemma_coarsen_div::<T>();
    }
    let shift: u64 = (64 - n_bits) as u64;
    proof {
        vstd::bits::lemma_u64_pow2_no_overflow(shift as nat);
        vstd::bits::lemma_u64_shl_is_mul(1, shift);
    }
    let div: u64 = 1u64 << shift;
    let mut i: usize = 0;
    while i < pairs.len()
        invariant
            0 <= i <= pairs@.len(),
            div as nat == coarsen_div::<T>(),
            div > 0,
            pairs@ == range_moc.ranges_view(),
            range_moc.depth_max_spec() as nat <= Hpx::<T>::max_depth_spec(),
            bounds_divisible(pairs@.take(i as int), div as nat),
        decreases pairs@.len() - i,
    {
        let (s, e) = pairs[i];
        if s % div != 0 || e % div != 0 {
            proof {
                assert(pairs@[i as int] == (s, e));
                assert(!(pairs@[i as int].0 as int % (coarsen_div::<T>() as int) == 0
                    && pairs@[i as int].1 as int % (coarsen_div::<T>() as int) == 0));
            }
            return None;
        }
        proof {
            let t = pairs@.take(i + 1);
            assert forall|k: int| 0 <= k < t.len() implies (#[trigger] t[k]).0 as int % (div as int) == 0
                && t[k].1 as int % (div as int) == 0 by {
                if k < i {
                    assert(t[k] == pairs@.take(i as int)[k]);
                }
            }
        }
        i = i + 1;
    }
    assert(pairs@.take(pairs@.len() as int) == pairs@);
    Some(from::<T>(range_moc))
}

/// Two distinct multiples of `d` stay distinct and ordered once divided by `d`.
proof fn lemma_divided_lt(s: int, e: int, d: int)
    requires
        d > 0,
        0 <= s < e,
        s % d == 0,
        e % d == 0,
    ensures
        s / d < e / d,
{
    vstd::arithmetic::div_mod::lemma_fundamental_div_mod(s, d);
    vstd::arithmetic::div_mod::lemma_fundamental_div_mod(e, d);
    let a = s / d;
    let b = e / d;
    assert(a < b) by (nonlinear_arith)
        requires s == d * a + 0, e == d * b + 0, s < e, d > 0;
}

} // verus!
