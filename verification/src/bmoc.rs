//! Building a HEALPix MOC from the ranges of a BMOC.

use vstd::prelude::*;
use core::ops::Range;
use crate::qty::Hpx;
use crate::ranges::{sorted_non_overlapping, bounded};
use crate::moc_ranges::{MocRanges, to_pairs, range_pairs};
use crate::range_moc::RangeMOC;
use crate::hpx::{hpx_upper_bound, quad_size, lemma_quad_size_adds, lemma_quad_size_bounds,
    lemma_hpx_u64_universe, aligned, has_depth_resolution};

verus! {

/// Ranges of cells of depth `depth_max` (at most 29): sorted, non-overlapping, within the
/// `12 * 4^depth_max` cells of that depth.
pub open spec fn valid_depth_ranges(depth_max: u8, rs: Seq<(u64, u64)>) -> bool {
    &&& depth_max <= 29
    &&& sorted_non_overlapping(rs)
    &&& bounded(rs, 12 * quad_size(depth_max as nat))
}

/// The ranges `rs` with both bounds multiplied by `factor`.
pub open spec fn refine(rs: Seq<(u64, u64)>, factor: nat) -> Seq<(u64, u64)> {
    rs.map_values(|r: (u64, u64)| ((r.0 * factor) as u64, (r.1 * factor) as u64))
}

/// Ranges of cells of a depth, scaled to depth 29, are made of whole cells of that depth.
pub proof fn lemma_refine_aligned(depth_max: u8, rs: Seq<(u64, u64)>)
    requires
        valid_depth_ranges(depth_max, rs),
    ensures
        aligned(refine(rs, quad_size((29 - depth_max) as nat)), (29 - depth_max) as nat),
{
    let f = quad_size((29 - depth_max) as nat);
    let qd = quad_size(depth_max as nat);
    lemma_quad_size_adds(depth_max as nat, (29 - depth_max) as nat);
    assert(depth_max as nat + ((29 - depth_max) as nat) == 29);
    lemma_quad_size_bounds(29);
    lemma_quad_size_bounds((29 - depth_max) as nat);
    let r = refine(rs, f);
    assert forall|i: int| 0 <= i < r.len() implies (#[trigger] r[i]).0 as int % (f as int) == 0
        && r[i].1 as int % (f as int) == 0 by {
        let p = rs[i];
        assert(p.0 < p.1 && p.1 <= 12 * qd);
        assert(p.0 * f < p.1 * f && p.1 * f <= 12 * (qd * f)) by (nonlinear_arith)
            requires p.0 < p.1, p.1 <= 12 * qd, f > 0;
        assert(r[i].0 as int == p.0 * f);
        assert(r[i].1 as int == p.1 * f);
        vstd::arithmetic::div_mod::lemma_mod_multiples_basic(p.0 as int, f as int);
        vstd::arithmetic::div_mod::lemma_mod_multiples_basic(p.1 as int, f as int);
    }
}

/// Checks that the pairs are sorted, non-overlapping and below `bound`.
fn check_ranges(v: &Vec<(u64, u64)>, bound: u64) -> (r: bool)
    ensures
        r == (sorted_non_overlapping(v@) && bounded(v@, bound as nat)),
{
    let mut i: usize = 0;
    while i < v.len()
        invariant
            0 <= i <= v@.len(),
            sorted_non_overlapping(v@.take(i as int)),
            bounded(v@.take(i as int), bound as nat),
        decreases v@.len() - i,
    {
        let (s, e) = v[i];
        if !(s < e) || e > bound || (i > 0 && v[i - 1].1 > s) {
            proof {
                if !(s < e) {
                    assert(v@[i as int].0 >= v@[i as int].1);
                } else if e > bound {
                    assert(v@[i as int].1 > bound);
                } else {
                    assert(v@[i - 1].1 > v@[i as int].0);
                }
            }
            return false;
        }
        proof {
            let t = v@.take(i + 1);
            assert forall|a: int, b: int| 0 <= a < b < t.len() implies #[trigger] t[a].1 <= #[trigger] t[b].0 by {
                if b == i && a < i {
                    let p = v@.take(i as int);
                    if a < i - 1 {
                        assert(p[a].1 <= p[i - 1].0);
                        assert(p[i - 1].0 < p[i - 1].1);
                    }
                }
            }
        }
        i = i + 1;
    }
    assert(v@.take(v@.len() as int) == v@);
    true
}

impl RangeMOC<u64, Hpx<u64>> {
    /// The MOC of depth `depth_max` covering the given ranges of cells of depth `depth_max`, or
    /// `None` when the depth is above 29 or the ranges are not sorted, non-overlapping and within
    /// the cells of that depth.
    ///
    /// Ranges of cells of a depth, such as those `BMOC::to_ranges` returns (documented by
    /// `cdshealpix` as expressed at the BMOC depth, not at depth 29), are scaled to depth 29, at
    /// which the ranges of a MOC are expressed: each bound is multiplied by `4^(29 - depth_max)`.
    pub fn from_depth_ranges(depth_max: u8, ranges: &[Range<u64>]) -> (r: Option<Self>)
        ensures
            r is Some <==> valid_depth_ranges(depth_max, range_pairs(ranges@)),
            r matches Some(m) ==> m.depth_max_spec() == depth_max && m.ranges_view() == refine(
                range_pairs(ranges@),
                quad_size((29 - depth_max) as nat),
            ),
            r matches Some(m) ==> has_depth_resolution(m),
            depth_max <= 29 && sorted_non_overlapping(range_pairs(ranges@)) && bounded(
                range_pairs(ranges@),
                12 * vstd::arithmetic::power2::pow2(2 * (depth_max as nat)),
            ) ==> r is Some,
    {
        if depth_max > 29 {
            return None;
        }
        proof {
            lemma_quad_size_bounds(depth_max as nat);
            lemma_quad_size_bounds(29);
            vstd::arithmetic::power2::lemma2_to64();
        }
        let pairs = to_pairs(ranges);
        let n_cells: u64 = 12u64 << (2 * depth_max as u64);
        proof {
            vstd::bits::lemma_u64_shl_is_mul(12, (2 * depth_max) as u64);
            assert(n_cells as nat == 12 * quad_size(depth_max as nat));
        }
        if !check_ranges(&pairs, n_cells) {
            return None;
        }
        let shift: u64 = 2 * (29 - depth_max as u64);
        let ghost factor = quad_size((29 - depth_max) as nat);
        proof {
            lemma_quad_size_adds(depth_max as nat, (29 - depth_max) as nat);
            lemma_quad_size_bounds((29 - depth_max) as nat);
            assert(depth_max as nat + ((29 - depth_max) as nat) == 29);
            assert(factor == vstd::arithmetic::power2::pow2(shift as nat));
        }
        let mut out: Vec<(u64, u64)> = Vec::new();
        let mut i: usize = 0;
        while i < pairs.len()
            invariant
                0 <= i <= pairs@.len(),
                shift < 64,
                factor == vstd::arithmetic::power2::pow2(shift as nat),
                factor > 0,
                hpx_upper_bound() == 12 * quad_size(29),
                quad_size(29) == quad_size(depth_max as nat) * factor,
                sorted_non_overlapping(pairs@),
                bounded(pairs@, 12 * quad_size(depth_max as nat)),
                out@ == refine(pairs@.take(i as int), factor),
            decreases pairs@.len() - i,
        {
            let (s, e) = pairs[i];
            proof {
                assert(s < e);
                assert(e <= 12 * quad_size(depth_max as nat));
                let qd = quad_size(depth_max as nat);
                assert(s * factor < e * factor && e * factor <= 12 * (qd * factor)) by (nonlinear_arith)
                    requires s < e, e <= 12 * qd, factor > 0;
                vstd::bits::lemma_u64_shl_is_mul(s, shift);
                vstd::bits::lemma_u64_shl_is_mul(e, shift);
            }
            let a = s << shift;
            let b = e << shift;
            out.push((a, b));
            assert(out@ =~= refine(pairs@.take(i + 1), factor));
            i = i + 1;
        }
        proof {
            assert(pairs@.take(pairs@.len() as int) == pairs@);
            lemma_hpx_u64_universe();
            let rs = refine(pairs@, factor);
            assert forall|k: int| 0 <= k < rs.len() implies (#[trigger] rs[k]).0 < rs[k].1 && rs[k].1 <= hpx_upper_bound() by {
                let p = pairs@[k];
                let qd = quad_size(depth_max as nat);
                assert(p.0 < p.1 && p.1 <= 12 * qd);
                assert(p.0 * factor < p.1 * factor && p.1 * factor <= 12 * (qd * factor)) by (nonlinear_arith)
                    requires p.0 < p.1, p.1 <= 12 * qd, factor > 0;
                assert(rs[k].1 == p.1 * factor);
            }
            assert(bounded(rs, hpx_upper_bound()));
            assert forall|x: int, y: int| 0 <= x < y < rs.len() implies #[trigger] rs[x].1 <= #[trigger] rs[y].0 by {
                let px = pairs@[x];
                let py = pairs@[y];
                let qd = quad_size(depth_max as nat);
                assert(px.1 <= py.0);
                assert(px.1 <= 12 * qd && py.0 < py.1 && py.1 <= 12 * qd);
                assert(px.1 * factor <= py.0 * factor && py.0 * factor <= 12 * (qd * factor)
                    && px.1 * factor <= 12 * (qd * factor)) by (nonlinear_arith)
                    requires px.1 <= py.0, factor > 0, py.0 < py.1, py.1 <= 12 * qd, px.1 <= 12 * qd;
                assert(rs[x].1 == px.1 * factor);
                assert(rs[y].0 == py.0 * factor);
            }
        }
        assert(out@ == refine(pairs@, factor));
        proof {
            lemma_refine_aligned(depth_max, pairs@);
        }
        let ranges: MocRanges<u64, Hpx<u64>> = MocRanges::from_valid_pairs(&out);
        Some(RangeMOC::new(depth_max, ranges))
    }
}

} // verus!
