//! Properties of the MOC operations taken together.

use vstd::prelude::*;
use vstd::arithmetic::div_mod::lemma_fundamental_div_mod;
use crate::idx::Idx;
use crate::qty::{MocQty, upper_bound_spec};
use crate::ranges::{covers, cover, canonical, canonical_of, universe, sym_diff, bounded,
    sorted_non_overlapping, lemma_canonical_unique, lemma_is_canonical_of, lemma_bounded_cover};
use crate::cells::{cells_cover, covers_cells};
use crate::range_moc::RangeMOC;
use crate::hpx::{expanded_cover, quad_size, moc_cells, covers_hpx_cells, hpx_upper_bound, lemma_moc_cells_cover,
    has_depth_resolution, lemma_hpx_u64_universe, hpx_cell_start, hpx_cell_end, lemma_moc_cells_ordered,
    lemma_edges_of_contains, lemma_decompose_one_cell, lemma_quad_size_bounds, edges_of, decompose};
use crate::trusted::external_edge_cells;
use vstd::arithmetic::power2::pow2;
use crate::qty::{Hpx, cell_size_spec};
use crate::resolution::{floor_cell, whole_cells, lemma_cell_sizes, lemma_divisible_by_divisor,
    lemma_divisible_cell_closed, lemma_canonical_closed_divisible, lemma_cells_cover_cell_closed,
    lemma_floor_cell_between};
use crate::range_moc::max_depth_of;
use crate::convert::coarsen;
use crate::resolution::bounds_divisible;
use crate::bmoc::{valid_depth_ranges, refine};

verus! {

/// Two canonical lists of ranges covering the same values are identical: a MOC produced by
/// any of the operations is determined by the values it covers.
pub proof fn law_canonical_ranges_unique<T: Idx, Q: MocQty<T>>(a: RangeMOC<T, Q>, b: RangeMOC<T, Q>)
    requires
        canonical(a.ranges_view()),
        canonical(b.ranges_view()),
        a.covered() == b.covered(),
    ensures
        a.ranges_view() == b.ranges_view(),
{
    assert forall|x: int| covers(a.ranges_view(), x) == covers(b.ranges_view(), x) by {
        assert(a.covered().contains(x) == b.covered().contains(x));
        assert(cover(a.ranges_view()).contains(x) == covers(a.ranges_view(), x));
        assert(cover(b.ranges_view()).contains(x) == covers(b.ranges_view(), x));
    }
    lemma_canonical_unique(a.ranges_view(), b.ranges_view());
}

/// `or` (and `union`) is commutative: `a.or(b)` and `b.or(a)` have the same ranges.
pub proof fn law_or_commutative<T: Idx, Q: MocQty<T>>(a: RangeMOC<T, Q>, b: RangeMOC<T, Q>)
    ensures
        canonical_of(a.covered().union(b.covered())) == canonical_of(b.covered().union(a.covered())),
{
    assert(a.covered().union(b.covered()) =~= b.covered().union(a.covered()));
}

/// `and` (and `intersection`) is commutative.
pub proof fn law_and_commutative<T: Idx, Q: MocQty<T>>(a: RangeMOC<T, Q>, b: RangeMOC<T, Q>)
    ensures
        canonical_of(a.covered().intersect(b.covered())) == canonical_of(b.covered().intersect(a.covered())),
{
    assert(a.covered().intersect(b.covered()) =~= b.covered().intersect(a.covered()));
}

/// `xor` is commutative.
pub proof fn law_xor_commutative<T: Idx, Q: MocQty<T>>(a: RangeMOC<T, Q>, b: RangeMOC<T, Q>)
    ensures
        canonical_of(sym_diff(a.covered(), b.covered())) == canonical_of(sym_diff(b.covered(), a.covered())),
{
    assert(sym_diff(a.covered(), b.covered()) =~= sym_diff(b.covered(), a.covered()));
}

/// `or` is associative: `a.or(b).or(c)` and `a.or(b.or(c))` have the same ranges.
pub proof fn law_or_associative<T: Idx, Q: MocQty<T>>(
    a: RangeMOC<T, Q>,
    b: RangeMOC<T, Q>,
    c: RangeMOC<T, Q>,
    ab: RangeMOC<T, Q>,
    bc: RangeMOC<T, Q>,
)
    requires
        ab.covered() == a.covered().union(b.covered()),
        bc.covered() == b.covered().union(c.covered()),
    ensures
        canonical_of(ab.covered().union(c.covered())) == canonical_of(a.covered().union(bc.covered())),
{
    assert(ab.covered().union(c.covered()) =~= a.covered().union(bc.covered()));
}

/// `and` is associative.
pub proof fn law_and_associative<T: Idx, Q: MocQty<T>>(
    a: RangeMOC<T, Q>,
    b: RangeMOC<T, Q>,
    c: RangeMOC<T, Q>,
    ab: RangeMOC<T, Q>,
    bc: RangeMOC<T, Q>,
)
    requires
        ab.covered() == a.covered().intersect(b.covered()),
        bc.covered() == b.covered().intersect(c.covered()),
    ensures
        canonical_of(ab.covered().intersect(c.covered())) == canonical_of(a.covered().intersect(bc.covered())),
{
    assert(ab.covered().intersect(c.covered()) =~= a.covered().intersect(bc.covered()));
}

/// `and` distributes over `or`: `a.and(b.or(c))` and `a.and(b).or(a.and(c))` have the same ranges.
pub proof fn law_and_distributes_over_or<T: Idx, Q: MocQty<T>>(
    a: RangeMOC<T, Q>,
    b: RangeMOC<T, Q>,
    c: RangeMOC<T, Q>,
    bc: RangeMOC<T, Q>,
    ab: RangeMOC<T, Q>,
    ac: RangeMOC<T, Q>,
)
    requires
        bc.covered() == b.covered().union(c.covered()),
        ab.covered() == a.covered().intersect(b.covered()),
        ac.covered() == a.covered().intersect(c.covered()),
    ensures
        canonical_of(a.covered().intersect(bc.covered())) == canonical_of(ab.covered().union(ac.covered())),
{
    assert(a.covered().intersect(bc.covered()) =~= ab.covered().union(ac.covered()));
}

/// A MOC with canonical ranges is left unchanged by `or` and `and` with itself.
pub proof fn law_idempotent<T: Idx, Q: MocQty<T>>(a: RangeMOC<T, Q>)
    requires
        canonical(a.ranges_view()),
    ensures
        canonical_of(a.covered().union(a.covered())) == a.ranges_view(),
        canonical_of(a.covered().intersect(a.covered())) == a.ranges_view(),
{
    assert(a.covered().union(a.covered()) =~= a.covered());
    assert(a.covered().intersect(a.covered()) =~= a.covered());
    lemma_is_canonical_of(a.ranges_view(), a.covered());
}

/// De Morgan: `a.or(b).not()` and `a.not().and(b.not())` have the same ranges, and so have
/// `a.and(b).not()` and `a.not().or(b.not())`.
pub proof fn law_de_morgan<T: Idx, Q: MocQty<T>>(
    a: RangeMOC<T, Q>,
    b: RangeMOC<T, Q>,
    not_a: RangeMOC<T, Q>,
    not_b: RangeMOC<T, Q>,
)
    requires
        not_a.covered() == universe(upper_bound_spec::<T, Q>()).difference(a.covered()),
        not_b.covered() == universe(upper_bound_spec::<T, Q>()).difference(b.covered()),
    ensures
        canonical_of(universe(upper_bound_spec::<T, Q>()).difference(a.covered().union(b.covered())))
            == canonical_of(not_a.covered().intersect(not_b.covered())),
        canonical_of(universe(upper_bound_spec::<T, Q>()).difference(a.covered().intersect(b.covered())))
            == canonical_of(not_a.covered().union(not_b.covered())),
{
    let u = universe(upper_bound_spec::<T, Q>());
    assert(u.difference(a.covered().union(b.covered())) =~= not_a.covered().intersect(not_b.covered()));
    assert(u.difference(a.covered().intersect(b.covered())) =~= not_a.covered().union(not_b.covered()));
}

/// The complement of the complement of a MOC with canonical ranges is the MOC itself:
/// `a.not().not()` has the ranges of `a`.
pub proof fn law_double_complement<T: Idx, Q: MocQty<T>>(a: RangeMOC<T, Q>, not_a: RangeMOC<T, Q>)
    requires
        canonical(a.ranges_view()),
        bounded(a.ranges_view(), upper_bound_spec::<T, Q>()),
        not_a.covered() == universe(upper_bound_spec::<T, Q>()).difference(a.covered()),
    ensures
        canonical_of(universe(upper_bound_spec::<T, Q>()).difference(not_a.covered())) == a.ranges_view(),
{
    let u = universe(upper_bound_spec::<T, Q>());
    assert(u.difference(not_a.covered()) =~= a.covered()) by {
        assert forall|x: int| a.covered().contains(x) implies u.contains(x) by {
            lemma_bounded_cover(a.ranges_view(), upper_bound_spec::<T, Q>(), x);
        }
    }
    lemma_is_canonical_of(a.ranges_view(), a.covered());
}

/// `minus` removes what the other MOC covers: `a.minus(b)` and `a.and(b.not())` have the same
/// ranges, for a MOC `a` within the universe.
pub proof fn law_minus_is_and_not<T: Idx, Q: MocQty<T>>(
    a: RangeMOC<T, Q>,
    b: RangeMOC<T, Q>,
    not_b: RangeMOC<T, Q>,
)
    requires
        bounded(a.ranges_view(), upper_bound_spec::<T, Q>()),
        not_b.covered() == universe(upper_bound_spec::<T, Q>()).difference(b.covered()),
    ensures
        canonical_of(a.covered().difference(b.covered())) == canonical_of(a.covered().intersect(not_b.covered())),
{
    assert(a.covered().difference(b.covered()) =~= a.covered().intersect(not_b.covered())) by {
        assert forall|x: int| a.covered().contains(x) implies universe(upper_bound_spec::<T, Q>()).contains(x) by {
            lemma_bounded_cover(a.ranges_view(), upper_bound_spec::<T, Q>(), x);
        }
    }
}

/// `xor` is the union of the two differences: `a.xor(b)` and `a.minus(b).or(b.minus(a))` have the
/// same ranges.
pub proof fn law_xor_is_union_of_minus<T: Idx, Q: MocQty<T>>(
    a: RangeMOC<T, Q>,
    b: RangeMOC<T, Q>,
    a_minus_b: RangeMOC<T, Q>,
    b_minus_a: RangeMOC<T, Q>,
)
    requires
        a_minus_b.covered() == a.covered().difference(b.covered()),
        b_minus_a.covered() == b.covered().difference(a.covered()),
    ensures
        canonical_of(sym_diff(a.covered(), b.covered())) == canonical_of(
            a_minus_b.covered().union(b_minus_a.covered()),
        ),
{
    assert(sym_diff(a.covered(), b.covered()) =~= a_minus_b.covered().union(b_minus_a.covered()));
}

/// A MOC has no range exactly when it covers nothing (`is_empty`).
pub proof fn law_empty_iff_covers_nothing<T: Idx, Q: MocQty<T>>(a: RangeMOC<T, Q>)
    requires
        sorted_non_overlapping(a.ranges_view()),
    ensures
        (a.ranges_view().len() == 0) == (a.covered() == Set::<int>::empty()),
{
    if a.ranges_view().len() > 0 {
        let r = a.ranges_view()[0];
        assert(r.0 < r.1);
        assert(covers(a.ranges_view(), r.0 as int));
        assert(a.covered().contains(r.0 as int));
    } else {
        assert(a.covered() =~= Set::<int>::empty());
    }
}

/// Adding cells to a MOC gives the ranges of the union of the MOC with the MOC of the cells:
/// `a.append_fixed_depth_cells(d, cells, _)` and `a.or(&RangeMOC::from_fixed_depth_cells(d, cells, _))`
/// have the same ranges when `cells` is not empty.
pub proof fn law_append_is_or<T: Idx, Q: MocQty<T>>(
    a: RangeMOC<T, Q>,
    cells: Seq<u64>,
    size: nat,
    cells_moc: RangeMOC<T, Q>,
)
    requires
        cells_moc.covered() == cells_cover(cells, size),
    ensures
        canonical_of(a.covered().union(cells_cover(cells, size))) == canonical_of(
            a.covered().union(cells_moc.covered()),
        ),
{
}

/// The MOC of a list of cells depends only on which cells it holds, not on their order nor on
/// repetitions.
pub proof fn law_cells_order_irrelevant(c1: Seq<u64>, c2: Seq<u64>, size: nat)
    requires
        forall|c: u64| c1.contains(c) == c2.contains(c),
    ensures
        canonical_of(cells_cover(c1, size)) == canonical_of(cells_cover(c2, size)),
{
    assert forall|x: int| cells_cover(c1, size).contains(x) == cells_cover(c2, size).contains(x) by {
        if covers_cells(c1, size, x) {
            let k = choose|k: int| 0 <= k < c1.len() && crate::cells::in_cell(#[trigger] c1[k], size, x);
            assert(c1.contains(c1[k]));
            let m = choose|m: int| 0 <= m < c2.len() && c2[m] == c1[k];
            assert(crate::cells::in_cell(c2[m], size, x));
        }
        if covers_cells(c2, size, x) {
            let k = choose|k: int| 0 <= k < c2.len() && crate::cells::in_cell(#[trigger] c2[k], size, x);
            assert(c2.contains(c2[k]));
            let m = choose|m: int| 0 <= m < c1.len() && c1[m] == c2[k];
            assert(crate::cells::in_cell(c1[m], size, x));
        }
    }
    assert(cells_cover(c1, size) =~= cells_cover(c2, size));
}

/// The expanded MOC contains the MOC; its external border is what it adds, disjoint from the MOC;
/// the internal border lies within the MOC.
pub proof fn law_borders(
    rs: Seq<(u64, u64)>,
    not_rs: Seq<(u64, u64)>,
    depth_max: u8,
)
    ensures
        cover(rs).subset_of(expanded_cover(rs, depth_max)),
        expanded_cover(rs, depth_max).difference(cover(rs)).disjoint(cover(rs)),
        expanded_cover(rs, depth_max).difference(cover(rs)).union(cover(rs)) == expanded_cover(rs, depth_max),
        expanded_cover(not_rs, depth_max).intersect(cover(rs)).subset_of(cover(rs)),
{
    assert(expanded_cover(rs, depth_max).difference(cover(rs)).union(cover(rs)) =~= expanded_cover(rs, depth_max));
}

/// The cells a HEALPix MOC is split into (`cells`) cover exactly the values of the MOC.
pub proof fn law_cells_cover_the_moc(rs: Seq<(u64, u64)>, x: int)
    requires
        bounded(rs, hpx_upper_bound()),
    ensures
        covers_hpx_cells(moc_cells(rs), x) == covers(rs, x),
{
    lemma_moc_cells_cover(rs, x);
}

/// A value is covered by the converted ranges (`from`) exactly when its multiple by the divisor is
/// covered by the given ranges: converting a MOC made of whole cells of the smaller type's maximum
/// depth keeps its area.
pub proof fn law_coarsen_keeps_cover(rs: Seq<(u64, u64)>, div: nat, y: int)
    requires
        div > 0,
        bounds_divisible(rs, div),
        0 <= y,
    ensures
        covers(coarsen(rs, div), y) == covers(rs, y * div),
{
    let c = coarsen(rs, div);
    let d = div as int;
    if covers(c, y) {
        let i = choose|i: int| 0 <= i < c.len() && #[trigger] c[i].0 <= y && y < c[i].1;
        lemma_scaled_between(rs[i].0 as int, rs[i].1 as int, d, y);
        assert(rs[i].0 <= y * d && y * d < rs[i].1);
    }
    if covers(rs, y * d) {
        let i = choose|i: int| 0 <= i < rs.len() && #[trigger] rs[i].0 <= y * d && y * d < rs[i].1;
        lemma_scaled_between(rs[i].0 as int, rs[i].1 as int, d, y);
        assert(c[i].0 <= y && y < c[i].1);
    }
}

/// For multiples `s` and `e` of `d`: `s / d <= y < e / d` exactly when `s <= y * d < e`.
proof fn lemma_scaled_between(s: int, e: int, d: int, y: int)
    requires
        d > 0,
        s >= 0,
        s % d == 0,
        e % d == 0,
    ensures
        (s / d <= y && y < e / d) == (s <= y * d && y * d < e),
{
    lemma_fundamental_div_mod(s, d);
    lemma_fundamental_div_mod(e, d);
    let a = s / d;
    let b = e / d;
    assert(s == a * d && e == b * d) by (nonlinear_arith)
        requires s == d * a + 0, e == d * b + 0;
    assert((a <= y && y < b) == (a * d <= y * d && y * d < b * d)) by (nonlinear_arith)
        requires d > 0;
}

/// The depth-29 ranges built from ranges of cells of a depth (`from_depth_ranges`) cover a value
/// exactly when the cell of that depth holding it is covered by the given ranges.
pub proof fn law_refine_cover(depth_max: u8, rs: Seq<(u64, u64)>, x: int)
    requires
        valid_depth_ranges(depth_max, rs),
        0 <= x,
    ensures
        covers(refine(rs, quad_size((29 - depth_max) as nat)), x) == covers(
            rs,
            x / (quad_size((29 - depth_max) as nat) as int),
        ),
{
    let f = quad_size((29 - depth_max) as nat) as int;
    let qd = quad_size(depth_max as nat) as int;
    crate::hpx::lemma_quad_size_adds(depth_max as nat, (29 - depth_max) as nat);
    crate::hpx::lemma_quad_size_bounds(29);
    crate::hpx::lemma_quad_size_bounds((29 - depth_max) as nat);
    assert(depth_max as nat + ((29 - depth_max) as nat) == 29);
    let r = refine(rs, f as nat);
    lemma_fundamental_div_mod(x, f);
    let q = x / f;
    assert forall|i: int| 0 <= i < rs.len() implies (#[trigger] r[i]).0 == rs[i].0 * f && r[i].1 == rs[i].1 * f
        && ((r[i].0 <= x && x < r[i].1) == (rs[i].0 <= q && q < rs[i].1)) by {
        let p = rs[i];
        assert(p.0 < p.1 && p.1 <= 12 * qd);
        assert(p.0 * f < p.1 * f && p.1 * f <= 12 * (qd * f)) by (nonlinear_arith)
            requires p.0 < p.1, p.1 <= 12 * qd, f > 0;
        let m = x % f;
        assert((p.0 * f <= x && x < p.1 * f) == (p.0 <= q && q < p.1)) by (nonlinear_arith)
            requires x == f * q + m, 0 <= m < f, f > 0;
    }
    if covers(r, x) {
        let i = choose|i: int| 0 <= i < r.len() && #[trigger] r[i].0 <= x && x < r[i].1;
        assert(rs[i].0 <= q && q < rs[i].1);
    }
    if covers(rs, q) {
        let i = choose|i: int| 0 <= i < rs.len() && #[trigger] rs[i].0 <= q && q < rs[i].1;
        assert(r[i].0 <= x && x < r[i].1);
    }
}

/// `and`, `or`, `xor` and `minus` of two MOCs made of whole cells of their depths give a MOC made
/// of whole cells of its depth (the larger of the two).
pub proof fn law_operations_keep_whole_cells<T: Idx, Q: MocQty<T>>(
    a: RangeMOC<T, Q>,
    b: RangeMOC<T, Q>,
    r: RangeMOC<T, Q>,
)
    requires
        whole_cells(a),
        whole_cells(b),
        canonical(r.ranges_view()),
        r.depth_max_spec() == max_depth_of(a.depth_max_spec(), b.depth_max_spec()),
        r.covered() == a.covered().intersect(b.covered()) || r.covered() == a.covered().union(b.covered())
            || r.covered() == sym_diff(a.covered(), b.covered()) || r.covered() == a.covered().difference(
            b.covered(),
        ),
    ensures
        whole_cells(r),
{
    let d = r.depth_max_spec() as nat;
    let q = cell_size_spec::<T, Q>(d);
    let qi = q as int;
    lemma_cell_sizes::<T, Q>(a.depth_max_spec() as nat, d);
    lemma_cell_sizes::<T, Q>(b.depth_max_spec() as nat, d);
    lemma_cell_sizes::<T, Q>(a.depth_max_spec() as nat, a.depth_max_spec() as nat);
    lemma_cell_sizes::<T, Q>(b.depth_max_spec() as nat, b.depth_max_spec() as nat);
    lemma_divisible_by_divisor(a.ranges_view(), cell_size_spec::<T, Q>(a.depth_max_spec() as nat), q);
    lemma_divisible_by_divisor(b.ranges_view(), cell_size_spec::<T, Q>(b.depth_max_spec() as nat), q);
    lemma_divisible_cell_closed(a.ranges_view(), q);
    lemma_divisible_cell_closed(b.ranges_view(), q);
    assert forall|x: int| #![trigger floor_cell(x, qi)] 0 <= x implies r.covered().contains(x) == r.covered().contains(
        floor_cell(x, qi),
    ) by {
        assert(a.covered().contains(x) == a.covered().contains(floor_cell(x, qi)));
        assert(b.covered().contains(x) == b.covered().contains(floor_cell(x, qi)));
    }
    lemma_canonical_closed_divisible(r.ranges_view(), q);
}

/// The complement of a MOC made of whole cells of its depth is made of whole cells of that depth.
pub proof fn law_complement_keeps_whole_cells<T: Idx, Q: MocQty<T>>(a: RangeMOC<T, Q>, r: RangeMOC<T, Q>)
    requires
        whole_cells(a),
        canonical(r.ranges_view()),
        r.depth_max_spec() == a.depth_max_spec(),
        r.covered() == universe(upper_bound_spec::<T, Q>()).difference(a.covered()),
    ensures
        whole_cells(r),
{
    let d = a.depth_max_spec() as nat;
    let q = cell_size_spec::<T, Q>(d);
    let qi = q as int;
    lemma_cell_sizes::<T, Q>(d, d);
    lemma_divisible_cell_closed(a.ranges_view(), q);
    assert forall|x: int| #![trigger floor_cell(x, qi)] 0 <= x implies r.covered().contains(x) == r.covered().contains(
        floor_cell(x, qi),
    ) by {
        lemma_floor_cell_between(x, qi, upper_bound_spec::<T, Q>() as int);
        lemma_fundamental_div_mod(x, qi);
        let y = floor_cell(x, qi);
        assert(0 <= y) by (nonlinear_arith)
            requires y == (x / qi) * qi, x >= 0, qi > 0;
        assert(a.covered().contains(x) == a.covered().contains(y));
    }
    lemma_canonical_closed_divisible(r.ranges_view(), q);
}

/// A MOC built from cells of its depth (`from_fixed_depth_cells`, or `append_fixed_depth_cells` on
/// a MOC made of whole cells of that depth) is made of whole cells of its depth.
pub proof fn law_fixed_depth_cells_keep_whole_cells<T: Idx, Q: MocQty<T>>(
    m: RangeMOC<T, Q>,
    depth: u8,
    cells: Seq<u64>,
    r: RangeMOC<T, Q>,
)
    requires
        depth as nat <= Q::max_depth_spec(),
        m.covered() == Set::<int>::empty() || (whole_cells(m) && m.depth_max_spec() == depth),
        canonical(r.ranges_view()),
        r.depth_max_spec() == depth,
        r.covered() == m.covered().union(cells_cover(cells, cell_size_spec::<T, Q>(depth as nat))),
    ensures
        whole_cells(r),
{
    let q = cell_size_spec::<T, Q>(depth as nat);
    let qi = q as int;
    lemma_cell_sizes::<T, Q>(depth as nat, depth as nat);
    lemma_cells_cover_cell_closed(cells, q);
    if m.covered() != Set::<int>::empty() {
        lemma_divisible_cell_closed(m.ranges_view(), q);
    }
    assert forall|x: int| #![trigger floor_cell(x, qi)] 0 <= x implies r.covered().contains(x) == r.covered().contains(
        floor_cell(x, qi),
    ) by {
        assert(m.covered().contains(x) == m.covered().contains(floor_cell(x, qi)));
        assert(cells_cover(cells, q).contains(x) == cells_cover(cells, q).contains(floor_cell(x, qi)));
    }
    lemma_canonical_closed_divisible(r.ranges_view(), q);
}

/// For a HEALPix MOC with canonical ranges, the internal border of its complement
/// (`m.not().internal_border()`) covers what its external border (`m.external_border()`) covers.
/// `e` stands for `m.expanded()`, whose values lie in the universe.
pub proof fn law_internal_border_of_complement(m: RangeMOC<u64, Hpx<u64>>, e: RangeMOC<u64, Hpx<u64>>)
    requires
        canonical(m.ranges_view()),
        bounded(m.ranges_view(), hpx_upper_bound()),
        e.covered() == expanded_cover(m.ranges_view(), m.depth_max_spec()),
        bounded(e.ranges_view(), hpx_upper_bound()),
    ensures
        expanded_cover(
            canonical_of(universe(hpx_upper_bound()).difference(
                universe(hpx_upper_bound()).difference(m.covered()),
            )),
            m.depth_max_spec(),
        ).intersect(universe(hpx_upper_bound()).difference(m.covered()))
            == expanded_cover(m.ranges_view(), m.depth_max_spec()).difference(m.covered()),
{
    let u = universe(hpx_upper_bound());
    let c = m.covered();
    assert(u.difference(u.difference(c)) =~= c) by {
        assert forall|x: int| c.contains(x) implies u.contains(x) by {
            lemma_bounded_cover(m.ranges_view(), hpx_upper_bound(), x);
        }
    }
    lemma_is_canonical_of(m.ranges_view(), c);
    let ex = expanded_cover(m.ranges_view(), m.depth_max_spec());
    assert(ex.intersect(u.difference(c)) =~= ex.difference(c)) by {
        assert forall|x: int| ex.contains(x) implies u.contains(x) by {
            assert(e.covered().contains(x));
            assert(covers(e.ranges_view(), x));
            lemma_bounded_cover(e.ranges_view(), hpx_upper_bound(), x);
        }
    }
}

/// `expanded` adds, around every cell of the MOC (each cell of its split, whatever its depth,
/// including cells already at the MOC depth), every value of every cell of depth `depth_max` that
/// cdshealpix's external edge of that cell holds.
pub proof fn law_expanded_covers_every_external_edge(rs: Seq<(u64, u64)>, depth_max: u8, i: int, j: int, x: int)
    requires
        0 <= i < moc_cells(rs).len(),
        0 <= j < external_edge_cells(
            moc_cells(rs)[i].0,
            moc_cells(rs)[i].1,
            (depth_max - moc_cells(rs)[i].0) as u8,
        ).len(),
        ({
            let e = external_edge_cells(moc_cells(rs)[i].0, moc_cells(rs)[i].1, (depth_max - moc_cells(rs)[i].0) as u8)[j];
            e * pow2(2 * ((29 - depth_max) as nat)) <= x && x < (e + 1) * pow2(2 * ((29 - depth_max) as nat))
        }),
    ensures
        expanded_cover(rs, depth_max).contains(x),
{
    let cs = moc_cells(rs);
    let ed = external_edge_cells(cs[i].0, cs[i].1, (depth_max - cs[i].0) as u8);
    lemma_edges_of_contains(cs, depth_max, i, j);
    let edges = edges_of(cs, depth_max);
    let k = choose|k: int| 0 <= k < edges.len() && edges[k] == ed[j];
    assert(crate::cells::in_cell(edges[k], quad_size((29 - depth_max) as nat), x));
    assert(covers_cells(edges, quad_size((29 - depth_max) as nat), x));
}

/// The expanded MOC of a single cell `h` of depth `d` (the MOC's depth) holds every cell of its
/// external edge at depth `d`.
pub proof fn law_expanded_single_cell(d: u8, h: u64, j: int, x: int)
    requires
        d <= 29,
        (h as nat) < 12 * pow2(2 * (d as nat)),
        0 <= j < external_edge_cells(d, h, 0).len(),
        external_edge_cells(d, h, 0)[j] * pow2(2 * ((29 - d) as nat)) <= x,
        x < (external_edge_cells(d, h, 0)[j] + 1) * pow2(2 * ((29 - d) as nat)),
    ensures
        expanded_cover(
            seq![
                ((h * pow2(2 * ((29 - d) as nat))) as u64, ((h + 1) * pow2(2 * ((29 - d) as nat))) as u64),
            ],
            d,
        ).contains(x),
{
    let k = (29 - d) as nat;
    let q = pow2(2 * k);
    lemma_quad_size_bounds(k);
    lemma_quad_size_bounds(29);
    assert((h + 1) * q <= 12 * pow2(2 * (d as nat)) * q) by (nonlinear_arith)
        requires (h as nat) < 12 * pow2(2 * (d as nat)), q > 0;
    crate::hpx::lemma_quad_size_adds(d as nat, k);
    assert((d as nat) + k == 29);
    assert(12 * pow2(2 * (d as nat)) * q == 12 * quad_size(29)) by (nonlinear_arith)
        requires quad_size(29) == pow2(2 * (d as nat)) * q;
    assert(h * q <= (h + 1) * q) by (nonlinear_arith);
    let rs = seq![((h * q) as u64, ((h + 1) * q) as u64)];
    lemma_decompose_one_cell(d as nat, h as nat);
    assert(rs.drop_last() =~= Seq::<(u64, u64)>::empty());
    assert((h + 1) * q <= 0x3000_0000_0000_0000);
    assert(((h * q) as u64) as int == h * q);
    assert((((h + 1) * q) as u64) as int == (h + 1) * q);
    assert(moc_cells(Seq::<(u64, u64)>::empty()) == Seq::<(u8, u64)>::empty());
    assert(moc_cells(rs) == moc_cells(rs.drop_last()) + decompose(rs.last().0 as int, rs.last().1 as int));
    assert(moc_cells(rs) =~= decompose((h * q) as int, ((h + 1) * q) as int));
    assert(moc_cells(rs) == seq![(d, h)]);
    assert((d - d) as u8 == 0u8);
    law_expanded_covers_every_external_edge(rs, d, 0, j, x);
}

/// The cells a HEALPix MOC is split into (`cells`) come in z-order: each cell starts at or after
/// the end of every earlier one.
pub proof fn law_cells_in_z_order(rs: Seq<(u64, u64)>)
    requires
        sorted_non_overlapping(rs),
        bounded(rs, hpx_upper_bound()),
    ensures
        forall|i: int, j: int| 0 <= i < j < moc_cells(rs).len() ==> hpx_cell_end(#[trigger] moc_cells(rs)[i])
            <= hpx_cell_start(#[trigger] moc_cells(rs)[j]),
{
    lemma_moc_cells_ordered(rs);
}

/// `from_depth_ranges` succeeds on every depth up to 29 and every list of sorted, non-overlapping,
/// non-empty ranges of cells of that depth.
pub proof fn law_depth_ranges_accepted(depth_max: u8, rs: Seq<(u64, u64)>)
    ensures
        valid_depth_ranges(depth_max, rs) == (depth_max <= 29 && sorted_non_overlapping(rs) && bounded(
            rs,
            12 * pow2(2 * (depth_max as nat)),
        )),
{
}

/// For HEALPix MOCs on `u64`, being made of whole cells of the depth (as `expanded` and the
/// borders require and ensure) is `whole_cells`.
pub proof fn law_hpx_resolution_is_whole_cells(m: RangeMOC<u64, Hpx<u64>>)
    ensures
        has_depth_resolution(m) == whole_cells(m),
{
    lemma_hpx_u64_universe();
    if m.depth_max_spec() <= 29 {
        let d = m.depth_max_spec();
        assert(cell_size_spec::<u64, Hpx<u64>>(d as nat) == quad_size((29 - d) as nat)) by {
            assert(2 * (29 - d) == 2 * ((29 - d) as nat));
        }
    }
}

} // verus!
