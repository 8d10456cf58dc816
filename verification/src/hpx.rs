//! Cells of a HEALPix MOC at depth <= 29: splitting ranges into cells.

use vstd::prelude::*;
use vstd::arithmetic::power2::{pow2, lemma2_to64, lemma2_to64_rest, lemma_pow2_adds, lemma_pow2_pos,
    lemma_pow2_strictly_increases};
use vstd::arithmetic::div_mod::{lemma_fundamental_div_mod, lemma_mod_multiples_basic, lemma_div_multiples_vanish};
use crate::idx::Idx;
use crate::qty::{Hpx, MocQty, upper_bound_spec, n_cells_spec};
use crate::ranges::{sorted_non_overlapping, bounded, cover, covers, canonical, canonical_of, universe};
use crate::cells::{Cell, cells_cover};
use crate::range_moc::{RangeMOC, RangeMocIter, RangeMOCIntoIterator};
use crate::trusted::{external_edge_cells, append_external_edge};
use crate::resolution::{bounds_divisible, floor_cell, cell_closed, lemma_multiple, lemma_divisible_cell_closed,
    lemma_floor_cell_between,
    lemma_canonical_closed_divisible, lemma_cells_cover_cell_closed};

verus! {

/// Number of HEALPix cells at depth 29: the exclusive upper bound of the ranges.
pub open spec fn hpx_upper_bound() -> nat {
    0x3000_0000_0000_0000
}

/// Number of depth-29 values that a cell `dd` depths above 29 covers.
pub open spec fn quad_size(dd: nat) -> nat {
    pow2(2 * dd)
}

/// `4^(dd + 1) == 4 * 4^dd`.
pub proof fn lemma_quad_size_step(dd: nat)
    ensures
        quad_size(dd + 1) == 4 * quad_size(dd),
        quad_size(dd) > 0,
{
    lemma_pow2_adds(2 * dd, 2);
    lemma2_to64();
    lemma_pow2_pos(2 * dd);
    assert(2 * (dd + 1) == 2 * dd + 2);
}

/// `4^(a + b) == 4^a * 4^b`.
pub proof fn lemma_quad_size_adds(a: nat, b: nat)
    ensures
        quad_size(a + b) == quad_size(a) * quad_size(b),
{
    lemma_pow2_adds(2 * a, 2 * b);
    assert(2 * (a + b) == 2 * a + 2 * b);
}

/// Sizes of the cells of depth 0 to 29.
pub proof fn lemma_quad_size_bounds(dd: nat)
    requires
        dd <= 29,
    ensures
        0 < quad_size(dd) <= quad_size(29),
        quad_size(29) == 0x0400_0000_0000_0000,
        quad_size(28) == 0x0100_0000_0000_0000,
        hpx_upper_bound() == 12 * quad_size(29),
{
    lemma2_to64();
    lemma2_to64_rest();
    lemma_pow2_pos(2 * dd);
    if dd < 29 {
        lemma_pow2_strictly_increases(2 * dd, 58);
    }
}

/// The largest `dd` (from `dd` on, at most 29) such that a cell covering `4^dd` values starts at
/// `s` and ends at or before `e`.
pub open spec fn max_delta(s: int, e: int, dd: nat) -> nat
    decreases 29 - dd,
{
    if dd < 29 && s % (quad_size(dd + 1) as int) == 0 && s + quad_size(dd + 1) <= e {
        max_delta(s, e, dd + 1)
    } else {
        dd
    }
}

/// The cells `(depth, index)` that split `[s, e)`: from `s` on, each time the largest cell that
/// starts there and fits.
pub open spec fn decompose(s: int, e: int) -> Seq<(u8, u64)>
    decreases e - s,
{
    if s >= e {
        Seq::empty()
    } else {
        let dd = max_delta(s, e, 0);
        proof {
            lemma2_to64();
            lemma_max_delta(s, e, 0);
            lemma_pow2_pos(2 * dd);
            assert(e - (s + quad_size(dd)) < e - s);
        }
        seq![((29 - dd) as u8, (s / (quad_size(dd) as int)) as u64)] + decompose(s + quad_size(dd), e)
    }
}

/// The cells that split the ranges `rs`, range after range.
pub open spec fn moc_cells(rs: Seq<(u64, u64)>) -> Seq<(u8, u64)>
    decreases rs.len(),
{
    if rs.len() == 0 {
        Seq::empty()
    } else {
        moc_cells(rs.drop_last()) + decompose(rs.last().0 as int, rs.last().1 as int)
    }
}

/// From a cell start `j`, `max_delta` finds a cell start no smaller.
pub proof fn lemma_max_delta(s: int, e: int, j: nat)
    requires
        j <= 29,
        s % (quad_size(j) as int) == 0,
        s + quad_size(j) <= e,
    ensures
        j <= max_delta(s, e, j) <= 29,
        s % (quad_size(max_delta(s, e, j)) as int) == 0,
        s + quad_size(max_delta(s, e, j)) <= e,
    decreases 29 - j,
{
    if j < 29 && s % (quad_size(j + 1) as int) == 0 && s + quad_size(j + 1) <= e {
        lemma_max_delta(s, e, j + 1);
    }
}

/// The sum of two multiples of `m` is a multiple of `m`.
pub proof fn lemma_multiple_add(x: int, y: int, m: int)
    requires
        m > 0,
        x % m == 0,
        y % m == 0,
    ensures
        (x + y) % m == 0,
{
    lemma_multiple(x, m);
    lemma_multiple(y, m);
    let p = x / m;
    let q = y / m;
    assert(x + y == (p + q) * m) by (nonlinear_arith)
        requires x == p * m, y == q * m;
    lemma_mod_multiples_basic(p + q, m);
}

/// Two distinct multiples of `m` are at least `m` apart.
pub proof fn lemma_multiple_gap(s: int, e: int, m: int)
    requires
        m > 0,
        s % m == 0,
        e % m == 0,
        s < e,
    ensures
        s + m <= e,
{
    lemma_multiple(s, m);
    lemma_multiple(e, m);
    let p = s / m;
    let q = e / m;
    assert(s + m <= e) by (nonlinear_arith)
        requires s == p * m, e == q * m, s < e, m > 0;
}

/// A cell size divides every larger cell size.
pub proof fn lemma_quad_size_divides(a: nat, b: nat)
    requires
        a <= b,
    ensures
        (quad_size(b) as int) % (quad_size(a) as int) == 0,
        quad_size(a) <= quad_size(b),
        quad_size(a) > 0,
{
    lemma_quad_size_adds(a, (b - a) as nat);
    assert(a + ((b - a) as nat) == b);
    lemma_pow2_pos(2 * a);
    lemma_pow2_pos(2 * ((b - a) as nat));
    lemma_mod_multiples_basic(quad_size((b - a) as nat) as int, quad_size(a) as int);
    let qa = quad_size(a);
    let qr = quad_size((b - a) as nat);
    assert(qr * qa == qa * qr) by (nonlinear_arith);
    assert(quad_size(a) <= quad_size(a) * quad_size((b - a) as nat)) by (nonlinear_arith)
        requires quad_size((b - a) as nat) > 0;
}

/// A multiple of a cell size is a multiple of every smaller cell size.
pub proof fn lemma_quad_multiple_smaller(x: int, a: nat, b: nat)
    requires
        a <= b,
        x % (quad_size(b) as int) == 0,
    ensures
        x % (quad_size(a) as int) == 0,
{
    lemma_quad_size_divides(a, b);
    lemma_quad_size_adds(a, (b - a) as nat);
    assert(a + ((b - a) as nat) == b);
    lemma_pow2_pos(2 * b);
    lemma_multiple(x, quad_size(b) as int);
    let k = x / (quad_size(b) as int);
    let qa = quad_size(a) as int;
    let qr = quad_size((b - a) as nat) as int;
    assert(x == (k * qr) * qa) by (nonlinear_arith)
        requires x == k * (qa * qr);
    lemma_mod_multiples_basic(k * qr, qa);
}

/// `max_delta` never goes below where it starts.
pub proof fn lemma_max_delta_ge_start(s: int, e: int, j: nat)
    ensures
        max_delta(s, e, j) >= j,
    decreases 29 - j,
{
    if j < 29 && s % (quad_size(j + 1) as int) == 0 && s + quad_size(j + 1) <= e {
        lemma_max_delta_ge_start(s, e, j + 1);
    }
}

/// When both ends of `[s, e)` are multiples of `4^k`, the first cell covers at least `4^k` values.
pub proof fn lemma_max_delta_aligned(s: int, e: int, j: nat, k: nat)
    requires
        j <= k <= 29,
        s % (quad_size(k) as int) == 0,
        e % (quad_size(k) as int) == 0,
        s < e,
    ensures
        max_delta(s, e, j) >= k,
    decreases k - j,
{
    if j == k {
        lemma_max_delta_ge_start(s, e, j);
    } else {
        lemma_quad_multiple_smaller(s, j + 1, k);
        lemma_quad_size_divides(j + 1, k);
        lemma_multiple_gap(s, e, quad_size(k) as int);
        lemma_max_delta_aligned(s, e, j + 1, k);
    }
}

/// The cells that split `[s, e)` (within the depth-29 universe) are valid HEALPix cells; when
/// both ends are multiples of `4^k`, their depths are at most `29 - k`.
pub proof fn lemma_decompose_cells(s: int, e: int, k: nat)
    requires
        0 <= s,
        e <= hpx_upper_bound(),
        k <= 29,
    ensures
        forall|i: int| 0 <= i < decompose(s, e).len() ==> {
            let c = #[trigger] decompose(s, e)[i];
            &&& c.0 <= 29
            &&& (c.1 as nat) < 12 * pow2(2 * (c.0 as nat))
            &&& (s % (quad_size(k) as int) == 0 && e % (quad_size(k) as int) == 0) ==> c.0 <= 29 - k
        },
    decreases e - s,
{
    if s < e {
        lemma2_to64();
        lemma_max_delta(s, e, 0);
        let dd = max_delta(s, e, 0);
        let q = quad_size(dd) as int;
        lemma_quad_size_bounds(dd);
        lemma_quad_size_bounds(29);
        lemma_multiple(s, q);
        let idx = s / q;
        lemma_quad_size_adds((29 - dd) as nat, dd);
        assert(((29 - dd) as nat) + dd == 29);
        let big = quad_size((29 - dd) as nat) as int;
        assert(idx + 1 <= 12 * big) by (nonlinear_arith)
            requires s == idx * q, s + q <= e, e <= 12 * (big * q), q > 0;
        assert(0 <= idx <= s) by (nonlinear_arith)
            requires s == idx * q, q > 0, s >= 0;
        assert(2 * ((29 - dd) as nat) == 2 * (((29 - dd) as u8) as nat));
        let first = ((29 - dd) as u8, idx as u64);
        if s % (quad_size(k) as int) == 0 && e % (quad_size(k) as int) == 0 {
            lemma_max_delta_aligned(s, e, 0, k);
            lemma_quad_size_divides(k, dd);
            lemma_multiple_add(s, q, quad_size(k) as int);
        }
        lemma_decompose_cells(s + q, e, k);
        let rest = decompose(s + q, e);
        assert(decompose(s, e) == seq![first] + rest);
        assert forall|i: int| 0 <= i < decompose(s, e).len() implies {
            let c = #[trigger] decompose(s, e)[i];
            &&& c.0 <= 29
            &&& (c.1 as nat) < 12 * pow2(2 * (c.0 as nat))
            &&& (s % (quad_size(k) as int) == 0 && e % (quad_size(k) as int) == 0) ==> c.0 <= 29 - k
        } by {
            if i > 0 {
                assert(decompose(s, e)[i] == rest[i - 1]);
            }
        }
    }
}

/// Every boundary of `rs` is a multiple of `4^k`: the ranges are unions of cells of depth `29 - k`.
pub open spec fn aligned(rs: Seq<(u64, u64)>, k: nat) -> bool {
    bounds_divisible(rs, quad_size(k))
}

/// A cell `(depth, index)` is a valid HEALPix cell of depth at most `depth_max`.
pub open spec fn valid_cell(c: (u8, u64), depth_max: nat) -> bool {
    &&& c.0 <= depth_max
    &&& (c.1 as nat) < 12 * pow2(2 * (c.0 as nat))
}

/// The universe of `Hpx<u64>` is `[0, 12 * 4^29)`.
pub proof fn lemma_hpx_u64_universe()
    ensures
        upper_bound_spec::<u64, Hpx<u64>>() == hpx_upper_bound(),
        Hpx::<u64>::max_depth_spec() == 29,
        forall|d: nat| #[trigger] n_cells_spec::<u64, Hpx<u64>>(d) == 12 * pow2(2 * d),
{
    lemma2_to64();
    lemma2_to64_rest();
}

/// The cells splitting sorted ranges within the universe are valid cells; when the ranges are
/// aligned on `4^k`, their depths are at most `29 - k`.
pub proof fn lemma_moc_cells_valid(rs: Seq<(u64, u64)>, k: nat)
    requires
        bounded(rs, hpx_upper_bound()),
        k <= 29,
    ensures
        forall|i: int| 0 <= i < moc_cells(rs).len() ==> valid_cell(#[trigger] moc_cells(rs)[i], 29),
        aligned(rs, k) ==> forall|i: int| 0 <= i < moc_cells(rs).len() ==> valid_cell(
            #[trigger] moc_cells(rs)[i],
            (29 - k) as nat,
        ),
    decreases rs.len(),
{
    if rs.len() > 0 {
        let init = rs.drop_last();
        assert(bounded(init, hpx_upper_bound())) by {
            assert forall|i: int| 0 <= i < init.len() implies #[trigger] init[i].1 <= hpx_upper_bound() by {
                assert(init[i] == rs[i]);
            }
        }
        if aligned(rs, k) {
            assert(aligned(init, k)) by {
                assert forall|i: int| 0 <= i < init.len() implies (#[trigger] init[i]).0 as int % (quad_size(k) as int) == 0
                    && init[i].1 as int % (quad_size(k) as int) == 0 by {
                    assert(init[i] == rs[i]);
                }
            }
            assert(rs[rs.len() - 1] == rs.last());
        }
        lemma_moc_cells_valid(init, k);
        let last = rs.last();
        assert(rs[rs.len() - 1] == last);
        lemma_decompose_cells(last.0 as int, last.1 as int, k);
        let a = moc_cells(init);
        let b = decompose(last.0 as int, last.1 as int);
        assert(moc_cells(rs) == a + b);
        assert forall|i: int| 0 <= i < moc_cells(rs).len() implies valid_cell(#[trigger] moc_cells(rs)[i], 29)
            && (aligned(rs, k) ==> valid_cell(moc_cells(rs)[i], (29 - k) as nat)) by {
            if i >= a.len() {
                assert(moc_cells(rs)[i] == b[i - a.len()]);
            } else {
                assert(moc_cells(rs)[i] == a[i]);
            }
        }
    }
}

/// `x` is one of the depth-29 values the cell `(depth, index)` covers.
pub open spec fn in_hpx_cell(c: (u8, u64), x: int) -> bool {
    c.1 * quad_size((29 - c.0) as nat) <= x && x < (c.1 + 1) * quad_size((29 - c.0) as nat)
}

/// `x` lies in one of the cells of `cs`.
pub open spec fn covers_hpx_cells(cs: Seq<(u8, u64)>, x: int) -> bool {
    exists|k: int| 0 <= k < cs.len() && in_hpx_cell(#[trigger] cs[k], x)
}

/// The cells of a concatenation cover what the cells of either part cover.
pub proof fn lemma_covers_hpx_cells_concat(a: Seq<(u8, u64)>, b: Seq<(u8, u64)>, x: int)
    ensures
        covers_hpx_cells(a + b, x) == (covers_hpx_cells(a, x) || covers_hpx_cells(b, x)),
{
    let t = a + b;
    if covers_hpx_cells(a, x) {
        let k = choose|k: int| 0 <= k < a.len() && in_hpx_cell(#[trigger] a[k], x);
        assert(t[k] == a[k]);
    }
    if covers_hpx_cells(b, x) {
        let k = choose|k: int| 0 <= k < b.len() && in_hpx_cell(#[trigger] b[k], x);
        assert(t[a.len() + k] == b[k]);
    }
    if covers_hpx_cells(t, x) {
        let k = choose|k: int| 0 <= k < t.len() && in_hpx_cell(#[trigger] t[k], x);
        if k < a.len() {
            assert(t[k] == a[k]);
        } else {
            assert(t[k] == b[k - a.len()]);
        }
    }
}

/// The cells splitting `[s, e)` cover exactly `[s, e)`.
pub proof fn lemma_decompose_cover(s: int, e: int, x: int)
    requires
        0 <= s,
        e <= hpx_upper_bound(),
    ensures
        covers_hpx_cells(decompose(s, e), x) == (s <= x && x < e),
    decreases e - s,
{
    if s >= e {
        if covers_hpx_cells(decompose(s, e), x) {
            let k = choose|k: int| 0 <= k < decompose(s, e).len() && in_hpx_cell(#[trigger] decompose(s, e)[k], x);
        }
    } else {
        lemma2_to64();
        lemma_max_delta(s, e, 0);
        let dd = max_delta(s, e, 0);
        let q = quad_size(dd) as int;
        lemma_quad_size_bounds(dd);
        lemma_quad_size_bounds(29);
        lemma_multiple(s, q);
        let idx = s / q;
        assert(0 <= idx <= s) by (nonlinear_arith)
            requires s == idx * q, q > 0, s >= 0;
        let first = ((29 - dd) as u8, idx as u64);
        assert((29 - first.0) as nat == dd);
        assert(in_hpx_cell(first, x) == (s <= x && x < s + q)) by {
            assert((idx + 1) * q == s + q) by (nonlinear_arith)
                requires s == idx * q;
        }
        lemma_decompose_cover(s + q, e, x);
        assert(decompose(s, e) == seq![first] + decompose(s + q, e));
        lemma_covers_hpx_cells_concat(seq![first], decompose(s + q, e), x);
        if covers_hpx_cells(seq![first], x) {
            let k = choose|k: int| 0 <= k < 1 && in_hpx_cell(#[trigger] seq![first][k], x);
        }
        if in_hpx_cell(first, x) {
            assert(seq![first][0] == first);
        }
    }
}

/// The first depth-29 value of the cell `(depth, index)`.
pub open spec fn hpx_cell_start(c: (u8, u64)) -> int {
    c.1 * pow2(2 * ((29 - c.0) as nat))
}

/// The depth-29 value just after the cell `(depth, index)`.
pub open spec fn hpx_cell_end(c: (u8, u64)) -> int {
    (c.1 + 1) * pow2(2 * ((29 - c.0) as nat))
}

/// The cells splitting `[s, e)` come in increasing order, each within `[s, e)` and starting at or
/// after the end of the previous one.
pub proof fn lemma_decompose_ordered(s: int, e: int)
    requires
        0 <= s,
        e <= hpx_upper_bound(),
    ensures
        forall|i: int| 0 <= i < decompose(s, e).len() ==> s <= hpx_cell_start(#[trigger] decompose(s, e)[i])
            < hpx_cell_end(decompose(s, e)[i]) <= e,
        forall|i: int, j: int| 0 <= i < j < decompose(s, e).len() ==> hpx_cell_end(#[trigger] decompose(s, e)[i])
            <= hpx_cell_start(#[trigger] decompose(s, e)[j]),
    decreases e - s,
{
    if s < e {
        lemma2_to64();
        lemma_max_delta(s, e, 0);
        let dd = max_delta(s, e, 0);
        let q = quad_size(dd) as int;
        lemma_quad_size_bounds(dd);
        lemma_quad_size_bounds(29);
        lemma_multiple(s, q);
        let idx = s / q;
        assert(0 <= idx <= s) by (nonlinear_arith)
            requires s == idx * q, q > 0, s >= 0;
        let first = ((29 - dd) as u8, idx as u64);
        assert((29 - first.0) as nat == dd);
        assert(hpx_cell_start(first) == s && hpx_cell_end(first) == s + q) by {
            assert((idx + 1) * q == s + q) by (nonlinear_arith)
                requires s == idx * q;
        }
        lemma_decompose_ordered(s + q, e);
        let rest = decompose(s + q, e);
        let d = decompose(s, e);
        assert(d == seq![first] + rest);
        assert forall|i: int| 0 <= i < d.len() implies s <= hpx_cell_start(#[trigger] d[i]) < hpx_cell_end(d[i])
            <= e by {
            if i > 0 {
                assert(d[i] == rest[i - 1]);
            }
        }
        assert forall|i: int, j: int| 0 <= i < j < d.len() implies hpx_cell_end(#[trigger] d[i]) <= hpx_cell_start(
            #[trigger] d[j],
        ) by {
            assert(d[j] == rest[j - 1]);
            if i > 0 {
                assert(d[i] == rest[i - 1]);
            }
        }
    }
}

/// The cells splitting sorted ranges within the universe come in increasing order: each starts at
/// or after the end of the previous one, and all lie below the end of the last range.
pub proof fn lemma_moc_cells_ordered(rs: Seq<(u64, u64)>)
    requires
        sorted_non_overlapping(rs),
        bounded(rs, hpx_upper_bound()),
    ensures
        forall|i: int, j: int| 0 <= i < j < moc_cells(rs).len() ==> hpx_cell_end(#[trigger] moc_cells(rs)[i])
            <= hpx_cell_start(#[trigger] moc_cells(rs)[j]),
        forall|i: int| 0 <= i < moc_cells(rs).len() ==> 0 <= hpx_cell_start(#[trigger] moc_cells(rs)[i])
            && hpx_cell_end(moc_cells(rs)[i]) <= rs.last().1,
    decreases rs.len(),
{
    if rs.len() > 0 {
        let init = rs.drop_last();
        let last = rs.last();
        assert(rs[rs.len() - 1] == last);
        assert(sorted_non_overlapping(init)) by {
            assert forall|i: int| 0 <= i < init.len() implies #[trigger] init[i].0 < init[i].1 by {
                assert(init[i] == rs[i]);
            }
            assert forall|i: int, j: int| 0 <= i < j < init.len() implies #[trigger] init[i].1 <= #[trigger] init[j].0 by {
                assert(init[i] == rs[i] && init[j] == rs[j]);
            }
        }
        assert(bounded(init, hpx_upper_bound())) by {
            assert forall|i: int| 0 <= i < init.len() implies #[trigger] init[i].1 <= hpx_upper_bound() by {
                assert(init[i] == rs[i]);
            }
        }
        lemma_moc_cells_ordered(init);
        lemma_decompose_ordered(last.0 as int, last.1 as int);
        let a = moc_cells(init);
        let b = decompose(last.0 as int, last.1 as int);
        let c = moc_cells(rs);
        assert(c == a + b);
        if init.len() > 0 {
            assert(init.last() == rs[init.len() - 1]);
            assert(init.last().1 <= last.0);
        }
        assert forall|i: int| 0 <= i < a.len() implies hpx_cell_end(#[trigger] a[i]) <= last.0 by {
            if init.len() == 0 {
                assert(a.len() == 0);
            }
        }
        assert forall|i: int, j: int| 0 <= i < j < c.len() implies hpx_cell_end(#[trigger] c[i]) <= hpx_cell_start(
            #[trigger] c[j],
        ) by {
            if j < a.len() {
                assert(c[i] == a[i] && c[j] == a[j]);
            } else if i < a.len() {
                assert(c[i] == a[i] && c[j] == b[j - a.len()]);
            } else {
                assert(c[i] == b[i - a.len()] && c[j] == b[j - a.len()]);
            }
        }
        assert forall|i: int| 0 <= i < c.len() implies 0 <= hpx_cell_start(#[trigger] c[i]) && hpx_cell_end(c[i])
            <= rs.last().1 by {
            if i < a.len() {
                assert(c[i] == a[i]);
                assert(init.len() > 0);
                assert(last.0 < last.1);
            } else {
                assert(c[i] == b[i - a.len()]);
            }
        }
    }
}

/// A range that is exactly one cell of depth `d` splits into that cell alone.
pub proof fn lemma_decompose_one_cell(d: nat, h: nat)
    requires
        d <= 29,
        h < 12 * pow2(2 * d),
    ensures
        decompose((h * quad_size((29 - d) as nat)) as int, ((h + 1) * quad_size((29 - d) as nat)) as int)
            == seq![(d as u8, h as u64)],
{
    let k = (29 - d) as nat;
    let q = quad_size(k) as int;
    lemma_quad_size_bounds(k);
    lemma_quad_size_adds(d, k);
    assert(d + k == 29);
    let s = h * q;
    let e = (h + 1) * q;
    assert(e == s + q) by (nonlinear_arith)
        requires s == h * q, e == (h + 1) * q;
    assert(s >= 0) by (nonlinear_arith)
        requires s == h * q, q > 0, h >= 0;
    lemma_mod_multiples_basic(h as int, q);
    lemma_mod_multiples_basic(h + 1int, q);
    lemma2_to64();
    lemma_max_delta(s, e, 0);
    lemma_max_delta_aligned(s, e, 0, k);
    let m = max_delta(s, e, 0);
    if m > k {
        lemma_pow2_strictly_increases(2 * k, 2 * m);
    }
    assert(m == k);
    lemma_div_multiples_vanish(h as int, q);
    assert(q * h == h * q) by (nonlinear_arith);
    assert(s / q == h);
    assert(h <= s) by (nonlinear_arith)
        requires s == h * q, q > 0, h >= 0;
    assert(decompose(s + q, e) == Seq::<(u8, u64)>::empty());
    assert(decompose(s, e) =~= seq![(d as u8, h as u64)]);
}

/// The cells splitting sorted ranges within the universe cover exactly the ranges.
pub proof fn lemma_moc_cells_cover(rs: Seq<(u64, u64)>, x: int)
    requires
        bounded(rs, hpx_upper_bound()),
    ensures
        covers_hpx_cells(moc_cells(rs), x) == covers(rs, x),
    decreases rs.len(),
{
    if rs.len() == 0 {
        if covers_hpx_cells(moc_cells(rs), x) {
            let k = choose|k: int| 0 <= k < moc_cells(rs).len() && in_hpx_cell(#[trigger] moc_cells(rs)[k], x);
        }
        if covers(rs, x) {
            let k = choose|k: int| 0 <= k < rs.len() && #[trigger] rs[k].0 <= x && x < rs[k].1;
        }
    } else {
        let init = rs.drop_last();
        let last = rs.last();
        assert(bounded(init, hpx_upper_bound())) by {
            assert forall|i: int| 0 <= i < init.len() implies #[trigger] init[i].1 <= hpx_upper_bound() by {
                assert(init[i] == rs[i]);
            }
        }
        assert(rs[rs.len() - 1] == last);
        lemma_moc_cells_cover(init, x);
        lemma_decompose_cover(last.0 as int, last.1 as int, x);
        lemma_covers_hpx_cells_concat(moc_cells(init), decompose(last.0 as int, last.1 as int), x);
        assert(init.push(last) == rs);
        crate::ranges::lemma_covers_push(init, last, x);
    }
}

/// Splits `[start, end)` into cells, appending them to `out`.
fn append_range_cells(start: u64, end: u64, out: &mut Vec<(u8, u64)>)
    requires
        start < end <= hpx_upper_bound(),
    ensures
        final(out)@ == old(out)@ + decompose(start as int, end as int),
{
    proof {
        lemma_quad_size_bounds(0);
    }
    let mut s = start;
    while s < end
        invariant
            start <= s <= end <= hpx_upper_bound(),
            hpx_upper_bound() == 0x3000_0000_0000_0000,
            out@ + decompose(s as int, end as int) == old(out)@ + decompose(start as int, end as int),
        decreases end - s,
    {
        let mut dd: u8 = 0;
        let mut size: u64 = 1;
        proof {
            lemma2_to64();
        }
        while dd < 29 && s % (size * 4) == 0 && s + size * 4 <= end
            invariant
                dd <= 29,
                size as nat == quad_size(dd as nat),
                1 <= size <= 0x0400_0000_0000_0000,
                s < end <= 0x3000_0000_0000_0000,
                s + size <= end,
                max_delta(s as int, end as int, 0) == max_delta(s as int, end as int, dd as nat),
            decreases 29 - dd,
        {
            proof {
                lemma_quad_size_step(dd as nat);
                lemma_quad_size_bounds(dd as nat + 1);
            }
            dd = dd + 1;
            size = size * 4;
        }
        proof {
            if dd < 29 {
                lemma_quad_size_step(dd as nat);
                lemma_quad_size_bounds(dd as nat + 1);
            }
            assert(max_delta(s as int, end as int, dd as nat) == dd);
            assert(decompose(s as int, end as int) == seq![((29 - dd) as u8, (s / size) as u64)]
                + decompose(s + size, end as int));
        }
        let cell = (29 - dd, s / size);
        let ghost old_out = out@;
        out.push(cell);
        proof {
            assert(old_out + decompose(s as int, end as int) == out@ + decompose(s + size, end as int)) by {
                assert(old_out.push(cell) == old_out + seq![cell]);
                assert(old_out + (seq![cell] + decompose(s + size, end as int))
                    =~= (old_out + seq![cell]) + decompose(s + size, end as int));
            }
        }
        s = s + size;
    }
    proof {
        assert(decompose(s as int, end as int) == Seq::<(u8, u64)>::empty());
        assert(out@ + Seq::<(u8, u64)>::empty() =~= out@);
    }
}

/// Splits sorted ranges within the universe into cells, range after range.
fn moc_cell_pairs(rs: &Vec<(u64, u64)>) -> (r: Vec<(u8, u64)>)
    requires
        sorted_non_overlapping(rs@),
        bounded(rs@, hpx_upper_bound()),
    ensures
        r@ == moc_cells(rs@),
{
    let mut out: Vec<(u8, u64)> = Vec::new();
    let mut i: usize = 0;
    while i < rs.len()
        invariant
            0 <= i <= rs@.len(),
            sorted_non_overlapping(rs@),
            bounded(rs@, hpx_upper_bound()),
            out@ == moc_cells(rs@.take(i as int)),
        decreases rs@.len() - i,
    {
        let (s, e) = rs[i];
        proof {
            assert(rs@[i as int].0 < rs@[i as int].1);
            assert(rs@[i as int].1 <= hpx_upper_bound());
        }
        append_range_cells(s, e, &mut out);
        proof {
            let t = rs@.take(i + 1);
            assert(t.drop_last() == rs@.take(i as int));
            assert(t.last() == rs@[i as int]);
        }
        i = i + 1;
    }
    assert(rs@.take(rs@.len() as int) == rs@);
    out
}

/// The cells of depth `depth_max` surrounding each cell of `cells`, cell after cell.
pub open spec fn edges_of(cells: Seq<(u8, u64)>, depth_max: u8) -> Seq<u64>
    decreases cells.len(),
{
    if cells.len() == 0 {
        Seq::empty()
    } else {
        edges_of(cells.drop_last(), depth_max) + external_edge_cells(
            cells.last().0,
            cells.last().1,
            (depth_max - cells.last().0) as u8,
        )
    }
}

/// Every cell that `external_edge_cells` gives around any of the cells `cs` is in `edges_of(cs, _)`.
pub proof fn lemma_edges_of_contains(cs: Seq<(u8, u64)>, depth_max: u8, i: int, j: int)
    requires
        0 <= i < cs.len(),
        0 <= j < external_edge_cells(cs[i].0, cs[i].1, (depth_max - cs[i].0) as u8).len(),
    ensures
        edges_of(cs, depth_max).contains(external_edge_cells(cs[i].0, cs[i].1, (depth_max - cs[i].0) as u8)[j]),
    decreases cs.len(),
{
    let init = cs.drop_last();
    let ed = external_edge_cells(cs[i].0, cs[i].1, (depth_max - cs[i].0) as u8);
    let a = edges_of(init, depth_max);
    let all = edges_of(cs, depth_max);
    if i == cs.len() - 1 {
        assert(all[a.len() + j] == ed[j]);
    } else {
        assert(init[i] == cs[i]);
        lemma_edges_of_contains(init, depth_max, i, j);
        let k = choose|k: int| 0 <= k < a.len() && a[k] == ed[j];
        assert(all[k] == a[k]);
    }
}

/// The values covered by the ranges `rs` and by the cells of depth `depth_max` along their border.
pub open spec fn expanded_cover(rs: Seq<(u64, u64)>, depth_max: u8) -> Set<int> {
    cover(rs).union(cells_cover(edges_of(moc_cells(rs), depth_max), quad_size((29 - depth_max) as nat)))
}

/// The MOC's ranges are made of whole cells of its depth, at most 29.
pub open spec fn has_depth_resolution(moc: RangeMOC<u64, Hpx<u64>>) -> bool {
    &&& moc.depth_max_spec() <= 29
    &&& aligned(moc.ranges_view(), (29 - moc.depth_max_spec()) as nat)
}

/// Ranges aligned on `4^k` cover a union of cells of `4^k` values.
pub proof fn lemma_aligned_cell_closed(rs: Seq<(u64, u64)>, k: nat)
    requires
        aligned(rs, k),
    ensures
        cell_closed(cover(rs), quad_size(k) as int),
{
    lemma_pow2_pos(2 * k);
    lemma_divisible_cell_closed(rs, quad_size(k));
}

/// The canonical ranges of a union of cells of `4^k` values are aligned on `4^k`.
pub proof fn lemma_canonical_closed_aligned(c: Seq<(u64, u64)>, k: nat)
    requires
        canonical(c),
        cell_closed(cover(c), quad_size(k) as int),
    ensures
        aligned(c, k),
{
    lemma_pow2_pos(2 * k);
    lemma_canonical_closed_divisible(c, quad_size(k));
}

/// Ranges aligned on `4^k` are aligned on every smaller `4^j`.
pub proof fn lemma_aligned_smaller(rs: Seq<(u64, u64)>, j: nat, k: nat)
    requires
        j <= k,
        aligned(rs, k),
    ensures
        aligned(rs, j),
{
    assert forall|i: int| 0 <= i < rs.len() implies (#[trigger] rs[i]).0 as int % (quad_size(j) as int) == 0
        && rs[i].1 as int % (quad_size(j) as int) == 0 by {
        lemma_quad_multiple_smaller(rs[i].0 as int, j, k);
        lemma_quad_multiple_smaller(rs[i].1 as int, j, k);
    }
}

/// The values of cells of `4^k` values each form a union of such cells.
pub proof fn lemma_cells_cover_closed(cells: Seq<u64>, k: nat)
    ensures
        cell_closed(cells_cover(cells, quad_size(k)), quad_size(k) as int),
{
    lemma_pow2_pos(2 * k);
    lemma_cells_cover_cell_closed(cells, quad_size(k));
}

/// What `expanded` covers is a union of cells of its depth, when the MOC is.
pub proof fn lemma_expanded_cover_closed(rs: Seq<(u64, u64)>, depth_max: u8)
    requires
        depth_max <= 29,
        aligned(rs, (29 - depth_max) as nat),
    ensures
        cell_closed(expanded_cover(rs, depth_max), quad_size((29 - depth_max) as nat) as int),
{
    let k = (29 - depth_max) as nat;
    let q = quad_size(k) as int;
    lemma_aligned_cell_closed(rs, k);
    lemma_cells_cover_closed(edges_of(moc_cells(rs), depth_max), k);
    assert forall|x: int| #![trigger floor_cell(x, q)] 0 <= x implies expanded_cover(rs, depth_max).contains(x)
        == expanded_cover(rs, depth_max).contains(floor_cell(x, q)) by {
        assert(cover(rs).contains(x) == cover(rs).contains(floor_cell(x, q)));
        assert(cells_cover(edges_of(moc_cells(rs), depth_max), quad_size(k)).contains(x)
            == cells_cover(edges_of(moc_cells(rs), depth_max), quad_size(k)).contains(floor_cell(x, q)));
    }
}

/// The complement of a MOC made of whole cells of its depth is made of whole cells of that depth.
pub proof fn lemma_complement_keeps_resolution(rs: Seq<(u64, u64)>, c: Seq<(u64, u64)>, k: nat)
    requires
        k <= 29,
        aligned(rs, k),
        canonical(c),
        cover(c) == universe(hpx_upper_bound()).difference(cover(rs)),
    ensures
        aligned(c, k),
{
    let q = quad_size(k) as int;
    lemma_pow2_pos(2 * k);
    lemma_aligned_cell_closed(rs, k);
    lemma_quad_size_bounds(29);
    lemma_quad_size_divides(k, 29);
    lemma_mod_multiples_basic(quad_size(29) as int, q);
    assert(hpx_upper_bound() as int % q == 0) by {
        lemma_multiple(quad_size(29) as int, q);
        let m = (quad_size(29) as int) / q;
        assert(hpx_upper_bound() as int == (12 * m) * q) by (nonlinear_arith)
            requires quad_size(29) as int == m * q, hpx_upper_bound() == 12 * quad_size(29);
        lemma_mod_multiples_basic(12 * m, q);
    }
    assert forall|x: int| #![trigger floor_cell(x, q)] 0 <= x implies cover(c).contains(x) == cover(c).contains(
        floor_cell(x, q),
    ) by {
        lemma_floor_cell_between(x, q, hpx_upper_bound() as int);
        lemma_fundamental_div_mod(x, q);
        let y = floor_cell(x, q);
        assert(0 <= y) by (nonlinear_arith)
            requires y == (x / q) * q, x >= 0, q > 0;
        assert(cover(rs).contains(x) == cover(rs).contains(y));
    }
    lemma_canonical_closed_aligned(c, k);
}

/// The view of a cell as `(depth, index)`.
pub open spec fn cell_pair(c: Cell<u64>) -> (u8, u64) {
    (c.depth, c.idx)
}

/// The views of a list of cells.
pub open spec fn cell_pairs(s: Seq<Cell<u64>>) -> Seq<(u8, u64)> {
    s.map_values(|c: Cell<u64>| cell_pair(c))
}

impl RangeMOC<u64, Hpx<u64>> {
    /// The cells the MOC is made of: each range split, from its start on, into the largest cells
    /// that fit.
    pub fn cells(&self) -> (r: Vec<Cell<u64>>)
        ensures
            cell_pairs(r@) == moc_cells(self.ranges_view()),
            forall|k: int| 0 <= k < r@.len() ==> valid_cell(#[trigger] cell_pairs(r@)[k], 29),
            has_depth_resolution(*self) ==> forall|k: int| 0 <= k < r@.len() ==> valid_cell(
                #[trigger] cell_pairs(r@)[k],
                self.depth_max_spec() as nat,
            ),
            forall|i: int, j: int| 0 <= i < j < r@.len() ==> hpx_cell_end(#[trigger] cell_pairs(r@)[i])
                <= hpx_cell_start(#[trigger] cell_pairs(r@)[j]),
    {
        let pairs = self.moc_ranges().to_pairs();
        proof {
            lemma_hpx_u64_universe();
            lemma_moc_cells_valid(pairs@, 0);
            lemma_moc_cells_ordered(pairs@);
            if has_depth_resolution(*self) {
                lemma_moc_cells_valid(pairs@, (29 - self.depth_max_spec()) as nat);
            }
        }
        let cells = moc_cell_pairs(&pairs);
        let mut r: Vec<Cell<u64>> = Vec::new();
        let mut i: usize = 0;
        while i < cells.len()
            invariant
                0 <= i <= cells@.len(),
                cell_pairs(r@) == cells@.take(i as int),
                r@.len() == i,
            decreases cells@.len() - i,
        {
            let (depth, idx) = cells[i];
            let ghost old_r = r@;
            r.push(Cell { depth, idx });
            assert(cell_pairs(r@) =~= cells@.take(i + 1)) by {
                assert forall|k: int| 0 <= k < i + 1 implies #[trigger] cell_pairs(r@)[k]
                    == cells@.take(i + 1)[k] by {
                    if k < i {
                        assert(r@[k] == old_r[k]);
                        assert(cell_pairs(old_r)[k] == cells@.take(i as int)[k]);
                    }
                }
            }
            i = i + 1;
        }
        assert(cells@.take(cells@.len() as int) == cells@);
        r
    }

    /// Add the MOC external border of depth `self.depth_max`.
    pub fn expanded(&self) -> (r: Self)
        requires
            has_depth_resolution(*self),
        ensures
            r.depth_max_spec() == self.depth_max_spec(),
            r.ranges_view() == canonical_of(expanded_cover(self.ranges_view(), self.depth_max_spec())),
            canonical(r.ranges_view()),
            r.covered() == expanded_cover(self.ranges_view(), self.depth_max_spec()),
            has_depth_resolution(r),
    {
        let depth_max = self.depth_max();
        let ghost k = (29 - depth_max) as nat;
        let pairs = self.moc_ranges().to_pairs();
        proof {
            lemma_hpx_u64_universe();
            lemma_moc_cells_valid(pairs@, k);
        }
        let cells = moc_cell_pairs(&pairs);
        let mut ext: Vec<u64> = Vec::new();
        let mut i: usize = 0;
        while i < cells.len()
            invariant
                0 <= i <= cells@.len(),
                depth_max <= 29,
                k == 29 - depth_max,
                forall|j: int| 0 <= j < cells@.len() ==> valid_cell(#[trigger] cells@[j], (29 - k) as nat),
                ext@ == edges_of(cells@.take(i as int), depth_max),
                forall|j: int| 0 <= j < ext@.len() ==> (#[trigger] ext@[j] as nat) < 12 * pow2(2 * (depth_max as nat)),
            decreases cells@.len() - i,
        {
            let (d, idx) = cells[i];
            proof {
                assert(valid_cell(cells@[i as int], (29 - k) as nat));
            }
            let ghost before = ext@;
            append_external_edge(d, idx, depth_max - d, &mut ext);
            proof {
                let t = cells@.take(i + 1);
                assert(t.drop_last() == cells@.take(i as int));
                assert(t.last() == cells@[i as int]);
                assert(d + (depth_max - d) == depth_max);
                assert forall|j: int| 0 <= j < ext@.len() implies (#[trigger] ext@[j] as nat) < 12 * pow2(
                    2 * (depth_max as nat),
                ) by {
                    if j < before.len() {
                        assert(ext@[j] == before[j]);
                    }
                }
            }
            i = i + 1;
        }
        proof {
            assert(cells@.take(cells@.len() as int) == cells@);
        }
        let ghost edges = ext@;
        let n = ext.len();
        proof {
            assert forall|j: int| 0 <= j < ext@.len() implies (#[trigger] ext@[j]).to_u64_spec()
                < n_cells_spec::<u64, Hpx<u64>>(depth_max as nat) by {
                assert((ext@[j] as nat) < 12 * pow2(2 * (depth_max as nat)));
            }
            assert(crate::idx::idx_values(ext@) =~= edges);
        }
        let border = Self::from_fixed_depth_cells(depth_max, ext, Some(n));
        let r = self.or(&border);
        proof {
            let size = crate::qty::cell_size_spec::<u64, Hpx<u64>>(depth_max as nat);
            assert(size == quad_size(k)) by {
                assert(2 * k == 2 * (29 - depth_max));
            }
            assert(self.covered().union(border.covered()) =~= expanded_cover(self.ranges_view(), depth_max));
            lemma_expanded_cover_closed(self.ranges_view(), depth_max);
            lemma_canonical_closed_aligned(r.ranges_view(), k);
        }
        r
    }

    /// An iterator over the ranges of the expanded MOC (see `expanded`).
    pub fn expanded_iter(&self) -> (r: RangeMocIter<u64, Hpx<u64>>)
        requires
            has_depth_resolution(*self),
        ensures
            r.depth_max_spec() == self.depth_max_spec(),
            r.remaining() == canonical_of(expanded_cover(self.ranges_view(), self.depth_max_spec())),
            canonical(r.remaining()),
    {
        self.expanded().into_range_moc_iter()
    }

    /// Returns this MOC external border
    pub fn external_border(&self) -> (r: Self)
        requires
            has_depth_resolution(*self),
        ensures
            r.depth_max_spec() == self.depth_max_spec(),
            r.ranges_view() == canonical_of(
                expanded_cover(self.ranges_view(), self.depth_max_spec()).difference(self.covered()),
            ),
            canonical(r.ranges_view()),
            r.covered() == expanded_cover(self.ranges_view(), self.depth_max_spec()).difference(self.covered()),
            has_depth_resolution(r),
    {
        let expanded = self.expanded();
        let r = expanded.minus(self);
        proof {
            let k = (29 - self.depth_max_spec()) as nat;
            let q = quad_size(k) as int;
            lemma_expanded_cover_closed(self.ranges_view(), self.depth_max_spec());
            lemma_aligned_cell_closed(self.ranges_view(), k);
            assert forall|x: int| #![trigger floor_cell(x, q)] 0 <= x implies r.covered().contains(x)
                == r.covered().contains(floor_cell(x, q)) by {
                assert(expanded.covered().contains(x) == expanded.covered().contains(floor_cell(x, q)));
                assert(self.covered().contains(x) == self.covered().contains(floor_cell(x, q)));
            }
            lemma_canonical_closed_aligned(r.ranges_view(), k);
        }
        r
    }

    /// Returns this MOC internal border
    pub fn internal_border(&self) -> (r: Self)
        requires
            has_depth_resolution(*self),
        ensures
            r.depth_max_spec() == self.depth_max_spec(),
            r.ranges_view() == canonical_of(
                expanded_cover(
                    canonical_of(universe(hpx_upper_bound()).difference(self.covered())),
                    self.depth_max_spec(),
                ).intersect(self.covered()),
            ),
            r.covered() == expanded_cover(
                canonical_of(universe(hpx_upper_bound()).difference(self.covered())),
                self.depth_max_spec(),
            ).intersect(self.covered()),
            canonical(r.ranges_view()),
            has_depth_resolution(r),
    {
        let not = self.not();
        proof {
            lemma_hpx_u64_universe();
            lemma_complement_keeps_resolution(
                self.ranges_view(),
                not.ranges_view(),
                (29 - self.depth_max_spec()) as nat,
            );
        }
        let expanded = not.expanded();
        let r = expanded.and(self);
        proof {
            let k = (29 - self.depth_max_spec()) as nat;
            let q = quad_size(k) as int;
            lemma_aligned_cell_closed(expanded.ranges_view(), k);
            lemma_aligned_cell_closed(self.ranges_view(), k);
            assert forall|x: int| #![trigger floor_cell(x, q)] 0 <= x implies r.covered().contains(x)
                == r.covered().contains(floor_cell(x, q)) by {
                assert(expanded.covered().contains(x) == expanded.covered().contains(floor_cell(x, q)));
                assert(self.covered().contains(x) == self.covered().contains(floor_cell(x, q)));
            }
            lemma_canonical_closed_aligned(r.ranges_view(), k);
        }
        r
    }
}

} // verus!
