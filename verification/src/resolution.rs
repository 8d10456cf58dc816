//! MOCs made of whole cells of their depth: every range bound is a multiple of the cell size.

use vstd::prelude::*;
use vstd::arithmetic::power2::{pow2, lemma_pow2_adds, lemma_pow2_pos};
use vstd::arithmetic::div_mod::{lemma_fundamental_div_mod, lemma_mod_multiples_basic};
use crate::idx::Idx;
use crate::qty::{MocQty, cell_size_spec, upper_bound_spec, shift_spec};
use crate::ranges::{cover, covers, canonical, universe};
use crate::cells::{cells_cover, covers_cells, in_cell};
use crate::range_moc::RangeMOC;

verus! {

/// Every bound of `rs` is a multiple of `div`.
pub open spec fn bounds_divisible(rs: Seq<(u64, u64)>, div: nat) -> bool {
    forall|i: int| 0 <= i < rs.len() ==> (#[trigger] rs[i]).0 as int % (div as int) == 0
        && rs[i].1 as int % (div as int) == 0
}

/// The MOC's depth is at most the maximum depth of its quantity, and its ranges are made of whole
/// cells of that depth.
pub open spec fn whole_cells<T: Idx, Q: MocQty<T>>(m: RangeMOC<T, Q>) -> bool {
    &&& m.depth_max_spec() as nat <= Q::max_depth_spec()
    &&& bounds_divisible(m.ranges_view(), cell_size_spec::<T, Q>(m.depth_max_spec() as nat))
}

/// A multiple of `m` is `m` times its quotient.
pub proof fn lemma_multiple(x: int, m: int)
    requires
        m > 0,
        x % m == 0,
    ensures
        x == (x / m) * m,
{
    lemma_fundamental_div_mod(x, m);
    let q = x / m;
    assert(m * q == q * m) by (nonlinear_arith);
}

/// The first value of the cell of `q` values holding `x`.
pub open spec fn floor_cell(x: int, q: int) -> int {
    (x / q) * q
}

/// Membership in `set` depends only on the cell of `q` values: `set` is a union of such cells.
pub open spec fn cell_closed(set: Set<int>, q: int) -> bool {
    forall|x: int| #![trigger floor_cell(x, q)] 0 <= x ==> set.contains(x) == set.contains(floor_cell(x, q))
}

/// A multiple `m` of `q` lies at or below `x` exactly when it lies at or below the start of the
/// cell of `x`, and above `x` exactly when above that start.
pub proof fn lemma_floor_cell_between(x: int, q: int, m: int)
    requires
        q > 0,
        0 <= x,
        m % q == 0,
    ensures
        (m <= x) == (m <= floor_cell(x, q)),
        (x < m) == (floor_cell(x, q) < m),
{
    lemma_fundamental_div_mod(x, q);
    lemma_multiple(m, q);
    let a = m / q;
    let b = x / q;
    let r = x % q;
    assert((m <= x) == (m <= b * q) && (x < m) == (b * q < m)) by (nonlinear_arith)
        requires m == a * q, x == q * b + r, 0 <= r < q, q > 0;
}

/// The value before a non-multiple of `q` lies in the same cell.
pub proof fn lemma_floor_cell_prev(b: int, q: int)
    requires
        q > 0,
        b > 0,
        b % q != 0,
    ensures
        floor_cell(b - 1, q) == floor_cell(b, q),
{
    lemma_fundamental_div_mod(b, q);
    lemma_fundamental_div_mod(b - 1, q);
    let t = b / q;
    let r = b % q;
    let t1 = (b - 1) / q;
    let r1 = (b - 1) % q;
    assert(t1 == t) by (nonlinear_arith)
        requires b == q * t + r, 0 < r < q, b - 1 == q * t1 + r1, 0 <= r1 < q, q > 0;
}

/// Ranges whose bounds are multiples of `q` cover a union of cells of `q` values.
pub proof fn lemma_divisible_cell_closed(rs: Seq<(u64, u64)>, q: nat)
    requires
        q > 0,
        bounds_divisible(rs, q),
    ensures
        cell_closed(cover(rs), q as int),
{
    let q = q as int;
    assert forall|x: int| #![trigger floor_cell(x, q)] 0 <= x implies cover(rs).contains(x) == cover(rs).contains(
        floor_cell(x, q),
    ) by {
        let y = floor_cell(x, q);
        lemma_fundamental_div_mod(x, q);
        assert(0 <= y) by (nonlinear_arith)
            requires y == (x / q) * q, x >= 0, q > 0;
        if covers(rs, x) {
            let i = choose|i: int| 0 <= i < rs.len() && #[trigger] rs[i].0 <= x && x < rs[i].1;
            lemma_floor_cell_between(x, q, rs[i].0 as int);
            lemma_floor_cell_between(x, q, rs[i].1 as int);
            assert(rs[i].0 <= y && y < rs[i].1);
        }
        if covers(rs, y) {
            let i = choose|i: int| 0 <= i < rs.len() && #[trigger] rs[i].0 <= y && y < rs[i].1;
            lemma_floor_cell_between(x, q, rs[i].0 as int);
            lemma_floor_cell_between(x, q, rs[i].1 as int);
            assert(rs[i].0 <= x && x < rs[i].1);
        }
    }
}

/// The canonical ranges of a union of cells of `q` values have bounds multiple of `q`.
pub proof fn lemma_canonical_closed_divisible(c: Seq<(u64, u64)>, q: nat)
    requires
        q > 0,
        canonical(c),
        cell_closed(cover(c), q as int),
    ensures
        bounds_divisible(c, q),
{
    let q = q as int;
    assert forall|i: int| 0 <= i < c.len() implies (#[trigger] c[i]).0 as int % q == 0 && c[i].1 as int % q == 0 by {
        let b = c[i].0 as int;
        let e = c[i].1 as int;
        assert(covers(c, b)) by {
            assert(c[i].0 <= b && b < c[i].1);
        }
        assert(covers(c, e - 1)) by {
            assert(c[i].0 <= e - 1 && e - 1 < c[i].1);
        }
        assert(!covers(c, e)) by {
            if covers(c, e) {
                let j = choose|j: int| 0 <= j < c.len() && #[trigger] c[j].0 <= e && e < c[j].1;
                if j < i {
                    assert(c[j].1 < c[i].0);
                } else if j > i {
                    assert(c[i].1 < c[j].0);
                }
            }
        }
        if b % q != 0 {
            assert(b > 0) by {
                if b == 0 {
                    assert(0int % q == 0);
                }
            }
            assert(!covers(c, b - 1)) by {
                if covers(c, b - 1) {
                    let j = choose|j: int| 0 <= j < c.len() && #[trigger] c[j].0 <= b - 1 && b - 1 < c[j].1;
                    if j < i {
                        assert(c[j].1 < c[i].0);
                    } else if j > i {
                        assert(c[i].1 < c[j].0);
                    }
                }
            }
            lemma_floor_cell_prev(b, q);
            assert(cover(c).contains(b) == cover(c).contains(floor_cell(b, q)));
            assert(cover(c).contains(b - 1) == cover(c).contains(floor_cell(b - 1, q)));
        }
        if e % q != 0 {
            lemma_floor_cell_prev(e, q);
            assert(cover(c).contains(e) == cover(c).contains(floor_cell(e, q)));
            assert(cover(c).contains(e - 1) == cover(c).contains(floor_cell(e - 1, q)));
        }
    }
}

/// The values of cells of `q` values each form a union of such cells.
pub proof fn lemma_cells_cover_cell_closed(cells: Seq<u64>, q: nat)
    requires
        q > 0,
    ensures
        cell_closed(cells_cover(cells, q), q as int),
{
    let qi = q as int;
    assert forall|x: int| #![trigger floor_cell(x, qi)] 0 <= x implies cells_cover(cells, q).contains(x)
        == cells_cover(cells, q).contains(floor_cell(x, qi)) by {
        let y = floor_cell(x, qi);
        lemma_fundamental_div_mod(x, qi);
        assert(0 <= y) by (nonlinear_arith)
            requires y == (x / qi) * qi, x >= 0, qi > 0;
        if covers_cells(cells, q, x) {
            let i = choose|i: int| 0 <= i < cells.len() && in_cell(#[trigger] cells[i], q, x);
            let c = cells[i] as int;
            lemma_mod_multiples_basic(c, qi);
            lemma_mod_multiples_basic(c + 1, qi);
            lemma_floor_cell_between(x, qi, c * qi);
            lemma_floor_cell_between(x, qi, (c + 1) * qi);
            assert(in_cell(cells[i], q, y));
        }
        if covers_cells(cells, q, y) {
            let i = choose|i: int| 0 <= i < cells.len() && in_cell(#[trigger] cells[i], q, y);
            let c = cells[i] as int;
            lemma_mod_multiples_basic(c, qi);
            lemma_mod_multiples_basic(c + 1, qi);
            lemma_floor_cell_between(x, qi, c * qi);
            lemma_floor_cell_between(x, qi, (c + 1) * qi);
            assert(in_cell(cells[i], q, x));
        }
    }
}

/// Bounds that are multiples of `q` are multiples of every divisor `p` of `q`.
pub proof fn lemma_divisible_by_divisor(rs: Seq<(u64, u64)>, q: nat, p: nat)
    requires
        p > 0,
        q > 0,
        (q as int) % (p as int) == 0,
        bounds_divisible(rs, q),
    ensures
        bounds_divisible(rs, p),
{
    lemma_multiple(q as int, p as int);
    let k = (q as int) / (p as int);
    assert forall|i: int| 0 <= i < rs.len() implies (#[trigger] rs[i]).0 as int % (p as int) == 0
        && rs[i].1 as int % (p as int) == 0 by {
        lemma_multiple(rs[i].0 as int, q as int);
        lemma_multiple(rs[i].1 as int, q as int);
        let a = rs[i].0 as int / (q as int);
        let b = rs[i].1 as int / (q as int);
        assert(rs[i].0 as int == (a * k) * (p as int) && rs[i].1 as int == (b * k) * (p as int))
            by (nonlinear_arith)
            requires rs[i].0 as int == a * (q as int), rs[i].1 as int == b * (q as int), q as int == k * (p as int);
        lemma_mod_multiples_basic(a * k, p as int);
        lemma_mod_multiples_basic(b * k, p as int);
    }
}

/// The cells of a depth are whole multiples of the cells of every deeper depth, and the universe
/// is a whole number of cells of every depth.
pub proof fn lemma_cell_sizes<T: Idx, Q: MocQty<T>>(d1: nat, d2: nat)
    requires
        d1 <= d2 <= Q::max_depth_spec(),
    ensures
        cell_size_spec::<T, Q>(d2) > 0,
        (cell_size_spec::<T, Q>(d1) as int) % (cell_size_spec::<T, Q>(d2) as int) == 0,
        (upper_bound_spec::<T, Q>() as int) % (cell_size_spec::<T, Q>(d2) as int) == 0,
{
    Q::lemma_qty();
    let dim = Q::dim_spec();
    let md = Q::max_depth_spec();
    let s1 = shift_spec::<T, Q>(d1);
    let s2 = shift_spec::<T, Q>(d2);
    assert(s1 == s2 + dim * ((d2 - d1) as nat)) by (nonlinear_arith)
        requires s1 == dim * ((md - d1) as nat), s2 == dim * ((md - d2) as nat), d1 <= d2 <= md;
    lemma_pow2_adds(s2, dim * ((d2 - d1) as nat));
    lemma_pow2_pos(s2);
    let p2 = pow2(s2) as int;
    let pr = pow2(dim * ((d2 - d1) as nat)) as int;
    assert(pr * p2 == pow2(s1) as int) by (nonlinear_arith)
        requires pow2(s1) as int == p2 * pr;
    lemma_mod_multiples_basic(pr, p2);
    assert(dim * md == dim * d2 + s2) by (nonlinear_arith)
        requires s2 == dim * ((md - d2) as nat), d2 <= md;
    lemma_pow2_adds(dim * d2, s2);
    let n = Q::n_d0_cells_spec() as int;
    let pd = pow2(dim * d2) as int;
    assert(upper_bound_spec::<T, Q>() as int == (n * pd) * p2) by (nonlinear_arith)
        requires upper_bound_spec::<T, Q>() as int == n * (pow2(dim * md) as int), pow2(dim * md) as int == pd * p2;
    lemma_mod_multiples_basic(n * pd, p2);
}

} // verus!
