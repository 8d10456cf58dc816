//! Cells of a fixed depth and their conversion into ranges.

use vstd::prelude::*;
use crate::ranges::{covers, canonical, lemma_covers_push, lemma_covers_extend_last};

verus! {

/// A cell: its depth and its index at that depth.
#[derive(Debug, Clone, Copy, PartialEq, Eq, Structural)]
pub struct Cell<T> {
    pub depth: u8,
    pub idx: T,
}

/// `x` is one of the values the cell `c` covers, a cell covering `size` consecutive values.
pub open spec fn in_cell(c: u64, size: nat, x: int) -> bool {
    c * size <= x && x < (c + 1) * size
}

/// `x` lies in one of the cells of `cells`.
pub open spec fn covers_cells(cells: Seq<u64>, size: nat, x: int) -> bool {
    exists|k: int| 0 <= k < cells.len() && in_cell(#[trigger] cells[k], size, x)
}

/// The values covered by the cells of `cells`.
pub open spec fn cells_cover(cells: Seq<u64>, size: nat) -> Set<int> {
    Set::new(|x: int| covers_cells(cells, size, x))
}

/// Ascending order (equal neighbours allowed).
pub open spec fn non_decreasing(s: Seq<u64>) -> bool {
    forall|i: int, j: int| 0 <= i < j < s.len() ==> #[trigger] s[i] <= #[trigger] s[j]
}

/// No cell of `cells` reaches beyond `bound`.
pub open spec fn cells_within(cells: Seq<u64>, size: nat, bound: nat) -> bool {
    forall|k: int| 0 <= k < cells.len() ==> (#[trigger] cells[k] + 1) * size <= bound
}

/// Appending a cell adds exactly its values to the cover.
pub proof fn lemma_covers_cells_push(cells: Seq<u64>, c: u64, size: nat, x: int)
    ensures
        covers_cells(cells.push(c), size, x) == (covers_cells(cells, size, x) || in_cell(c, size, x)),
{
    let t = cells.push(c);
    if covers_cells(cells, size, x) {
        let k = choose|k: int| 0 <= k < cells.len() && in_cell(#[trigger] cells[k], size, x);
        assert(t[k] == cells[k]);
    }
    if in_cell(c, size, x) {
        assert(t[cells.len() as int] == c);
    }
    if covers_cells(t, size, x) {
        let k = choose|k: int| 0 <= k < t.len() && in_cell(#[trigger] t[k], size, x);
        if k < cells.len() {
            assert(t[k] == cells[k]);
        }
    }
}

/// Converts ascending cells of one depth, each covering `size` values, into the canonical
/// list of ranges covering the same values (repeated cells are merged).
pub fn cells_to_ranges(cells: &Vec<u64>, size: u64) -> (r: Vec<(u64, u64)>)
    requires
        size > 0,
        non_decreasing(cells@),
        cells_within(cells@, size as nat, u64::MAX as nat),
    ensures
        canonical(r@),
        forall|x: int| #[trigger] covers(r@, x) == covers_cells(cells@, size as nat, x),
{
    let mut out: Vec<(u64, u64)> = Vec::new();
    let mut i: usize = 0;
    while i < cells.len()
        invariant
            0 <= i <= cells@.len(),
            size > 0,
            non_decreasing(cells@),
            cells_within(cells@, size as nat, u64::MAX as nat),
            canonical(out@),
            forall|x: int| #[trigger] covers(out@, x) == covers_cells(cells@.take(i as int), size as nat, x),
            i == 0 ==> out@.len() == 0,
            i > 0 ==> out@.len() > 0 && out@.last().1 == (cells@[i - 1] + 1) * size
                && out@.last().0 <= cells@[i - 1] * size,
        decreases cells@.len() - i,
    {
        let c = cells[i];
        proof {
            assert((c + 1) * size <= u64::MAX);
            assert(c * size + size == (c + 1) * size) by (nonlinear_arith);
        }
        let lo = c * size;
        let hi = lo + size;
        let ghost old_out = out@;
        let n = out.len();
        if i > 0 && c == cells[i - 1] {
        } else if i > 0 && c == cells[i - 1] + 1 {
            let first = out[n - 1].0;
            out.set(n - 1, (first, hi));
        } else {
            proof {
                if i > 0 {
                    let pc = cells@[i - 1];
                    assert(pc <= c);
                    assert(c >= pc + 2);
                    assert((pc + 1) * size < c * size) by (nonlinear_arith)
                        requires c >= pc + 2, size > 0;
                }
            }
            out.push((lo, hi));
        }
        proof {
            assert(cells@.take(i + 1) == cells@.take(i as int).push(c));
            assert forall|x: int| #[trigger] covers(out@, x) == covers_cells(
                cells@.take(i + 1),
                size as nat,
                x,
            ) by {
                lemma_covers_cells_push(cells@.take(i as int), c, size as nat, x);
                if i > 0 && c == cells@[i - 1] {
                    if in_cell(c, size as nat, x) {
                        assert(old_out[n - 1].0 <= x && x < old_out[n - 1].1);
                    }
                } else if i > 0 && c == cells@[i - 1] + 1 {
                    lemma_covers_extend_last(old_out, hi, x);
                } else {
                    lemma_covers_push(old_out, (lo, hi), x);
                }
            }
            if i > 0 && c == cells@[i - 1] + 1 {
                assert(out@ == old_out.update(n - 1, (old_out[n - 1].0, hi)));
                assert forall|a: int, b: int| 0 <= a < b < out@.len() implies #[trigger] out@[a].1
                    < #[trigger] out@[b].0 by {
                    assert(old_out[a].1 < old_out[b].0);
                }
            }
        }
        i = i + 1;
    }
    assert(cells@.take(cells@.len() as int) == cells@);
    out
}

} // verus!
