//! Building ranges from cells of a fixed depth, given in any order.

use vstd::prelude::*;
use crate::idx::{Idx, idx_values};
use crate::qty::{MocQty, shift_spec, cell_size_spec, n_cells_spec, upper_bound_spec,
    shift_from_depth_max, lemma_cell_in_universe};
use crate::ranges::{covers, cover, canonical, canonical_of, lemma_cover_bounded,
    lemma_canonical_is_sno, lemma_is_canonical_of};
use crate::cells::{in_cell, covers_cells, cells_cover, cells_within,
    cells_to_ranges, lemma_covers_cells_push};
use crate::moc_ranges::MocRanges;
use crate::trusted::sort_unstable_u64;

verus! {

/// Number of cells buffered before they are sorted and merged, when no capacity is given.
pub const DEFAULT_BUFF_CAPACITY: usize = 10_000;

/// Number of maximum-depth values a cell of depth `depth` covers.
pub fn cell_size<T: Idx, Q: MocQty<T>>(depth: u8) -> (r: u64)
    requires
        depth as nat <= Q::max_depth_spec(),
    ensures
        r as nat == cell_size_spec::<T, Q>(depth as nat),
        r > 0,
{
    let shift = shift_from_depth_max::<T, Q>(depth);
    proof {
        vstd::bits::lemma_u64_pow2_no_overflow(shift as nat);
        vstd::bits::lemma_u64_shl_is_mul(1, shift as u64);
    }
    1u64 << (shift as u64)
}

/// Two lists of cells holding the same values cover the same values.
proof fn lemma_covers_cells_same_values(s1: Seq<u64>, s2: Seq<u64>, size: nat, x: int)
    requires
        s1.to_multiset() == s2.to_multiset(),
    ensures
        covers_cells(s1, size, x) == covers_cells(s2, size, x),
{
    broadcast use vstd::seq_lib::group_to_multiset_ensures;
    if covers_cells(s1, size, x) {
        let k = choose|k: int| 0 <= k < s1.len() && in_cell(#[trigger] s1[k], size, x);
        assert(s1.contains(s1[k]));
        assert(s1.to_multiset().count(s1[k]) > 0);
        assert(s2.to_multiset().count(s1[k]) > 0);
        assert(s2.contains(s1[k]));
        let m = choose|m: int| 0 <= m < s2.len() && s2[m] == s1[k];
        assert(in_cell(s2[m], size, x));
    }
    if covers_cells(s2, size, x) {
        let k = choose|k: int| 0 <= k < s2.len() && in_cell(#[trigger] s2[k], size, x);
        assert(s2.contains(s2[k]));
        assert(s2.to_multiset().count(s2[k]) > 0);
        assert(s1.to_multiset().count(s2[k]) > 0);
        assert(s1.contains(s2[k]));
        let m = choose|m: int| 0 <= m < s1.len() && s1[m] == s2[k];
        assert(in_cell(s1[m], size, x));
    }
}

/// The canonical ranges of the cells in `buf`, each of which is a valid cell of `depth`.
fn buffer_to_ranges<T: Idx, Q: MocQty<T>>(buf: &mut Vec<u64>, depth: u8, size: u64) -> (r: MocRanges<T, Q>)
    requires
        depth as nat <= Q::max_depth_spec(),
        size as nat == cell_size_spec::<T, Q>(depth as nat),
        forall|k: int| 0 <= k < old(buf)@.len() ==> #[trigger] old(buf)@[k] < n_cells_spec::<T, Q>(depth as nat),
    ensures
        canonical(r@),
        forall|x: int| #[trigger] covers(r@, x) == covers_cells(old(buf)@, size as nat, x),
{
    let ghost before = buf@;
    sort_unstable_u64(buf);
    proof {
        broadcast use vstd::seq_lib::group_to_multiset_ensures;
        Q::lemma_qty();
        assert forall|k: int| 0 <= k < buf@.len() implies (#[trigger] buf@[k] + 1) * (size as nat)
            <= upper_bound_spec::<T, Q>() by {
            assert(buf@.contains(buf@[k]));
            assert(buf@.to_multiset().count(buf@[k]) > 0);
            assert(before.to_multiset().count(buf@[k]) > 0);
            assert(before.contains(buf@[k]));
            let m = choose|m: int| 0 <= m < before.len() && before[m] == buf@[k];
            lemma_cell_in_universe::<T, Q>(depth as nat, buf@[k] as nat);
        }
        assert(cells_within(buf@, size as nat, u64::MAX as nat)) by {
            assert forall|k: int| 0 <= k < buf@.len() implies (#[trigger] buf@[k] + 1) * (size as nat)
                <= u64::MAX as nat by {
                assert((buf@[k] + 1) * (size as nat) <= upper_bound_spec::<T, Q>());
            }
        }
        vstd::arithmetic::power2::lemma_pow2_pos(shift_spec::<T, Q>(depth as nat));
    }
    let pairs = cells_to_ranges(buf, size);
    proof {
        let ub = upper_bound_spec::<T, Q>();
        assert forall|x: int| covers(pairs@, x) implies x < ub by {
            let k = choose|k: int| 0 <= k < buf@.len() && in_cell(#[trigger] buf@[k], size as nat, x);
            assert((buf@[k] + 1) * (size as nat) <= ub);
        }
        lemma_canonical_is_sno(pairs@);
        lemma_cover_bounded(pairs@, ub);
        assert forall|x: int| #[trigger] covers(pairs@, x) == covers_cells(before, size as nat, x) by {
            lemma_covers_cells_same_values(buf@, before, size as nat, x);
        }
    }
    MocRanges::from_valid_pairs(&pairs)
}

/// Adds the cells `cells` of depth `depth` to `acc`, sorting and merging them by batches of
/// `buf_capacity` cells (`DEFAULT_BUFF_CAPACITY` if none is given).
///
/// With no cell, `acc` is returned unchanged; otherwise the result is the canonical list of ranges
/// covering `acc` and the cells.
pub fn add_fixed_depth_cells<T: Idx, Q: MocQty<T>>(
    acc: MocRanges<T, Q>,
    depth: u8,
    cells: &Vec<T>,
    buf_capacity: Option<usize>,
) -> (r: MocRanges<T, Q>)
    requires
        depth as nat <= Q::max_depth_spec(),
        forall|k: int| 0 <= k < cells@.len() ==> (#[trigger] cells@[k]).to_u64_spec() < n_cells_spec::<T, Q>(depth as nat),
    ensures
        cover(r@) == cover(acc@).union(cells_cover(idx_values(cells@), cell_size_spec::<T, Q>(depth as nat))),
        cells@.len() > 0 ==> r@ == canonical_of(
            cover(acc@).union(cells_cover(idx_values(cells@), cell_size_spec::<T, Q>(depth as nat))),
        ),
        cells@.len() == 0 ==> r@ == acc@,
        cells@.len() > 0 ==> canonical(r@),
{
    let ghost acc0 = acc@;
    let ghost vals = idx_values(cells@);
    let size = cell_size::<T, Q>(depth);
    let ghost sz = size as nat;
    assert(sz == cell_size_spec::<T, Q>(depth as nat));
    let cap: usize = match buf_capacity {
        Some(c) => if c == 0 { 1 } else { c },
        None => DEFAULT_BUFF_CAPACITY,
    };
    let mut acc = acc;
    let mut buf: Vec<u64> = Vec::new();
    let ghost mut flushed = false;
    let mut i: usize = 0;
    while i < cells.len()
        invariant
            0 <= i <= cells@.len(),
            vals == idx_values(cells@),
            depth as nat <= Q::max_depth_spec(),
            sz == cell_size_spec::<T, Q>(depth as nat),
            size as nat == sz,
            cap > 0,
            forall|k: int| 0 <= k < cells@.len() ==> (#[trigger] cells@[k]).to_u64_spec() < n_cells_spec::<T, Q>(depth as nat),
            forall|k: int| 0 <= k < buf@.len() ==> #[trigger] buf@[k] < n_cells_spec::<T, Q>(depth as nat),
            forall|x: int| (#[trigger] covers(acc@, x) || covers_cells(buf@, sz, x)) == (covers(acc0, x)
                || covers_cells(vals.take(i as int), sz, x)),
            flushed ==> canonical(acc@),
            !flushed ==> acc@ == acc0 && buf@ == vals.take(i as int),
            i > 0 ==> flushed || buf@.len() > 0,
            i == 0 ==> !flushed,
        decreases cells@.len() - i,
    {
        let c = cells[i].to_u64();
        let ghost old_buf = buf@;
        buf.push(c);
        proof {
            assert(vals.take(i + 1) == vals.take(i as int).push(c));
            assert forall|x: int| (#[trigger] covers(acc@, x) || covers_cells(buf@, sz, x)) == (covers(acc0, x)
                || covers_cells(vals.take(i + 1), sz, x)) by {
                lemma_covers_cells_push(old_buf, c, sz, x);
                lemma_covers_cells_push(vals.take(i as int), c, sz, x);
            }
        }
        if buf.len() >= cap {
            let ghost full = buf@;
            let ghost prev = acc@;
            let piece: MocRanges<T, Q> = buffer_to_ranges(&mut buf, depth, size);
            acc = acc.union(&piece);
            buf.clear();
            proof {
                flushed = true;
                assert forall|x: int| (#[trigger] covers(acc@, x) || covers_cells(buf@, sz, x)) == (covers(acc0, x)
                    || covers_cells(vals.take(i + 1), sz, x)) by {
                    assert(cover(acc@).contains(x) == covers(acc@, x));
                    assert(cover(prev).contains(x) == covers(prev, x));
                    assert(cover(piece@).contains(x) == covers(piece@, x));
                    assert(covers(piece@, x) == covers_cells(full, sz, x));
                    if covers_cells(buf@, sz, x) {
                        let k = choose|k: int| 0 <= k < buf@.len() && in_cell(#[trigger] buf@[k], sz, x);
                    }
                }
            }
        }
        i = i + 1;
    }
    if buf.len() > 0 {
        let ghost full = buf@;
        let ghost prev = acc@;
        let piece: MocRanges<T, Q> = buffer_to_ranges(&mut buf, depth, size);
        acc = acc.union(&piece);
        proof {
            flushed = true;
            assert forall|x: int| #[trigger] covers(acc@, x) == (covers(acc0, x)
                || covers_cells(vals.take(i as int), sz, x)) by {
                assert(cover(acc@).contains(x) == covers(acc@, x));
                assert(cover(prev).contains(x) == covers(prev, x));
                assert(cover(piece@).contains(x) == covers(piece@, x));
                assert(covers(piece@, x) == covers_cells(full, sz, x));
            }
        }
    } else {
        proof {
            assert forall|x: int| #[trigger] covers(acc@, x) == (covers(acc0, x)
                || covers_cells(vals.take(i as int), sz, x)) by {
                if covers_cells(buf@, sz, x) {
                    let k = choose|k: int| 0 <= k < buf@.len() && in_cell(#[trigger] buf@[k], sz, x);
                }
            }
        }
    }
    proof {
        assert(vals.take(cells@.len() as int) == vals);
        let target = cover(acc0).union(cells_cover(vals, sz));
        assert(cover(acc@) =~= target);
        if flushed {
            lemma_is_canonical_of(acc@, target);
        } else {
            assert(acc@ == acc0);
        }
    }
    acc
}

} // verus!
