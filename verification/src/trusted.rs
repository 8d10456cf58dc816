//! Calls into code whose behaviour Verus takes from the contracts below: the standard library's
//! unstable sort and the HEALPix crate `cdshealpix`.

use vstd::prelude::*;
use vstd::arithmetic::power2::pow2;

verus! {

/// Calls `<[u64]>::sort_unstable`: the vector afterwards holds the same values (with the same
/// multiplicities), in ascending order.
#[verifier::external_body]
pub(crate) fn sort_unstable_u64(v: &mut Vec<u64>)
    ensures
        final(v)@.to_multiset() == old(v)@.to_multiset(),
        forall|i: int, j: int| 0 <= i < j < final(v)@.len() ==> #[trigger] final(v)@[i] <= #[trigger] final(v)@[j],
{
    v.sort_unstable();
}

/// The cells of depth `depth + delta_depth` surrounding the cell `hash` of depth `depth`, in the
/// order in which `cdshealpix::nested::append_external_edge` appends them.
pub uninterp spec fn external_edge_cells(depth: u8, hash: u64, delta_depth: u8) -> Seq<u64>;

/// Calls `cdshealpix::nested::append_external_edge`, which appends to `dest` the list of the cells
/// of depth `depth + delta_depth` surrounding the cell `hash` of depth `depth`. Claimed: what it
/// appends is a function of the three arguments (named `external_edge_cells`), and each appended
/// value is a cell of depth `depth + delta_depth`, i.e. below `12 * 4^(depth + delta_depth)`.
/// The call panics on a hash that is not a cell of `depth` and on a depth above 29, hence the
/// `requires`.
#[verifier::external_body]
pub(crate) fn append_external_edge(depth: u8, hash: u64, delta_depth: u8, dest: &mut Vec<u64>)
    requires
        depth + delta_depth <= 29,
        (hash as nat) < 12 * pow2(2 * (depth as nat)),
    ensures
        final(dest)@ == old(dest)@ + external_edge_cells(depth, hash, delta_depth),
        forall|k: int| old(dest)@.len() <= k < final(dest)@.len() ==> (#[trigger] final(dest)@[k] as nat) < 12 * pow2(
            2 * ((depth + delta_depth) as nat),
        ),
{
    cdshealpix::nested::append_external_edge(depth, hash, delta_depth, dest)
}

} // verus!
