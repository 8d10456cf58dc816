//! Sets of integers stored as sorted lists of half-open ranges, and the boolean operations on them.
//!
//! A list of ranges is modelled by the pairs `(start, end)` of its ranges, each pair standing for
//! the integers `start <= x < end`.

use vstd::prelude::*;

verus! {

/// `x` lies in one of the ranges of `s`.
pub open spec fn covers(s: Seq<(u64, u64)>, x: int) -> bool {
    exists|i: int| 0 <= i < s.len() && #[trigger] s[i].0 <= x && x < s[i].1
}

/// The set of integers the ranges of `s` cover.
pub open spec fn cover(s: Seq<(u64, u64)>) -> Set<int> {
    Set::new(|x: int| covers(s, x))
}

/// Sorted and non-overlapping ranges, none empty (two consecutive ranges may touch).
pub open spec fn sorted_non_overlapping(s: Seq<(u64, u64)>) -> bool {
    &&& forall|i: int| 0 <= i < s.len() ==> #[trigger] s[i].0 < s[i].1
    &&& forall|i: int, j: int| 0 <= i < j < s.len() ==> #[trigger] s[i].1 <= #[trigger] s[j].0
}

/// Sorted ranges, none empty, with a gap between any two of them: the unique list of ranges
/// of the set it covers.
pub open spec fn canonical(s: Seq<(u64, u64)>) -> bool {
    &&& forall|i: int| 0 <= i < s.len() ==> #[trigger] s[i].0 < s[i].1
    &&& forall|i: int, j: int| 0 <= i < j < s.len() ==> #[trigger] s[i].1 < #[trigger] s[j].0
}

/// No range of `s` goes beyond `bound`.
pub open spec fn bounded(s: Seq<(u64, u64)>, bound: nat) -> bool {
    forall|i: int| 0 <= i < s.len() ==> #[trigger] s[i].1 <= bound
}

/// The canonical list of ranges covering `set`.
pub open spec fn canonical_of(set: Set<int>) -> Seq<(u64, u64)> {
    choose|s: Seq<(u64, u64)>| canonical(s) && cover(s) == set
}

/// The integers in `[0, bound)`.
pub open spec fn universe(bound: nat) -> Set<int> {
    Set::new(|x: int| 0 <= x < bound)
}

/// The integers in exactly one of two sets.
pub open spec fn sym_diff(a: Set<int>, b: Set<int>) -> Set<int> {
    a.difference(b).union(b.difference(a))
}

/// A canonical list is sorted and non-overlapping.
pub proof fn lemma_canonical_is_sno(s: Seq<(u64, u64)>)
    requires
        canonical(s),
    ensures
        sorted_non_overlapping(s),
{
}

/// In a sorted, non-overlapping list, range `i` starts at or after the end of every earlier range
/// and ends at or before the start of every later one.
proof fn lemma_sno_order(s: Seq<(u64, u64)>, i: int, k: int)
    requires
        sorted_non_overlapping(s),
        0 <= i < s.len(),
        0 <= k < s.len(),
    ensures
        k < i ==> s[k].1 <= s[i].0,
        i < k ==> s[i].1 <= s[k].0,
        k <= i ==> s[k].0 <= s[i].0,
{
}

/// Two canonical lists of ranges that cover the same integers are equal.
pub proof fn lemma_canonical_unique(s1: Seq<(u64, u64)>, s2: Seq<(u64, u64)>)
    requires
        canonical(s1),
        canonical(s2),
        forall|x: int| covers(s1, x) == covers(s2, x),
    ensures
        s1 == s2,
    decreases s1.len() + s2.len(),
{
    if s1.len() == 0 {
        if s2.len() > 0 {
            assert(covers(s2, s2[0].0 as int));
        }
        assert(s1 =~= s2);
    } else if s2.len() == 0 {
        assert(covers(s1, s1[0].0 as int));
    } else {
        let a = s1[0];
        let b = s2[0];
        assert(a.0 == b.0) by {
            if a.0 < b.0 {
                assert(covers(s1, a.0 as int));
                let k = choose|k: int| 0 <= k < s2.len() && #[trigger] s2[k].0 <= a.0 && a.0 < s2[k].1;
                if k > 0 {
                    assert(s2[0].1 < s2[k].0);
                }
            } else if b.0 < a.0 {
                assert(covers(s2, b.0 as int));
                let k = choose|k: int| 0 <= k < s1.len() && #[trigger] s1[k].0 <= b.0 && b.0 < s1[k].1;
                if k > 0 {
                    assert(s1[0].1 < s1[k].0);
                }
            }
        }
        assert(a.1 == b.1) by {
            if a.1 < b.1 {
                assert(covers(s2, a.1 as int));
                let k = choose|k: int| 0 <= k < s1.len() && #[trigger] s1[k].0 <= a.1 && a.1 < s1[k].1;
                if k > 0 {
                    assert(s1[0].1 < s1[k].0);
                }
            } else if b.1 < a.1 {
                assert(covers(s1, b.1 as int));
                let k = choose|k: int| 0 <= k < s2.len() && #[trigger] s2[k].0 <= b.1 && b.1 < s2[k].1;
                if k > 0 {
                    assert(s2[0].1 < s2[k].0);
                }
            }
        }
        let t1 = s1.drop_first();
        let t2 = s2.drop_first();
        assert forall|x: int| covers(t1, x) == covers(t2, x) by {
            lemma_covers_rest(s1, x);
            lemma_covers_rest(s2, x);
        }
        lemma_canonical_unique(t1, t2);
        assert(s1 =~= s2) by {
            assert forall|i: int| 0 <= i < s1.len() implies s1[i] == s2[i] by {
                if i > 0 {
                    assert(s1[i] == t1[i - 1]);
                    assert(s2[i] == t2[i - 1]);
                }
            }
        }
    }
}

/// The ranges after the first one of a canonical list cover exactly the points it covers
/// at or beyond the end of its first range.
proof fn lemma_covers_rest(s: Seq<(u64, u64)>, x: int)
    requires
        canonical(s),
        s.len() > 0,
    ensures
        covers(s.drop_first(), x) == (covers(s, x) && x >= s[0].1),
{
    let t = s.drop_first();
    if covers(t, x) {
        let k = choose|k: int| 0 <= k < t.len() && #[trigger] t[k].0 <= x && x < t[k].1;
        assert(s[k + 1] == t[k]);
        assert(s[0].1 < s[k + 1].0);
    }
    if covers(s, x) && x >= s[0].1 {
        let k = choose|k: int| 0 <= k < s.len() && #[trigger] s[k].0 <= x && x < s[k].1;
        assert(k != 0);
        assert(t[k - 1] == s[k]);
    }
}

/// A canonical list covering `set` is the canonical list of `set`.
pub proof fn lemma_is_canonical_of(s: Seq<(u64, u64)>, set: Set<int>)
    requires
        canonical(s),
        cover(s) == set,
    ensures
        canonical_of(set) == s,
{
    let c = canonical_of(set);
    assert(canonical(c) && cover(c) == set);
    assert forall|x: int| covers(c, x) == covers(s, x) by {
        assert(cover(c).contains(x) == cover(s).contains(x));
    }
    lemma_canonical_unique(c, s);
}

/// A list whose covered points all lie below `bound` has no range beyond `bound`.
pub proof fn lemma_cover_bounded(s: Seq<(u64, u64)>, bound: nat)
    requires
        sorted_non_overlapping(s),
        forall|x: int| covers(s, x) ==> x < bound,
    ensures
        bounded(s, bound),
{
    assert forall|i: int| 0 <= i < s.len() implies #[trigger] s[i].1 <= bound by {
        assert(s[i].0 < s[i].1);
        assert(covers(s, s[i].1 - 1));
    }
}

/// Covered points of a list with ranges below `bound` are in `[0, bound)`.
pub proof fn lemma_bounded_cover(s: Seq<(u64, u64)>, bound: nat, x: int)
    requires
        bounded(s, bound),
        covers(s, x),
    ensures
        0 <= x < bound,
{
    let k = choose|k: int| 0 <= k < s.len() && #[trigger] s[k].0 <= x && x < s[k].1;
}

/// Appending a range adds exactly its points to the cover.
pub proof fn lemma_covers_push(s: Seq<(u64, u64)>, r: (u64, u64), x: int)
    ensures
        covers(s.push(r), x) == (covers(s, x) || (r.0 <= x && x < r.1)),
{
    let t = s.push(r);
    if covers(s, x) {
        let k = choose|k: int| 0 <= k < s.len() && #[trigger] s[k].0 <= x && x < s[k].1;
        assert(t[k] == s[k]);
    }
    if r.0 <= x && x < r.1 {
        assert(t[s.len() as int] == r);
    }
    if covers(t, x) {
        let k = choose|k: int| 0 <= k < t.len() && #[trigger] t[k].0 <= x && x < t[k].1;
        if k < s.len() {
            assert(t[k] == s[k]);
        }
    }
}

/// Moving the end of the last range to `e` (at or after its end) adds exactly the points between
/// the two ends to the cover.
pub proof fn lemma_covers_extend_last(s: Seq<(u64, u64)>, e: u64, x: int)
    requires
        s.len() > 0,
        s.last().0 <= s.last().1,
        e >= s.last().1,
    ensures
        covers(s.update(s.len() - 1, (s.last().0, e)), x) == (covers(s, x) || (s.last().1 <= x && x < e)),
{
    let n = s.len() - 1;
    let t = s.update(n, (s.last().0, e));
    if covers(s, x) {
        let k = choose|k: int| 0 <= k < s.len() && #[trigger] s[k].0 <= x && x < s[k].1;
        assert(t[k].0 <= x && x < t[k].1);
    }
    if s.last().1 <= x && x < e {
        assert(t[n].0 <= x && x < t[n].1);
    }
    if covers(t, x) {
        let k = choose|k: int| 0 <= k < t.len() && #[trigger] t[k].0 <= x && x < t[k].1;
        if k != n {
            assert(t[k] == s[k]);
        }
    }
}

/// The boolean operations a sweep over two lists of ranges can compute.
pub enum SetOp {
    And,
    Or,
    Xor,
    Minus,
}

impl SetOp {
    pub open spec fn apply_spec(self, a: bool, b: bool) -> bool {
        match self {
            SetOp::And => a && b,
            SetOp::Or => a || b,
            SetOp::Xor => a != b,
            SetOp::Minus => a && !b,
        }
    }

    pub fn apply(&self, a: bool, b: bool) -> (r: bool)
        ensures
            r == self.apply_spec(a, b),
    {
        match self {
            SetOp::And => a && b,
            SetOp::Or => a || b,
            SetOp::Xor => a != b,
            SetOp::Minus => a && !b,
        }
    }
}

/// Where a sweep stands in one list: ranges before `i` end at or before `p`, range `i`
/// (if any) ends after `p`.
spec fn sweep_pos(s: Seq<(u64, u64)>, i: int, p: int) -> bool {
    &&& 0 <= i <= s.len()
    &&& forall|k: int| 0 <= k < i ==> #[trigger] s[k].1 <= p
    &&& i < s.len() ==> s[i].1 > p
}

/// Between `p` and the next boundary `q` of a list, membership is constant: it is whether
/// range `i` has started at `p`.
proof fn lemma_sweep_segment(s: Seq<(u64, u64)>, i: int, p: int, q: int, x: int)
    requires
        sorted_non_overlapping(s),
        sweep_pos(s, i, p),
        p <= x < q,
        i < s.len() ==> q <= (if s[i].0 <= p { s[i].1 as int } else { s[i].0 as int }),
    ensures
        covers(s, x) == (i < s.len() && s[i].0 <= p),
{
    if covers(s, x) {
        let k = choose|k: int| 0 <= k < s.len() && #[trigger] s[k].0 <= x && x < s[k].1;
        if k < i {
        } else if k > i {
            lemma_sno_order(s, i, k);
        }
    }
    if i < s.len() && s[i].0 <= p {
        assert(s[i].0 <= x && x < s[i].1);
    }
}

/// Past the end of a sweep over a list, no point is covered.
proof fn lemma_sweep_done(s: Seq<(u64, u64)>, p: int, x: int)
    requires
        sweep_pos(s, s.len() as int, p),
        x >= p,
    ensures
        !covers(s, x),
{
    if covers(s, x) {
        let k = choose|k: int| 0 <= k < s.len() && #[trigger] s[k].0 <= x && x < s[k].1;
    }
}

/// Sweeps two sorted lists of ranges and returns the canonical list of the points `x` for which
/// `op(x in a, x in b)` holds.
pub fn sweep(a: &Vec<(u64, u64)>, b: &Vec<(u64, u64)>, op: SetOp) -> (r: Vec<(u64, u64)>)
    requires
        sorted_non_overlapping(a@),
        sorted_non_overlapping(b@),
        !op.apply_spec(false, false),
    ensures
        canonical(r@),
        forall|x: int| #[trigger] covers(r@, x) == op.apply_spec(covers(a@, x), covers(b@, x)),
{
    let mut out: Vec<(u64, u64)> = Vec::new();
    let mut i: usize = 0;
    let mut j: usize = 0;
    let mut p: u64 = 0;
    proof {
        if a@.len() > 0 {
            assert(a@[0].0 < a@[0].1);
        }
        if b@.len() > 0 {
            assert(b@[0].0 < b@[0].1);
        }
    }
    while i < a.len() || j < b.len()
        invariant
            sorted_non_overlapping(a@),
            sorted_non_overlapping(b@),
            !op.apply_spec(false, false),
            sweep_pos(a@, i as int, p as int),
            sweep_pos(b@, j as int, p as int),
            canonical(out@),
            forall|k: int| 0 <= k < out@.len() ==> #[trigger] out@[k].1 <= p,
            forall|x: int|
                x < p ==> #[trigger] covers(out@, x) == op.apply_spec(covers(a@, x), covers(b@, x)),
        decreases u64::MAX - p,
    {
        let in_a = i < a.len() && a[i].0 <= p;
        let in_b = j < b.len() && b[j].0 <= p;
        let mut q: u64 = u64::MAX;
        if i < a.len() {
            q = if in_a { a[i].1 } else { a[i].0 };
        }
        if j < b.len() {
            let qb = if in_b { b[j].1 } else { b[j].0 };
            if qb < q || i >= a.len() {
                q = qb;
            }
        }
        assert(q > p);
        let ghost old_out = out@;
        let keep = op.apply(in_a, in_b);
        if keep {
            let n = out.len();
            if n > 0 && out[n - 1].1 == p {
                let first = out[n - 1].0;
                out.set(n - 1, (first, q));
            } else {
                out.push((p, q));
            }
        }
        proof {
            assert forall|x: int| x < q implies #[trigger] covers(out@, x) == op.apply_spec(
                covers(a@, x),
                covers(b@, x),
            ) by {
                if x >= p {
                    lemma_sweep_segment(a@, i as int, p as int, q as int, x);
                    lemma_sweep_segment(b@, j as int, p as int, q as int, x);
                    if keep {
                        assert(covers(out@, x)) by {
                            assert(out@[out@.len() - 1].0 <= x && x < out@[out@.len() - 1].1);
                        }
                    } else {
                        assert(out@ == old_out);
                        if covers(out@, x) {
                            let k = choose|k: int|
                                0 <= k < out@.len() && #[trigger] out@[k].0 <= x && x < out@[k].1;
                        }
                    }
                } else {
                    assert(covers(old_out, x) == op.apply_spec(covers(a@, x), covers(b@, x)));
                    if covers(old_out, x) {
                        let k = choose|k: int|
                            0 <= k < old_out.len() && #[trigger] old_out[k].0 <= x && x < old_out[k].1;
                        assert(out@[k].0 <= x && x < out@[k].1);
                    }
                    if covers(out@, x) {
                        let k = choose|k: int|
                            0 <= k < out@.len() && #[trigger] out@[k].0 <= x && x < out@[k].1;
                        if k < old_out.len() {
                            assert(old_out[k].0 == out@[k].0);
                            if k == old_out.len() - 1 && keep && old_out[k].1 == p {
                                assert(old_out[k].0 <= x && x < old_out[k].1);
                            } else {
                                assert(old_out[k] == out@[k]);
                            }
                        }
                    }
                }
            }
        }
        p = q;
        if i < a.len() && a[i].1 == q {
            proof {
                if i + 1 < a.len() {
                    lemma_sno_order(a@, i as int, i + 1);
                }
            }
            i = i + 1;
        }
        if j < b.len() && b[j].1 == q {
            proof {
                if j + 1 < b.len() {
                    lemma_sno_order(b@, j as int, j + 1);
                }
            }
            j = j + 1;
        }
    }
    proof {
        assert forall|x: int| #[trigger] covers(out@, x) == op.apply_spec(covers(a@, x), covers(b@, x)) by {
            if x >= p {
                lemma_sweep_done(a@, p as int, x);
                lemma_sweep_done(b@, p as int, x);
                if covers(out@, x) {
                    let k = choose|k: int|
                        0 <= k < out@.len() && #[trigger] out@[k].0 <= x && x < out@[k].1;
                }
            }
        }
    }
    out
}

} // verus!
