use std::ops::Range;

use moc::{checked_from, from, Cell, Hpx, MocRanges, RangeMOC, RangeMOCIntoIterator};

type HpxMoc = RangeMOC<u64, Hpx<u64>>;

fn moc(depth_max: u8, ranges: Vec<Range<u64>>) -> HpxMoc {
    RangeMOC::new(depth_max, MocRanges::new_unchecked(ranges))
}

fn ranges_of(m: &HpxMoc) -> Vec<Range<u64>> {
    m.moc_ranges().ranges().to_vec()
}

/// Ranges at depth 29 of cells of depth 3.
fn d3(cells: &[(u64, u64)]) -> Vec<Range<u64>> {
    cells.iter().map(|&(s, e)| (s << 52)..(e << 52)).collect()
}

const UNIVERSE: u64 = 12 << 58;

#[test]
fn new_len_is_empty() {
    let m = moc(5, vec![0..5, 10..20]);
    assert_eq!(m.len(), 2);
    assert!(!m.is_empty());
    assert_eq!(m.depth_max(), 5);
    let e = moc(5, vec![]);
    assert_eq!(e.len(), 0);
    assert!(e.is_empty());
    assert_eq!(m.into_moc_ranges().ranges().to_vec(), vec![0..5, 10..20]);
}

#[test]
fn or_merges_touching_and_overlapping_ranges() {
    let a = moc(3, vec![0..5, 10..20]);
    let b = moc(7, vec![5..8, 15..30, 40..41]);
    let r = a.or(&b);
    assert_eq!(r.depth_max(), 7);
    assert_eq!(ranges_of(&r), vec![0..8, 10..30, 40..41]);
    assert_eq!(ranges_of(&a.union(&b)), ranges_of(&r));
}

#[test]
fn or_is_commutative() {
    let a = moc(3, vec![0..5, 10..20]);
    let b = moc(7, vec![5..8, 15..30, 40..41]);
    assert_eq!(ranges_of(&a.or(&b)), ranges_of(&b.or(&a)));
    assert_eq!(ranges_of(&a.and(&b)), ranges_of(&b.and(&a)));
    assert_eq!(ranges_of(&a.xor(&b)), ranges_of(&b.xor(&a)));
}

#[test]
fn or_is_associative_and_and_distributes() {
    let a = moc(3, vec![0..5, 10..20]);
    let b = moc(3, vec![5..8, 15..30]);
    let c = moc(3, vec![2..3, 25..50]);
    assert_eq!(ranges_of(&a.or(&b).or(&c)), ranges_of(&a.or(&b.or(&c))));
    assert_eq!(ranges_of(&a.and(&b).and(&c)), ranges_of(&a.and(&b.and(&c))));
    assert_eq!(ranges_of(&a.and(&b.or(&c))), ranges_of(&a.and(&b).or(&a.and(&c))));
}

#[test]
fn and_keeps_common_values() {
    let a = moc(3, vec![0..5, 10..20]);
    let b = moc(2, vec![3..12, 19..25]);
    let r = a.and(&b);
    assert_eq!(r.depth_max(), 3);
    assert_eq!(ranges_of(&r), vec![3..5, 10..12, 19..20]);
    assert_eq!(ranges_of(&a.intersection(&b)), ranges_of(&r));
}

#[test]
fn and_of_touching_ranges_is_empty() {
    let a = moc(3, vec![0..5]);
    let b = moc(3, vec![5..9]);
    assert!(a.and(&b).is_empty());
}

#[test]
fn not_is_the_complement_in_the_universe() {
    let a = moc(4, vec![0..5, 10..20]);
    let r = a.not();
    assert_eq!(r.depth_max(), 4);
    assert_eq!(ranges_of(&r), vec![5..10, 20..UNIVERSE]);
    assert_eq!(ranges_of(&a.complement()), ranges_of(&r));
    let empty = moc(0, vec![]);
    assert_eq!(ranges_of(&empty.not()), vec![0..UNIVERSE]);
    assert!(moc(0, vec![0..UNIVERSE]).not().is_empty());
}

#[test]
fn double_complement_gives_back_the_moc() {
    let a = moc(4, vec![0..5, 10..20, 100..UNIVERSE]);
    assert_eq!(ranges_of(&a.not().not()), ranges_of(&a));
}

#[test]
fn double_complement_merges_touching_ranges() {
    let a = moc(4, vec![0..5, 5..9]);
    assert_eq!(ranges_of(&a.not().not()), vec![0..9]);
}

#[test]
fn de_morgan() {
    let a = moc(3, vec![0..5, 10..20]);
    let b = moc(3, vec![3..12, 19..25]);
    assert_eq!(ranges_of(&a.or(&b).not()), ranges_of(&a.not().and(&b.not())));
    assert_eq!(ranges_of(&a.and(&b).not()), ranges_of(&a.not().or(&b.not())));
}

#[test]
fn idempotent_operations() {
    let a = moc(3, vec![0..5, 10..20]);
    assert_eq!(ranges_of(&a.or(&a)), ranges_of(&a));
    assert_eq!(ranges_of(&a.and(&a)), ranges_of(&a));
    assert!(a.xor(&a).is_empty());
    assert!(a.minus(&a).is_empty());
}

#[test]
fn xor_and_minus() {
    let a = moc(3, vec![0..5, 10..20]);
    let b = moc(6, vec![3..12, 19..25]);
    let x = a.xor(&b);
    assert_eq!(x.depth_max(), 6);
    assert_eq!(ranges_of(&x), vec![0..3, 5..10, 12..19, 20..25]);
    let m = a.minus(&b);
    assert_eq!(m.depth_max(), 6);
    assert_eq!(ranges_of(&m), vec![0..3, 12..19]);
    assert_eq!(ranges_of(&m), ranges_of(&a.and(&b.not())));
    assert_eq!(ranges_of(&x), ranges_of(&a.minus(&b).or(&b.minus(&a))));
}

#[test]
fn from_fixed_depth_cells_merges_and_sorts() {
    // Depth 29: a cell is one value.
    let m = HpxMoc::from_fixed_depth_cells(29, vec![7, 3, 4, 4, 5, 10], None);
    assert_eq!(m.depth_max(), 29);
    assert_eq!(ranges_of(&m), vec![3..6, 7..8, 10..11]);
    // Depth 28: a cell is four values.
    let m = HpxMoc::from_fixed_depth_cells(28, vec![2, 0, 1], Some(2));
    assert_eq!(ranges_of(&m), vec![0..12]);
    let e = HpxMoc::from_fixed_depth_cells(3, vec![], Some(10));
    assert!(e.is_empty());
}

#[test]
fn from_fixed_depth_cells_ignores_order_and_buffer_size() {
    let cells = vec![170u64, 3, 160, 161, 3, 500, 162, 767];
    let mut rev = cells.clone();
    rev.reverse();
    let a = HpxMoc::from_fixed_depth_cells(3, cells.clone(), None);
    let b = HpxMoc::from_fixed_depth_cells(3, rev, Some(1));
    let c = HpxMoc::from_fixed_depth_cells(3, cells, Some(3));
    assert_eq!(ranges_of(&a), ranges_of(&b));
    assert_eq!(ranges_of(&a), ranges_of(&c));
    assert_eq!(ranges_of(&a), d3(&[(3, 4), (160, 163), (170, 171), (500, 501), (767, 768)]));
}

#[test]
fn from_fixed_depth_cells_u32() {
    let m = RangeMOC::<u32, Hpx<u32>>::from_fixed_depth_cells(13, vec![5u32, 6], None);
    assert_eq!(m.moc_ranges().ranges().to_vec(), vec![5u32..7]);
    let m = RangeMOC::<u32, Hpx<u32>>::from_fixed_depth_cells(12, vec![1u32], None);
    assert_eq!(m.moc_ranges().ranges().to_vec(), vec![4u32..8]);
}

#[test]
fn append_fixed_depth_cells_is_or() {
    let a = HpxMoc::from_fixed_depth_cells(3, vec![10, 11], None);
    let appended = HpxMoc::from_fixed_depth_cells(3, vec![10, 11], None).append_fixed_depth_cells(3, vec![12, 40], Some(1));
    let cells = HpxMoc::from_fixed_depth_cells(3, vec![12, 40], None);
    assert_eq!(appended.depth_max(), 3);
    assert_eq!(ranges_of(&appended), ranges_of(&a.or(&cells)));
    assert_eq!(ranges_of(&appended), d3(&[(10, 13), (40, 41)]));
}

#[test]
fn append_no_cell_keeps_the_ranges() {
    let a = moc(3, vec![0..5, 5..9]);
    let appended = a.append_fixed_depth_cells(3, vec![], None);
    assert_eq!(ranges_of(&appended), vec![0..5, 5..9]);
}

#[test]
fn owned_iterator() {
    let a = moc(3, vec![0..5, 10..20]);
    let mut it = a.into_range_moc_iter();
    assert_eq!(it.depth_max(), 3);
    assert_eq!(it.size_hint(), (2, Some(2)));
    assert_eq!(it.peek_last(), Some(&(10..20)));
    assert_eq!(it.next(), Some(0..5));
    assert_eq!(it.size_hint(), (1, Some(1)));
    assert_eq!(it.next(), Some(10..20));
    assert_eq!(it.next(), None);
    assert_eq!(it.size_hint(), (0, Some(0)));
    assert_eq!(it.peek_last(), Some(&(10..20)));
}

#[test]
fn borrowing_iterator() {
    let a = moc(3, vec![0..5, 10..20]);
    let mut it = (&a).into_range_moc_iter();
    assert_eq!(it.depth_max(), 3);
    assert_eq!(it.peek_last(), Some(&(10..20)));
    assert_eq!(it.next(), Some(0..5));
    assert_eq!(it.next(), Some(10..20));
    assert_eq!(it.next(), None);
    assert_eq!(a.len(), 2);
    let e = moc(3, vec![]);
    let mut it = (&e).into_range_moc_iter();
    assert_eq!(it.peek_last(), None);
    assert_eq!(it.next(), None);
}

#[test]
fn cells_of_ranges() {
    let a = moc(29, vec![0..20]);
    assert_eq!(a.cells(), vec![Cell { depth: 27, idx: 0 }, Cell { depth: 28, idx: 4 }]);
    let b = moc(29, vec![1..5]);
    assert_eq!(
        b.cells(),
        vec![
            Cell { depth: 29, idx: 1 },
            Cell { depth: 29, idx: 2 },
            Cell { depth: 29, idx: 3 },
            Cell { depth: 29, idx: 4 }
        ]
    );
    let whole = moc(0, vec![0..UNIVERSE]);
    let cells = whole.cells();
    assert_eq!(cells.len(), 12);
    assert_eq!(cells[11], Cell { depth: 0, idx: 11 });
}

/// The cells of depth 3 surrounding cell 10 of depth 1 (documented by cdshealpix).
const EDGE_10: [u64; 19] = [85, 87, 93, 95, 117, 138, 139, 142, 143, 154, 176, 178, 184, 186, 415, 437, 439, 445, 447];

#[test]
fn expanded_adds_the_external_edge() {
    let a = moc(3, vec![(10 << 56)..(11 << 56)]);
    let e = a.expanded();
    assert_eq!(e.depth_max(), 3);
    let mut cells: Vec<u64> = EDGE_10.to_vec();
    cells.extend(160..176);
    let expected = HpxMoc::from_fixed_depth_cells(3, cells, None);
    assert_eq!(ranges_of(&e), ranges_of(&expected));
    let mut it = a.expanded_iter();
    assert_eq!(it.next(), Some(ranges_of(&expected)[0].clone()));
}

#[test]
fn external_border_is_the_external_edge() {
    let a = moc(3, vec![(10 << 56)..(11 << 56)]);
    let b = a.external_border();
    assert_eq!(b.depth_max(), 3);
    let expected = HpxMoc::from_fixed_depth_cells(3, EDGE_10.to_vec(), None);
    assert_eq!(ranges_of(&b), ranges_of(&expected));
    assert!(b.and(&a).is_empty());
    assert_eq!(ranges_of(&b.or(&a)), ranges_of(&a.expanded()));
}

#[test]
fn internal_border_lies_within_the_moc() {
    let a = moc(3, vec![(10 << 56)..(11 << 56)]);
    let b = a.internal_border();
    assert_eq!(b.depth_max(), 3);
    assert_eq!(ranges_of(&b.minus(&a)), Vec::<Range<u64>>::new());
    let inner = HpxMoc::from_fixed_depth_cells(3, vec![163, 166, 169, 172], None);
    assert_eq!(ranges_of(&b), ranges_of(&a.minus(&inner)));
}

#[test]
fn conversion_to_u32_and_u16() {
    let a = moc(3, vec![(10 << 56)..(11 << 56)]);
    let r32 = from::<u32>(moc(3, vec![(10 << 56)..(11 << 56)]));
    assert_eq!(r32.depth_max(), 3);
    assert_eq!(r32.moc_ranges().ranges().to_vec(), vec![(10u32 << 24)..(11u32 << 24)]);
    let r16 = from::<u16>(a);
    assert_eq!(r16.moc_ranges().ranges().to_vec(), vec![(10u16 << 8)..(11u16 << 8)]);
    let r64 = from::<u64>(moc(29, vec![3..9]));
    assert_eq!(r64.moc_ranges().ranges().to_vec(), vec![3u64..9]);
}

#[test]
fn conversion_keeps_every_range() {
    let r32 = from::<u32>(moc(13, vec![0..(1 << 32), (2 << 32)..(5 << 32)]));
    assert_eq!(r32.depth_max(), 13);
    assert_eq!(r32.moc_ranges().ranges().to_vec(), vec![0u32..1, 2..5]);
}

#[test]
fn from_depth_ranges_scales_to_depth_29() {
    let m = HpxMoc::from_depth_ranges(3, &[160..176, 200..201]).unwrap();
    assert_eq!(m.depth_max(), 3);
    assert_eq!(ranges_of(&m), d3(&[(160, 176), (200, 201)]));
    let full = HpxMoc::from_depth_ranges(0, &[0..12]).unwrap();
    assert_eq!(ranges_of(&full), vec![0..UNIVERSE]);
}

#[test]
fn from_depth_ranges_rejects_invalid_input() {
    assert!(HpxMoc::from_depth_ranges(30, &[0..1]).is_none());
    assert!(HpxMoc::from_depth_ranges(3, &[5..4]).is_none());
    assert!(HpxMoc::from_depth_ranges(3, &[5..9, 8..10]).is_none());
    assert!(HpxMoc::from_depth_ranges(3, &[0..769]).is_none());
    assert!(HpxMoc::from_depth_ranges(3, &[0..768]).is_some());
}

#[test]
fn from_depth_ranges_of_a_bmoc() {
    let bmoc = cdshealpix::nested::zone_coverage(2, 0.0, 0.0, 1.0, 0.5);
    let ranges = bmoc.to_ranges();
    let m = HpxMoc::from_depth_ranges(bmoc.get_depth_max(), &ranges).unwrap();
    assert_eq!(m.depth_max(), 2);
    assert!(!m.is_empty());
    let expected: Vec<Range<u64>> = ranges.iter().map(|r| (r.start << 54)..(r.end << 54)).collect();
    assert_eq!(ranges_of(&m), expected);
}

#[test]
fn clone_keeps_depth_and_ranges() {
    let a = moc(3, vec![0..5, 10..20]);
    let b = a.clone();
    assert_eq!(b.depth_max(), 3);
    assert_eq!(ranges_of(&b), ranges_of(&a));
}

#[test]
fn cells_cover_the_moc() {
    let a = moc(29, vec![3..100, 1000..5000]);
    let mut rebuilt = moc(29, vec![]);
    for c in a.cells() {
        let shift = 2 * (29 - c.depth as u64);
        let one = moc(29, vec![(c.idx << shift)..((c.idx + 1) << shift)]);
        rebuilt = rebuilt.or(&one);
    }
    assert_eq!(ranges_of(&rebuilt), ranges_of(&a));
}

#[test]
fn mocs_from_u16_cells() {
    let m = RangeMOC::<u16, Hpx<u16>>::from_fixed_depth_cells(5, vec![3u16, 1, 2], None);
    assert_eq!(m.moc_ranges().ranges().to_vec(), vec![1u16..4]);
    let n = m.not();
    assert_eq!(n.moc_ranges().ranges().to_vec(), vec![0u16..1, 4..12288]);
}

#[test]
fn operations_keep_whole_cells() {
    let a = HpxMoc::from_fixed_depth_cells(3, vec![160, 161], None);
    let b = HpxMoc::from_fixed_depth_cells(2, vec![41], None);
    let u = a.or(&b);
    assert_eq!(u.depth_max(), 3);
    assert_eq!(ranges_of(&u), d3(&[(160, 162), (164, 168)]));
    let e = u.expanded();
    assert!(ranges_of(&e.and(&u)) == ranges_of(&u));
    let n = u.not();
    assert_eq!(ranges_of(&n.not()), ranges_of(&u));
    assert!(!n.external_border().is_empty());
}

#[test]
fn iteration_returns_sorted_ranges_then_none() {
    let a = moc(3, vec![0..5, 5..9, 20..30]);
    let mut it = a.into_range_moc_iter();
    let mut prev_end = 0u64;
    while let Some(r) = it.next() {
        assert!(r.start < r.end);
        assert!(prev_end <= r.start);
        prev_end = r.end;
        assert_eq!(it.peek_last(), Some(&(20..30)));
    }
    assert_eq!(it.next(), None);
    assert_eq!(it.next(), None);
    assert_eq!(it.size_hint(), (0, Some(0)));
}

#[test]
fn checked_conversion() {
    let m13 = moc(13, vec![(5u64 << 32)..(7u64 << 32)]);
    let r = checked_from::<u32>(m13).unwrap();
    assert_eq!(r.depth_max(), 13);
    assert_eq!(r.moc_ranges().ranges().to_vec(), vec![5u32..7]);
    assert!(checked_from::<u32>(moc(14, vec![])).is_none());
    assert!(checked_from::<u16>(moc(6, vec![])).is_none());
    assert!(checked_from::<u16>(moc(5, vec![])).is_some());
    assert!(checked_from::<u32>(moc(13, vec![0..5])).is_none());
}

#[test]
fn internal_border_of_complement_is_external_border() {
    let a = moc(3, vec![(10 << 56)..(11 << 56)]);
    assert_eq!(ranges_of(&a.not().internal_border()), ranges_of(&a.external_border()));
}
