use bootmem::rangeset::{Error, Range, RangeSet};

fn rs_of(ranges: &[(u64, u64)]) -> RangeSet {
    let mut rs = RangeSet::new();
    for &(start, end) in ranges {
        rs.insert(Range { start, end }).unwrap();
    }
    rs
}

fn entries_sorted(rs: &RangeSet) -> Vec<(u64, u64)> {
    let mut v: Vec<(u64, u64)> = rs.entries().iter().map(|r| (r.start, r.end)).collect();
    v.sort();
    v
}

#[test]
fn new_set_is_empty() {
    let rs = RangeSet::new();
    assert!(rs.entries().is_empty());
    assert_eq!(rs.sum(), Some(0));
}

#[test]
fn insert_merges_touching_ranges() {
    let rs = rs_of(&[(0, 9), (10, 19)]);
    assert_eq!(entries_sorted(&rs), vec![(0, 19)]);
}

#[test]
fn insert_merges_overlapping_ranges() {
    let rs = rs_of(&[(0, 20), (10, 30), (100, 110)]);
    assert_eq!(entries_sorted(&rs), vec![(0, 30), (100, 110)]);
}

#[test]
fn insert_merges_across_many_entries() {
    // A range bridging several disjoint entries collapses them into one.
    let rs = rs_of(&[(0, 9), (20, 29), (40, 49), (5, 45)]);
    assert_eq!(entries_sorted(&rs), vec![(0, 49)]);
}

#[test]
fn insert_rejects_backwards_range() {
    let mut rs = RangeSet::new();
    assert_eq!(rs.insert(Range { start: 10, end: 9 }), Err(Error::InvalidRange));
}

#[test]
fn sum_counts_each_address_once() {
    let rs = rs_of(&[(0, 99), (200, 299)]);
    assert_eq!(rs.sum(), Some(200));
}

#[test]
fn sum_overflows_to_none() {
    let rs = rs_of(&[(0, u64::MAX)]);
    assert_eq!(rs.sum(), None);
}

#[test]
fn remove_trims_and_deletes() {
    let mut rs = rs_of(&[(0, 99)]);
    rs.remove(Range { start: 0, end: 49 }).unwrap();
    assert_eq!(entries_sorted(&rs), vec![(50, 99)]);
    rs.remove(Range { start: 90, end: 120 }).unwrap();
    assert_eq!(entries_sorted(&rs), vec![(50, 89)]);
    rs.remove(Range { start: 0, end: 200 }).unwrap();
    assert!(rs.entries().is_empty());
}

#[test]
fn remove_splits_an_entry() {
    let mut rs = rs_of(&[(0, 99)]);
    rs.remove(Range { start: 10, end: 19 }).unwrap();
    assert_eq!(entries_sorted(&rs), vec![(0, 9), (20, 99)]);
    assert_eq!(rs.sum(), Some(90));
}

#[test]
fn remove_rejects_backwards_range() {
    let mut rs = rs_of(&[(0, 99)]);
    assert_eq!(rs.remove(Range { start: 5, end: 4 }), Err(Error::InvalidRange));
}

#[test]
fn delete_rejects_bad_index() {
    let mut rs = rs_of(&[(0, 9)]);
    assert_eq!(rs.delete(3), Err(Error::InvalidIndex));
    assert_eq!(rs.delete(0), Ok(()));
    assert!(rs.entries().is_empty());
}

#[test]
fn subtract_removes_other_cover() {
    let mut rs = rs_of(&[(0, 99), (200, 299)]);
    let other = rs_of(&[(50, 249)]);
    rs.subtract(&other).unwrap();
    assert_eq!(entries_sorted(&rs), vec![(0, 49), (250, 299)]);
}

#[test]
fn entries_stay_disjoint_and_non_adjacent() {
    // Exercise a mixed insert/remove sequence and check the invariant on
    // the concrete outcome.
    let mut rs = RangeSet::new();
    let ops: [(bool, u64, u64); 7] = [
        (true, 0, 50),
        (true, 60, 100),
        (false, 20, 30),
        (true, 31, 59),
        (false, 90, 95),
        (true, 200, 200),
        (false, 0, 5),
    ];
    for &(ins, s, e) in ops.iter() {
        if ins {
            rs.insert(Range { start: s, end: e }).unwrap();
        } else {
            rs.remove(Range { start: s, end: e }).unwrap();
        }
    }
    let ents = entries_sorted(&rs);
    for w in ents.windows(2) {
        let (_, e0) = w[0];
        let (s1, _) = w[1];
        // Disjoint and non-adjacent: at least one free address between.
        assert!(e0 + 1 < s1);
    }
    for &(s, e) in ents.iter() {
        assert!(s <= e);
    }
}

#[test]
fn out_of_entries_when_full() {
    let mut rs = RangeSet::new();
    for i in 0..256u64 {
        rs.insert(Range { start: i * 10, end: i * 10 + 5 }).unwrap();
    }
    assert_eq!(rs.entries().len(), 256);
    // A range touching an existing entry still merges.
    assert_eq!(rs.insert(Range { start: 6, end: 7 }), Ok(()));
    assert_eq!(rs.entries().len(), 256);
    // A range touching nothing needs a fresh slot and fails.
    assert_eq!(rs.insert(Range { start: 5000, end: 5001 }), Err(Error::OutOfEntries));
}

#[test]
fn allocate_exact_fit_empties_the_set() {
    let mut rs = rs_of(&[(0, 15)]);
    assert_eq!(rs.allocate(16, 16), Ok(0));
    assert!(rs.entries().is_empty());
    assert_eq!(rs.allocate(1, 1), Err(Error::OutOfMemory));
}

#[test]
fn allocate_rejects_bad_parameters() {
    let mut rs = rs_of(&[(0, 1000)]);
    assert_eq!(rs.allocate(1, 3), Err(Error::InvalidAlignment));
    assert_eq!(rs.allocate(1, 0), Err(Error::InvalidAlignment));
    assert_eq!(rs.allocate(0, 1), Err(Error::ZeroSizeAllocation));
}

#[test]
fn allocate_pads_for_alignment() {
    let mut rs = rs_of(&[(5, 100)]);
    let base = rs.allocate(10, 8).unwrap();
    assert_eq!(base, 8);
    // The window including the front padding is removed from the set.
    assert_eq!(entries_sorted(&rs), vec![(18, 100)]);
}

#[test]
fn allocate_best_fit_prefers_smaller_window() {
    // The second entry needs no front padding, so its window is smaller
    // and best fit picks it.
    let mut rs = rs_of(&[(1, 1000), (5008, 5023)]);
    let base = rs.allocate(16, 16).unwrap();
    assert_eq!(base, 5008);
    assert_eq!(entries_sorted(&rs), vec![(1, 1000)]);
}

#[test]
fn allocate_first_window_wins_ties() {
    // Equal-size windows: the first entry found wins.
    let mut rs = rs_of(&[(0, 1000), (5000, 5015)]);
    let base = rs.allocate(16, 1).unwrap();
    assert_eq!(base, 0);
    assert_eq!(entries_sorted(&rs), vec![(16, 1000), (5000, 5015)]);
}

#[test]
fn allocate_prefer_places_inside_preferred_region() {
    // The preferred region lies strictly inside a free entry, and a larger
    // non-preferred free entry exists as well.
    let mut rs = rs_of(&[(0, 100), (1000, 9000)]);
    let pref = rs_of(&[(10, 50)]);
    let base = rs.allocate_prefer(16, 1, Some(&pref)).unwrap();
    assert!((10..=35).contains(&base));
}

#[test]
fn allocate_prefer_falls_back_without_preferred_fit() {
    // The preferred region does not overlap any free entry, so the best
    // fit wins: the entry whose window needs no padding.
    let mut rs = rs_of(&[(1, 100), (1000, 1007)]);
    let pref = rs_of(&[(5000, 6000)]);
    let base = rs.allocate_prefer(8, 8, Some(&pref)).unwrap();
    assert_eq!(base, 1000);
}

#[test]
fn allocate_out_of_memory_when_nothing_fits() {
    let mut rs = rs_of(&[(0, 7)]);
    assert_eq!(rs.allocate(16, 1), Err(Error::OutOfMemory));
    // The failed attempt leaves the set unchanged.
    assert_eq!(entries_sorted(&rs), vec![(0, 7)]);
}
