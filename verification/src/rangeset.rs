//! A fixed-capacity set of non-overlapping, non-adjacent inclusive `u64`
//! ranges, used to track and allocate physical memory.

use vstd::arithmetic::power2::{
    lemma2_to64, lemma_pow2_pos, lemma_pow2_strictly_increases, lemma_pow2_unfold, pow2,
};
use vstd::prelude::*;

verus! {

/// Errors associated with `RangeSet` operations.
#[derive(Debug, Clone, Copy, PartialEq, Eq)]
pub enum Error {
    /// An out-of-bounds index was specified.
    InvalidIndex,
    /// A range was specified with an invalid shape (start > end).
    InvalidRange,
    /// An operation needed a fresh slot but the fixed allocation of ranges
    /// was already full.
    OutOfEntries,
    /// No free range with the requested size and alignment exists.
    OutOfMemory,
    /// Zero sized allocations are not supported.
    ZeroSizeAllocation,
    /// The alignment specified was zero or not a power of two.
    InvalidAlignment,
}

/// An inclusive range of `u64` addresses; `start <= end` for a valid range.
#[derive(Debug, Clone, Copy, PartialEq, Eq)]
pub struct Range {
    /// Start of the range (inclusive).
    pub start: u64,
    /// End of the range (inclusive).
    pub end: u64,
}

/// The fixed capacity of a `RangeSet`.
pub const MAX_ENTRIES: usize = 256;

/// A valid range: its start does not exceed its end.
pub open spec fn range_wf(r: Range) -> bool {
    r.start <= r.end
}

/// Two ranges are separated: they neither overlap nor touch.
pub open spec fn sep(a: Range, b: Range) -> bool {
    a.end + 1 < b.start || b.end + 1 < a.start
}

/// Two valid ranges overlap or touch, so inserting both must merge them.
pub open spec fn touches(a: Range, b: Range) -> bool {
    a.start <= b.end + 1 && b.start <= a.end + 1
}

/// Address `a` lies inside range `r`.
pub open spec fn in_range(r: Range, a: int) -> bool {
    r.start <= a <= r.end
}

/// Address `a` is covered by some entry of `s`.
pub open spec fn covered(s: Seq<Range>, a: int) -> bool {
    exists|i: int| 0 <= i < s.len() && in_range(#[trigger] s[i], a)
}

/// Well-formed entry list: bounded, valid ranges, pairwise separated.
pub open spec fn entries_wf(s: Seq<Range>) -> bool {
    &&& s.len() <= MAX_ENTRIES
    &&& forall|i: int| 0 <= i < s.len() ==> range_wf(#[trigger] s[i])
    &&& forall|i: int, j: int|
        0 <= i < s.len() && 0 <= j < s.len() && i != j ==> sep(#[trigger] s[i], #[trigger] s[j])
}

/// A set of non-overlapping, non-adjacent inclusive `u64` ranges with a
/// fixed capacity of `MAX_ENTRIES` entries.
#[derive(Clone)]
pub struct RangeSet {
    /// The in-use entries.
    ranges: Vec<Range>,
}

impl View for RangeSet {
    type V = Seq<Range>;

    closed spec fn view(&self) -> Seq<Range> {
        self.ranges@
    }
}

impl RangeSet {
    /// The set's invariant: entries are valid, pairwise disjoint and
    /// non-adjacent, and fit in the fixed capacity.
    pub open spec fn wf(self) -> bool {
        entries_wf(self@)
    }

    /// Create a new empty `RangeSet`.
    pub fn new() -> (rs: RangeSet)
        ensures
            rs.wf(),
            rs@ == Seq::<Range>::empty(),
    {
        RangeSet { ranges: Vec::new() }
    }

    /// Get all the entries in the `RangeSet` as a slice.
    pub fn entries(&self) -> (r: &[Range])
        ensures
            r@ == self@,
    {
        self.ranges.as_slice()
    }

    /// Delete the range at `idx` by swapping the last in-use entry into its
    /// place; indices are not stable across calls.
    pub fn delete(&mut self, idx: usize) -> (r: Result<(), Error>)
        requires
            old(self).wf(),
        ensures
            final(self).wf(),
            idx >= old(self)@.len() ==> r == Err::<(), Error>(Error::InvalidIndex)
                && final(self)@ == old(self)@,
            idx < old(self)@.len() ==> r == Ok::<(), Error>(())
                && final(self)@ == old(self)@.update(idx as int, old(self)@.last()).drop_last(),
    {
        if idx >= self.ranges.len() {
            return Err(Error::InvalidIndex);
        }
        self.ranges.swap_remove(idx);
        Ok(())
    }

    /// Find the index of some entry that overlaps or touches `range`.
    fn find_touching(&self, range: Range) -> (r: Option<usize>)
        requires
            self.wf(),
        ensures
            match r {
                Some(i) => i < self@.len() && touches(self@[i as int], range),
                None => forall|i: int| 0 <= i < self@.len() ==> !touches(#[trigger] self@[i], range),
            },
    {
        let n = self.ranges.len();
        let mut i: usize = 0;
        while i < n
            invariant
                i <= n,
                n == self@.len(),
                self.wf(),
                forall|j: int| 0 <= j < i ==> !touches(#[trigger] self@[j], range),
            decreases n - i,
        {
            let ent = self.ranges[i];
            if range.start <= ent.end.saturating_add(1) && ent.start <= range.end.saturating_add(1) {
                return Some(i);
            }
            i += 1;
        }
        None
    }

    /// Insert a new range into this `RangeSet`. Any existing entry that
    /// overlaps or touches the new range is merged into it, so the covered
    /// addresses afterwards are exactly the old ones plus the new range.
    pub fn insert(&mut self, range: Range) -> (r: Result<(), Error>)
        requires
            old(self).wf(),
        ensures
            final(self).wf(),
            final(self)@.len() <= old(self)@.len() + 1,
            range.end < range.start ==> r == Err::<(), Error>(Error::InvalidRange)
                && final(self)@ == old(self)@,
            range.start <= range.end ==> match r {
                Ok(()) => forall|a: int|
                    #![trigger covered(final(self)@, a)]
                    #![trigger covered(old(self)@, a)]
                    covered(final(self)@, a) <==> covered(old(self)@, a) || in_range(range, a),
                Err(e) => {
                    &&& e == Error::OutOfEntries
                    &&& final(self)@ == old(self)@
                    &&& old(self)@.len() == MAX_ENTRIES
                    &&& forall|i: int|
                        0 <= i < old(self)@.len() ==> !touches(#[trigger] old(self)@[i], range)
                },
            },
    {
        // Check the range shape.
        if range.end < range.start {
            return Err(Error::InvalidRange);
        }

        let ghost orig = self@;
        let mut cur = range;
        let mut merged = false;

        // Union every entry that overlaps or touches the candidate into the
        // candidate, deleting the entry, until no such entry is left.
        loop
            invariant
                self.wf(),
                range_wf(cur),
                forall|a: int|
                    (covered(self@, a) || in_range(cur, a))
                        <==> (covered(orig, a) || in_range(range, a)),
                self@.len() <= orig.len(),
                merged ==> self@.len() < MAX_ENTRIES,
                !merged ==> self@ == orig && cur == range,
            ensures
                forall|i: int| 0 <= i < self@.len() ==> !touches(#[trigger] self@[i], cur),
            decreases self@.len(),
        {
            match self.find_touching(cur) {
                None => {
                    break;
                },
                Some(i) => {
                    let ghost prev = self@;
                    let ent = self.ranges[i];
                    // The union of two touching valid ranges is again a
                    // single range spanning both.
                    let ns = if cur.start <= ent.start { cur.start } else { ent.start };
                    let ne = if cur.end >= ent.end { cur.end } else { ent.end };
                    self.delete(i)?;
                    proof {
                        lemma_covered_swap_remove(prev, i as int);
                    }
                    cur = Range { start: ns, end: ne };
                    merged = true;
                },
            }
        }

        // Add the final range to the end.
        if self.ranges.len() >= MAX_ENTRIES {
            return Err(Error::OutOfEntries);
        }
        let ghost before = self@;
        self.ranges.push(cur);
        proof {
            lemma_covered_push(before, cur);
        }
        Ok(())
    }

    /// Remove `range` from the `RangeSet`. Every overlapping entry is
    /// trimmed, deleted, or split so that no covered address remains inside
    /// `range`; addresses outside `range` are untouched.
    #[verifier::loop_isolation(false)]
    pub fn remove(&mut self, range: Range) -> (r: Result<(), Error>)
        requires
            old(self).wf(),
        ensures
            final(self).wf(),
            final(self)@.len() <= old(self)@.len() + 1,
            range.end < range.start ==> r == Err::<(), Error>(Error::InvalidRange)
                && final(self)@ == old(self)@,
            range.start <= range.end ==> match r {
                Ok(()) => forall|a: int|
                    #![trigger covered(final(self)@, a)]
                    #![trigger covered(old(self)@, a)]
                    covered(final(self)@, a) <==> covered(old(self)@, a) && !in_range(range, a),
                Err(e) => {
                    &&& e == Error::OutOfEntries
                    &&& old(self)@.len() == MAX_ENTRIES
                    &&& exists|k: int|
                        0 <= k < old(self)@.len() && strict_inside(#[trigger] old(self)@[k], range)
                    &&& forall|a: int| #[trigger] covered(final(self)@, a) ==> covered(old(self)@, a)
                    &&& forall|a: int|
                        covered(old(self)@, a) && !in_range(range, a)
                            ==> #[trigger] covered(final(self)@, a)
                },
            },
    {
        // Check the range shape.
        if range.end < range.start {
            return Err(Error::InvalidRange);
        }

        let ghost orig = self@;
        let mut i: usize = 0;
        while i < self.ranges.len()
            invariant
                self.wf(),
                range_wf(range),
                i <= self@.len(),
                // The processed prefix no longer overlaps the removal range.
                forall|j: int| 0 <= j < i ==> !overlapping(#[trigger] self@[j], range),
                // The cover only ever shrinks.
                forall|a: int| #[trigger] covered(self@, a) ==> covered(orig, a),
                // Outside the removal range the cover is unchanged.
                forall|a: int|
                    !in_range(range, a) ==> (#[trigger] covered(self@, a) <==> covered(orig, a)),
                // The entry list has not grown (a split returns at once).
                self@.len() <= orig.len(),
                // Strict containers of `range` exist only if the starting list had one.
                (forall|k: int| 0 <= k < orig.len() ==> !strict_inside(#[trigger] orig[k], range))
                    ==> (forall|j: int|
                        0 <= j < self@.len() ==> !strict_inside(#[trigger] self@[j], range)),
            decreases self@.len() - i,
        {
            let ent = self.ranges[i];
            if range.start <= ent.end && ent.start <= range.end {
                // The entry overlaps the removal range.
                if range.start <= ent.start && ent.end <= range.end {
                    // Entirely contained by the removal range: delete it. The
                    // swapped-in entry is examined on the next iteration.
                    let ghost prev = self@;
                    self.delete(i)?;
                    proof {
                        lemma_covered_swap_remove(prev, i as int);
                        // The deleted entry lay entirely inside the removal
                        // range, so nothing outside it changed.
                        assert forall|a: int| !in_range(range, a)
                            implies (#[trigger] covered(self@, a) <==> covered(prev, a)) by {
                            if covered(prev, a) {
                                assert(!in_range(prev[i as int], a));
                            }
                        }
                    }
                } else if range.start <= ent.start {
                    // Overlap at the low end of the entry only: advance the
                    // entry's start past the removal range.
                    let ghost prev = self@;
                    let trimmed = Range { start: range.end + 1, end: ent.end };
                    self.ranges[i] = trimmed;
                    proof {
                        lemma_covered_update(prev, i as int, trimmed);
                        lemma_trim_cover(prev, self@, i as int, range);
                    }
                    i += 1;
                } else if range.end >= ent.end {
                    // Overlap at the high end of the entry only: retract the
                    // entry's end before the removal range.
                    let ghost prev = self@;
                    let trimmed = Range { start: ent.start, end: range.start - 1 };
                    self.ranges[i] = trimmed;
                    proof {
                        lemma_covered_update(prev, i as int, trimmed);
                        lemma_trim_cover(prev, self@, i as int, range);
                    }
                    i += 1;
                } else {
                    // The removal range lies strictly inside the entry: split
                    // it in two. Entries are disjoint, so no other entry can
                    // overlap the removal range and the scan is complete.
                    if self.ranges.len() >= MAX_ENTRIES {
                        proof {
                            assert(strict_inside(self@[i as int], range));
                            if forall|k: int|
                                0 <= k < orig.len() ==> !strict_inside(#[trigger] orig[k], range) {
                                assert(!strict_inside(self@[i as int], range));
                            }
                        }
                        return Err(Error::OutOfEntries);
                    }
                    let ghost prev = self@;
                    let high = Range { start: range.end + 1, end: ent.end };
                    let low = Range { start: ent.start, end: range.start - 1 };
                    self.ranges[i] = high;
                    proof {
                        lemma_covered_update(prev, i as int, high);
                    }
                    let ghost mid = self@;
                    self.ranges.push(low);
                    proof {
                        lemma_covered_push(mid, low);
                        // The cover has only shrunk, and only inside `range`:
                        // both pieces lie inside the split entry, and every
                        // address of that entry outside `range` lands in one
                        // of the two pieces.
                        assert forall|a: int| #[trigger] covered(self@, a)
                            implies covered(prev, a) by {
                            if in_range(low, a) || in_range(high, a) {
                                assert(in_range(prev[i as int], a));
                            }
                        }
                        assert forall|a: int| covered(prev, a) && !in_range(range, a)
                            implies #[trigger] covered(self@, a) by {
                            if in_range(prev[i as int], a) {
                                if a <= range.end {
                                    assert(in_range(low, a));
                                } else {
                                    assert(in_range(mid[i as int], a));
                                }
                            }
                        }
                        // No entry of `prev` other than `ent` overlaps the
                        // removal range, since all are separated from `ent`
                        // and the removal range lies strictly inside it.
                        assert forall|j: int| 0 <= j < self@.len()
                            implies !overlapping(#[trigger] self@[j], range) by {
                            if j < prev.len() && j != i {
                                assert(sep(prev[j as int], prev[i as int]));
                            }
                        }
                        assert forall|a: int| in_range(range, a)
                            implies !covered(self@, a) by {
                            if covered(self@, a) {
                                let j = choose|j: int|
                                    0 <= j < self@.len() && in_range(#[trigger] self@[j], a);
                                assert(overlapping(self@[j], range));
                            }
                        }
                    }
                    return Ok(());
                }
            } else {
                i += 1;
            }
        }
        proof {
            assert forall|a: int| in_range(range, a) implies !covered(self@, a) by {
                if covered(self@, a) {
                    let j = choose|j: int| 0 <= j < self@.len() && in_range(#[trigger] self@[j], a);
                    assert(overlapping(self@[j], range));
                }
            }
        }
        Ok(())
    }

    /// Subtract another `RangeSet` from `self`, removing every address the
    /// other set covers.
    #[verifier::loop_isolation(false)]
    pub fn subtract(&mut self, rs: &RangeSet) -> (r: Result<(), Error>)
        requires
            old(self).wf(),
            rs.wf(),
        ensures
            final(self).wf(),
            match r {
                Ok(()) => forall|a: int|
                    covered(final(self)@, a) <==> covered(old(self)@, a) && !covered(rs@, a),
                Err(e) => {
                    &&& e == Error::OutOfEntries
                    &&& forall|a: int| #[trigger] covered(final(self)@, a) ==> covered(old(self)@, a)
                    &&& forall|a: int|
                        covered(old(self)@, a) && !covered(rs@, a)
                            ==> #[trigger] covered(final(self)@, a)
                },
            },
            old(self)@.len() + rs@.len() <= MAX_ENTRIES ==> r == Ok::<(), Error>(()),
    {
        let ghost orig = self@;
        let mut k: usize = 0;
        while k < rs.ranges.len()
            invariant
                self.wf(),
                k <= rs@.len(),
                self@.len() <= orig.len() + k,
                forall|a: int| #[trigger] covered(self@, a)
                    <==> covered(orig, a) && !covered_upto(rs@, k as int, a),
            decreases rs@.len() - k,
        {
            let ent = rs.ranges[k];
            proof {
                assert(range_wf(rs@[k as int]));
            }
            let ghost mid = self@;
            match self.remove(ent) {
                Ok(()) => {
                    proof {
                        assert forall|a: int| #[trigger] covered(self@, a)
                            implies covered(orig, a) && !covered_upto(rs@, k + 1, a) by {
                            assert(covered(mid, a) && !in_range(rs@[k as int], a));
                            if covered_upto(rs@, k + 1, a) {
                                let j = choose|j: int|
                                    0 <= j < k + 1 && j < rs@.len()
                                        && in_range(#[trigger] rs@[j], a);
                                if j < k {
                                    assert(covered_upto(rs@, k as int, a));
                                }
                            }
                        }
                        assert forall|a: int| covered(orig, a) && !covered_upto(rs@, k + 1, a)
                            implies #[trigger] covered(self@, a) by {
                            assert(!in_range(rs@[k as int], a));
                            assert(!covered_upto(rs@, k as int, a));
                        }
                    }
                },
                Err(e) => {
                    proof {
                        assert forall|a: int| covered(orig, a) && !covered(rs@, a)
                            implies #[trigger] covered(self@, a) by {
                            assert(!covered_upto(rs@, k as int, a));
                            assert(!in_range(rs@[k as int], a));
                            assert(covered(mid, a));
                        }
                    }
                    return Err(e);
                },
            }
            k += 1;
        }
        proof {
            assert forall|a: int| #[trigger] covered(self@, a)
                implies covered(orig, a) && !covered(rs@, a) by {
                if covered(rs@, a) {
                    assert(covered_upto(rs@, rs@.len() as int, a));
                }
            }
            assert forall|a: int| covered(orig, a) && !covered(rs@, a)
                implies #[trigger] covered(self@, a) by {
                if covered_upto(rs@, rs@.len() as int, a) {
                    assert(covered(rs@, a));
                }
            }
        }
        Ok(())
    }

    /// Compute the total number of addresses covered by this `RangeSet`, or
    /// `None` if the total does not fit in a `u64`. Disjointness guarantees
    /// no address is counted twice.
    #[verifier::loop_isolation(false)]
    pub fn sum(&self) -> (r: Option<u64>)
        requires
            self.wf(),
        ensures
            r == if sum_of(self@) <= u64::MAX {
                Some(sum_of(self@) as u64)
            } else {
                None::<u64>
            },
    {
        let n = self.ranges.len();
        let mut acc: u64 = 0;
        let mut i: usize = 0;
        while i < n
            invariant
                i <= n,
                acc == sum_of(self@.take(i as int)),
            decreases n - i,
        {
            let ent = self.ranges[i];
            proof {
                assert(self@.take(i + 1).drop_last() =~= self@.take(i as int));
                assert(self@.take(i + 1).last() == self@[i as int]);
            }
            let term = match (ent.end - ent.start).checked_add(1) {
                Some(t) => t,
                None => {
                    proof {
                        lemma_sum_take_bound(self@, i + 1);
                    }
                    return None;
                },
            };
            acc = match acc.checked_add(term) {
                Some(a) => a,
                None => {
                    proof {
                        lemma_sum_take_bound(self@, i + 1);
                    }
                    return None;
                },
            };
            i += 1;
        }
        proof {
            assert(self@.take(n as int) =~= self@);
        }
        Some(acc)
    }

    /// Allocate `size` addresses aligned to `align` from anywhere in the
    /// set.
    pub fn allocate(&mut self, size: u64, align: u64) -> (r: Result<u64, Error>)
        requires
            old(self).wf(),
        ensures
            final(self).wf(),
            size == 0 ==> r == Err::<u64, Error>(Error::ZeroSizeAllocation)
                && final(self)@ == old(self)@,
            size != 0 && !power_of_two(align as int)
                ==> r == Err::<u64, Error>(Error::InvalidAlignment) && final(self)@ == old(self)@,
            size != 0 && power_of_two(align as int) ==> match r {
                Ok(p) => {
                    &&& (p as int) % (align as int) == 0
                    &&& exists|b: int, e: int|
                        alloc_result(old(self)@, final(self)@, p as int, size as int, b, e)
                },
                Err(e) => {
                    &&& e == Error::OutOfMemory
                    &&& final(self)@ == old(self)@
                    &&& forall|k: int|
                        0 <= k < old(self)@.len()
                            ==> !can_fit(#[trigger] old(self)@[k], size as int, align as int)
                },
            },
            // Best fit: a successful allocation starts at the aligned start
            // of a free entry whose padded window is smallest.
            (size != 0 && power_of_two(align as int) && r matches Ok(p)) ==> (r matches Ok(p)
                && exists|bi: int|
                {
                    &&& 0 <= bi < old(self)@.len()
                    &&& can_fit(#[trigger] old(self)@[bi], size as int, align as int)
                    &&& p == align_up(old(self)@[bi].start as int, align as int)
                    &&& forall|k: int|
                        0 <= k < old(self)@.len() && can_fit(#[trigger] old(self)@[k],
                        size as int, align as int) ==> fit_window_end(old(self)@[bi], size as int,
                            align as int) - old(self)@[bi].start <= fit_window_end(
                            old(self)@[k],
                            size as int,
                            align as int,
                        ) - old(self)@[k].start
                }),
    {
        let r = self.allocate_prefer(size, align, None);
        proof {
            if size != 0 && power_of_two(align as int) {
                if let Err(e) = r {
                    // With no preferred regions a split is never needed, so
                    // the only failure is exhaustion of free memory.
                    assert(e == Error::OutOfMemory);
                }
            }
        }
        r
    }

    /// Allocate `size` addresses aligned to `align`, preferring to place the
    /// allocation inside one of the `regions` if any aligned fit exists in
    /// the overlap of a free entry and a preferred region; otherwise fall
    /// back to the best-fit free entry.
    #[verifier::loop_isolation(false)]
    #[verifier::rlimit(100)]
    pub fn allocate_prefer(&mut self, size: u64, align: u64, regions: Option<&RangeSet>) -> (r:
        Result<u64, Error>)
        requires
            old(self).wf(),
            regions matches Some(rg) ==> rg.wf(),
        ensures
            final(self).wf(),
            size == 0 ==> r == Err::<u64, Error>(Error::ZeroSizeAllocation)
                && final(self)@ == old(self)@,
            size != 0 && !power_of_two(align as int)
                ==> r == Err::<u64, Error>(Error::InvalidAlignment) && final(self)@ == old(self)@,
            size != 0 && power_of_two(align as int) ==> match r {
                Ok(p) => {
                    &&& (p as int) % (align as int) == 0
                    &&& exists|b: int, e: int|
                        alloc_result(old(self)@, final(self)@, p as int, size as int, b, e)
                },
                Err(e) => {
                    &&& (e == Error::OutOfMemory <==> (final(self)@ == old(self)@
                        && forall|k: int|
                            0 <= k < old(self)@.len()
                                ==> !can_fit(#[trigger] old(self)@[k], size as int, align as int)))
                    &&& e != Error::OutOfMemory ==> {
                        &&& e == Error::OutOfEntries
                        &&& regions matches Some(_)
                        &&& old(self)@.len() == MAX_ENTRIES
                        &&& forall|a: int|
                            #[trigger] covered(final(self)@, a) ==> covered(old(self)@, a)
                    }
                },
            },
            // Locality has priority: whenever some preferred fit exists, a
            // successful allocation lies inside a preferred region.
            (r matches Ok(p) && regions matches Some(rg) && exists|k: int, j: int|
                0 <= k < old(self)@.len() && 0 <= j < rg@.len()
                    && pref_fit(#[trigger] old(self)@[k], #[trigger] rg@[j], size as int,
                    align as int)) ==> (regions matches Some(rg) && r matches Ok(p)
                && exists|j: int|
                    0 <= j < rg@.len() && #[trigger] rg@[j].start <= p
                        && p + size - 1 <= rg@[j].end),
            // Best fit: when no preferred fit exists anywhere, a successful
            // allocation starts at the aligned start of a free entry whose
            // padded window is smallest; ties go to the first entry found.
            (size != 0 && power_of_two(align as int) && (regions matches Some(rg)
                ==> forall|k: int, j: int|
                    0 <= k < old(self)@.len() && 0 <= j < rg@.len() ==> !pref_fit(
                        #[trigger] old(self)@[k],
                        #[trigger] rg@[j],
                        size as int,
                        align as int,
                    )) && r matches Ok(p)) ==> (r matches Ok(p) && exists|bi: int|
                {
                    &&& 0 <= bi < old(self)@.len()
                    &&& can_fit(#[trigger] old(self)@[bi], size as int, align as int)
                    &&& p == align_up(old(self)@[bi].start as int, align as int)
                    &&& forall|k: int|
                        0 <= k < old(self)@.len() && can_fit(#[trigger] old(self)@[k],
                        size as int, align as int) ==> fit_window_end(old(self)@[bi], size as int,
                            align as int) - old(self)@[bi].start <= fit_window_end(
                            old(self)@[k],
                            size as int,
                            align as int,
                        ) - old(self)@[k].start
                }),
    {
        // Zero-size allocations are not supported.
        if size == 0 {
            return Err(Error::ZeroSizeAllocation);
        }
        // The alignment must be a nonzero power of two.
        if !is_power_of_two(align) {
            return Err(Error::InvalidAlignment);
        }

        let ghost orig = self@;
        let n = self.ranges.len();
        // The best allocation found so far: (window base, window end,
        // aligned pointer). The window is removed from the set on success.
        let mut best: Option<(u64, u64, u64)> = None;
        let ghost mut best_i: int = 0;
        let ghost mut best_j: int = 0;
        let mut pref: bool = false;
        let mut i: usize = 0;

        while !pref && i < n
            invariant
                self@ == orig,
                i <= n,
                n == orig.len(),
                size >= 1,
                align >= 1,
                match best {
                    None => forall|k: int|
                        0 <= k < i ==> !can_fit(#[trigger] orig[k], size as int, align as int),
                    Some((b, e, p)) => cand_ok(orig, best_i, b, e, p, size, align),
                },
                !pref ==> (best matches Some((b, e, p)) ==> b == orig[best_i].start
                    && p == align_up(b as int, align as int) && e == p + size - 1 && forall|k: int|
                        0 <= k < i && can_fit(#[trigger] orig[k], size as int, align as int)
                            ==> e - b <= fit_window_end(orig[k], size as int, align as int)
                        - orig[k].start),
                pref ==> (best matches Some((b, e, p)) && regions matches Some(rg)
                    && 0 <= best_j < rg@.len() && rg@[best_j].start <= p
                    && e <= rg@[best_j].end && pref_fit(orig[best_i], rg@[best_j], size as int,
                    align as int)),
                !pref ==> (regions matches Some(rg) ==> forall|k: int, j: int|
                    0 <= k < i && 0 <= j < rg@.len()
                        ==> !pref_fit(#[trigger] orig[k], #[trigger] rg@[j], size as int,
                        align as int)),
            decreases n - i, (if pref { 0int } else { 1int }),
        {
            let ent = self.ranges[i];
            // Front padding needed to satisfy the alignment from the
            // entry's start.
            let rem = ent.start % align;
            let align_fix = if rem == 0 { 0 } else { align - rem };
            proof {
                lemma_align_up(ent.start as int, align as int);
                assert(ent.start as int + align_fix as int
                    == align_up(ent.start as int, align as int));
            }
            // Compute the inclusive end of the candidate window [base, end].
            let base = ent.start;
            let fitted = match base.checked_add(align_fix) {
                Some(x) => x.checked_add(size - 1),
                None => None,
            };
            let end = match fitted {
                Some(e) => e,
                None => {
                    // The padded allocation overflows the address space, so
                    // this entry cannot satisfy it.
                    proof {
                        flag_no_pref_fit(orig, i as int, regions, size, align);
                    }
                    i += 1;
                    continue;
                },
            };
            if end > ent.end {
                // The entry is too small for the padded allocation.
                proof {
                    flag_no_pref_fit(orig, i as int, regions, size, align);
                }
                i += 1;
                continue;
            }
            assert(can_fit(orig[i as int], size as int, align as int));

            // If the caller prefers specific regions, accept the first
            // aligned fit inside the overlap of this entry and a preferred
            // region at once: locality takes priority over fragmentation.
            if let Some(rg) = regions {
                let m = rg.ranges.len();
                let mut j: usize = 0;
                while !pref && j < m
                    invariant
                        m == rg@.len(),
                        j <= m,
                        self@ == orig,
                        i < n,
                        n == orig.len(),
                        size >= 1,
                        align >= 1,
                        can_fit(orig[i as int], size as int, align as int),
                        ent == orig[i as int],
                        match best {
                            None => forall|k: int|
                                0 <= k < i ==> !can_fit(#[trigger] orig[k], size as int,
                                align as int),
                            Some((b, e, p)) => cand_ok(orig, best_i, b, e, p, size, align),
                        },
                        !pref ==> (best matches Some((b, e, p)) ==> b == orig[best_i].start
                            && p == align_up(b as int, align as int) && e == p + size - 1
                            && forall|k: int|
                                0 <= k < i && can_fit(#[trigger] orig[k], size as int,
                                align as int) ==> e - b <= fit_window_end(orig[k], size as int,
                                align as int) - orig[k].start),
                        !pref ==> forall|q: int|
                            0 <= q < j ==> !pref_fit(orig[i as int], #[trigger] rg@[q], size as int,
                            align as int),
                        pref ==> (best matches Some((b, e, p)) && cand_ok(orig, best_i, b, e,
                            p, size, align) && 0 <= best_j < rg@.len() && rg@[best_j].start <= p
                            && e <= rg@[best_j].end && pref_fit(orig[best_i], rg@[best_j],
                            size as int, align as int)),
                    decreases m - j, (if pref { 0int } else { 1int }),
                {
                    let reg = rg.ranges[j];
                    // Overlap of the free entry and the preferred region.
                    if reg.start <= ent.end && ent.start <= reg.end {
                        let os = if ent.start >= reg.start { ent.start } else { reg.start };
                        let oe = if ent.end <= reg.end { ent.end } else { reg.end };
                        let rem2 = os % align;
                        let add2 = if rem2 == 0 { 0 } else { align - rem2 };
                        proof {
                            lemma_align_up(os as int, align as int);
                            assert(os as int + add2 as int == align_up(os as int, align as int));
                        }
                        match os.checked_add(add2) {
                            Some(ao) => {
                                if ao <= oe && oe - ao >= size - 1 {
                                    // The aligned allocation fits entirely
                                    // inside the overlap.
                                    let pe = ao + (size - 1);
                                    best = Some((ao, pe, ao));
                                    proof {
                                        best_i = i as int;
                                        best_j = j as int;
                                        assert(range_wf(orig[i as int]));
                                        assert(range_wf(rg@[j as int]));
                                        assert(pref_fit(orig[i as int], rg@[j as int],
                                            size as int, align as int));
                                    }
                                    pref = true;
                                } else {
                                    proof {
                                        assert(!pref_fit(orig[i as int], rg@[j as int],
                                            size as int, align as int));
                                    }
                                    j += 1;
                                }
                            },
                            None => {
                                proof {
                                    assert(!pref_fit(orig[i as int], rg@[j as int], size as int,
                                        align as int));
                                }
                                j += 1;
                            },
                        }
                    } else {
                        proof {
                            assert(!pref_fit(orig[i as int], rg@[j as int], size as int,
                                align as int));
                        }
                        j += 1;
                    }
                }
            }
            if pref {
                continue;
            }

            // Track the best-fit candidate: the smallest window to date,
            // first found winning ties.
            let ptr = base + align_fix;
            proof {
                assert(ptr as int == align_up(ent.start as int, align as int));
                assert(end as int == fit_window_end(orig[i as int], size as int, align as int));
            }
            let replace = match best {
                None => true,
                Some((b0, e0, p0)) => {
                    proof {
                        assert(cand_ok(orig, best_i, b0, e0, p0, size, align));
                    }
                    e0 - b0 > end - base
                },
            };
            if replace {
                best = Some((base, end, ptr));
                proof {
                    best_i = i as int;
                }
            }
            i += 1;
        }

        match best {
            None => {
                // No entry can satisfy the allocation.
                Err(Error::OutOfMemory)
            },
            Some((b, e, p)) => {
                let ghost pre = self@;
                let win = Range { start: b, end: e };
                match self.remove(win) {
                    Ok(()) => {
                        proof {
                            assert forall|a: int| b <= a <= e implies covered(orig, a) by {
                                assert(in_range(orig[best_i], a));
                            }
                            assert(alloc_result(orig, self@, p as int, size as int, b as int,
                                e as int));
                        }
                        Ok(p)
                    },
                    Err(err) => {
                        proof {
                            // The window is a valid range, so the only
                            // failure is wanting a fresh slot for a split.
                            assert(err == Error::OutOfEntries);
                            if !pref {
                                // A best-fit window starts at its entry's
                                // start, so removing it never splits: no
                                // entry strictly contains the window.
                                let k = choose|k: int|
                                    0 <= k < pre.len() && strict_inside(#[trigger] pre[k], win);
                                assert(in_range(orig[best_i], b as int));
                                if k != best_i {
                                    assert(sep(orig[k], orig[best_i]));
                                    assert(in_range(orig[k], b as int));
                                }
                                assert(false);
                            }
                        }
                        Err(err)
                    },
                }
            },
        }
    }
}

/// A successful allocation: the pointer `p` is the start of `size` fresh
/// addresses inside a window `[b, e]` that was covered before the call, and
/// exactly that window was removed from the cover.
pub open spec fn alloc_result(pre: Seq<Range>, post: Seq<Range>, p: int, size: int, b: int, e: int) -> bool {
    &&& b <= p
    &&& p + size - 1 <= e
    &&& forall|a: int| b <= a <= e ==> covered(pre, a)
    &&& forall|a: int|
        #![trigger covered(post, a)]
        #![trigger covered(pre, a)]
        covered(post, a) <==> covered(pre, a) && !(b <= a <= e)
}

/// The candidate window `[b, e]` with aligned pointer `p` lies inside entry
/// `bi` of `s`, which admits a front-padded fit.
spec fn cand_ok(s: Seq<Range>, bi: int, b: u64, e: u64, p: u64, size: u64, al: u64) -> bool {
    &&& 0 <= bi < s.len()
    &&& s[bi].start <= b
    &&& b <= p
    &&& (p as int) % (al as int) == 0
    &&& p + size - 1 <= e
    &&& e <= s[bi].end
    &&& can_fit(s[bi], size as int, al as int)
}

/// When entry `i` cannot take a front-padded fit, it cannot take a
/// preferred fit either.
proof fn flag_no_pref_fit(s: Seq<Range>, i: int, regions: Option<&RangeSet>, size: u64, al: u64)
    requires
        entries_wf(s),
        0 <= i < s.len(),
        regions matches Some(rg) ==> rg.wf(),
        size >= 1,
        al >= 1,
        !can_fit(s[i], size as int, al as int),
    ensures
        regions matches Some(rg) ==> forall|j: int|
            0 <= j < rg@.len() ==> !pref_fit(s[i], #[trigger] rg@[j], size as int, al as int),
{
    if let Some(rg) = regions {
        assert forall|j: int| 0 <= j < rg@.len()
            implies !pref_fit(s[i], #[trigger] rg@[j], size as int, al as int) by {
            if pref_fit(s[i], rg@[j], size as int, al as int) {
                lemma_pref_fit_implies_can_fit(s[i], rg@[j], size as int, al as int);
            }
        }
    }
}

/// Check whether `v` is a power of two.
fn is_power_of_two(v: u64) -> (r: bool)
    ensures
        r == power_of_two(v as int),
        r ==> v >= 1,
{
    let mut p: u64 = 1;
    let mut k: usize = 0;
    proof {
        lemma2_to64();
    }
    loop
        invariant
            k < 64,
            p == pow2(k as nat),
            forall|j: nat| j < k ==> v != pow2(j),
        decreases 64 - k,
    {
        if p == v {
            proof {
                lemma_pow2_pos(k as nat);
                assert((k as nat) < 64 && v == pow2(k as nat));
            }
            return true;
        }
        if k == 63 {
            proof {
                assert forall|j: nat| j < 64 implies v != pow2(j) by {
                    if j == 63 {
                        assert(pow2(j) == p);
                    }
                }
            }
            return false;
        }
        proof {
            lemma_pow2_unfold((k + 1) as nat);
            lemma_pow2_strictly_increases((k + 1) as nat, 64);
            lemma2_to64();
        }
        p = p * 2;
        k += 1;
    }
}

/// After any sequence of mutations, the entries of a well-formed `RangeSet`
/// are pairwise non-overlapping and non-adjacent: any two distinct entries
/// are separated by at least one address. Every mutating operation ensures
/// `wf`, so this holds of every reachable set.
pub proof fn lemma_entries_separated(rs: RangeSet, i: int, j: int)
    requires
        rs.wf(),
        0 <= i < rs@.len(),
        0 <= j < rs@.len(),
        i != j,
    ensures
        rs@[i].start <= rs@[i].end,
        rs@[i].end + 1 < rs@[j].start || rs@[j].end + 1 < rs@[i].start,
{
}

/// `v` is a power of two that fits in a `u64`.
pub open spec fn power_of_two(v: int) -> bool {
    exists|k: nat| k < 64 && v == pow2(k)
}

/// The smallest multiple of `al` that is at least `a`.
pub open spec fn align_up(a: int, al: int) -> int {
    if a % al == 0 {
        a
    } else {
        a + al - a % al
    }
}

/// An aligned allocation of `size` addresses fits in `ent` with front
/// padding computed from the entry's start.
pub open spec fn can_fit(ent: Range, size: int, al: int) -> bool {
    align_up(ent.start as int, al) + size - 1 <= ent.end
}

/// The inclusive end of the front-padded window that `ent` offers: padding
/// from the entry's start, then the aligned allocation.
pub open spec fn fit_window_end(ent: Range, size: int, al: int) -> int {
    align_up(ent.start as int, al) + size - 1
}

/// An aligned allocation of `size` addresses fits entirely inside the
/// overlap of a free entry and a preferred region.
pub open spec fn pref_fit(ent: Range, reg: Range, size: int, al: int) -> bool {
    let os = if ent.start >= reg.start { ent.start as int } else { reg.start as int };
    let oe = if ent.end <= reg.end { ent.end as int } else { reg.end as int };
    os <= oe && align_up(os, al) + size - 1 <= oe
}

/// Basic facts about `align_up`: it is aligned, at least `a`, and less than
/// one alignment past `a`.
proof fn lemma_align_up(a: int, al: int)
    requires
        al >= 1,
        a >= 0,
    ensures
        align_up(a, al) % al == 0,
        a <= align_up(a, al) < a + al,
{
    let r = a % al;
    vstd::arithmetic::div_mod::lemma_fundamental_div_mod(a, al);
    vstd::arithmetic::div_mod::lemma_mod_bound(a, al);
    if r != 0 {
        let q = a / al;
        assert(align_up(a, al) == (q + 1) * al) by (nonlinear_arith)
            requires a == al * q + r && align_up(a, al) == a + al - r {}
        assert(((q + 1) * al) % al == 0) by {
            vstd::arithmetic::div_mod::lemma_mod_multiples_basic(q + 1, al);
        }
    }
}

/// `align_up(a, al)` is the least multiple of `al` at or above `a`.
proof fn lemma_align_up_least(a: int, al: int, b: int)
    requires
        al >= 1,
        a >= 0,
        b >= a,
        b % al == 0,
    ensures
        b >= align_up(a, al),
{
    let r = a % al;
    if r != 0 {
        let q = a / al;
        vstd::arithmetic::div_mod::lemma_fundamental_div_mod(a, al);
        vstd::arithmetic::div_mod::lemma_mod_bound(a, al);
        if b < align_up(a, al) {
            // `b` would be a multiple of `al` strictly between `al * q`
            // and `al * (q + 1)`, which cannot exist.
            assert(align_up(a, al) == (q + 1) * al) by (nonlinear_arith)
                requires a == al * q + r && align_up(a, al) == a + al - r {}
            vstd::arithmetic::div_mod::lemma_fundamental_div_mod(b, al);
            let qb = b / al;
            assert(false) by (nonlinear_arith)
                requires
                    al >= 1,
                    b == al * qb,
                    b > al * q,
                    b < (q + 1) * al,
            {}
        }
    }
}

/// `align_up` is monotonic in its first argument.
proof fn lemma_align_up_mono(a1: int, a2: int, al: int)
    requires
        al >= 1,
        0 <= a1 <= a2,
    ensures
        align_up(a1, al) <= align_up(a2, al),
{
    lemma_align_up(a1, al);
    lemma_align_up(a2, al);
    lemma_align_up_least(a1, al, align_up(a2, al));
}

/// A preferred fit inside an entry implies the plain front-padded fit for
/// that entry, so skipping entries without a plain fit loses no preferred
/// candidate.
proof fn lemma_pref_fit_implies_can_fit(ent: Range, reg: Range, size: int, al: int)
    requires
        al >= 1,
        size >= 1,
        range_wf(ent),
        range_wf(reg),
        pref_fit(ent, reg, size, al),
    ensures
        can_fit(ent, size, al),
{
    let os = if ent.start >= reg.start { ent.start as int } else { reg.start as int };
    let oe = if ent.end <= reg.end { ent.end as int } else { reg.end as int };
    lemma_align_up_mono(ent.start as int, os, al);
}

/// The addresses covered by the first `n` entries of `s`.
pub open spec fn covered_upto(s: Seq<Range>, n: int, a: int) -> bool {
    exists|j: int| 0 <= j < n && j < s.len() && in_range(#[trigger] s[j], a)
}

/// The total number of addresses covered by the entries of `s`.
pub open spec fn sum_of(s: Seq<Range>) -> int
    decreases s.len(),
{
    if s.len() == 0 {
        0
    } else {
        sum_of(s.drop_last()) + (s.last().end - s.last().start + 1)
    }
}

/// The set of addresses covered by the entries of `s`.
pub open spec fn covered_set(s: Seq<Range>) -> Set<int> {
    Set::new(|a: int| covered(s, a))
}

/// Law: with pairwise disjoint valid entries no address is counted twice,
/// so the total that `sum` computes is exactly the number of distinct
/// covered addresses.
pub proof fn lemma_sum_counts_cover(s: Seq<Range>)
    requires
        forall|i: int| 0 <= i < s.len() ==> range_wf(#[trigger] s[i]),
        forall|i: int, j: int|
            0 <= i < s.len() && 0 <= j < s.len() && i != j ==> sep(#[trigger] s[i], #[trigger] s[j]),
    ensures
        covered_set(s).finite(),
        covered_set(s).len() == sum_of(s),
    decreases s.len(),
{
    if s.len() == 0 {
        assert(covered_set(s) =~= Set::<int>::empty());
    } else {
        let t = s.drop_last();
        let last = s.last();
        lemma_sum_counts_cover(t);
        let iv = vstd::set_lib::set_int_range(last.start as int, last.end as int + 1);
        vstd::set_lib::lemma_int_range(last.start as int, last.end as int + 1);
        // The whole cover splits into the cover of the other entries and
        // the last entry's addresses.
        assert forall|a: int| #[trigger] covered(s, a) implies covered(t, a) || in_range(last, a) by {
            let j = choose|j: int| 0 <= j < s.len() && in_range(#[trigger] s[j], a);
            if j < s.len() - 1 {
                assert(in_range(t[j], a));
            }
        }
        assert forall|a: int| covered(t, a) implies #[trigger] covered(s, a) by {
            let j = choose|j: int| 0 <= j < t.len() && in_range(#[trigger] t[j], a);
            assert(in_range(s[j], a));
        }
        assert(covered_set(s) =~= covered_set(t) + iv);
        // Separation makes the two parts disjoint.
        assert forall|a: int| #[trigger] covered_set(t).contains(a) implies !iv.contains(a) by {
            if in_range(last, a) {
                let j = choose|j: int| 0 <= j < t.len() && in_range(#[trigger] t[j], a);
                assert(sep(s[j], s[s.len() - 1]));
            }
        }
        assert(covered_set(t).disjoint(iv));
        vstd::set_lib::lemma_set_disjoint_lens(covered_set(t), iv);
    }
}

/// With valid entries, the sum over a prefix never exceeds the whole sum.
proof fn lemma_sum_take_bound(s: Seq<Range>, n: int)
    requires
        0 <= n <= s.len(),
        forall|i: int| 0 <= i < s.len() ==> range_wf(#[trigger] s[i]),
    ensures
        sum_of(s.take(n)) <= sum_of(s),
    decreases s.len() - n,
{
    if n == s.len() {
        assert(s.take(n) =~= s);
    } else {
        lemma_sum_take_bound(s, n + 1);
        assert(s.take(n + 1).drop_last() =~= s.take(n));
        assert(s.take(n + 1).last() == s[n]);
    }
}

/// One range lies strictly inside another, away from both ends.
pub open spec fn strict_inside(outer: Range, inner: Range) -> bool {
    outer.start < inner.start && inner.end < outer.end
}

/// Two ranges overlap in at least one address.
pub open spec fn overlapping(a: Range, b: Range) -> bool {
    a.start <= b.end && b.start <= a.end
}

/// Appending a range extends the covered addresses by exactly that range.
proof fn lemma_covered_push(s: Seq<Range>, r: Range)
    ensures
        forall|a: int| #[trigger] covered(s.push(r), a) <==> covered(s, a) || in_range(r, a),
{
    let t = s.push(r);
    assert forall|a: int| #[trigger] covered(t, a) implies covered(s, a) || in_range(r, a) by {
        let j = choose|j: int| 0 <= j < t.len() && in_range(#[trigger] t[j], a);
        if j < s.len() {
            assert(in_range(s[j], a));
        } else {
            assert(t[j] == r);
        }
    }
    assert forall|a: int| covered(s, a) || in_range(r, a) implies #[trigger] covered(t, a) by {
        if covered(s, a) {
            let j = choose|j: int| 0 <= j < s.len() && in_range(#[trigger] s[j], a);
            assert(in_range(t[j], a));
        } else {
            assert(in_range(t[s.len() as int], a));
        }
    }
}

/// Updating the entry at `i` removes at most that entry's addresses from
/// the cover and adds at most the new range's addresses.
proof fn lemma_covered_update(s: Seq<Range>, i: int, r: Range)
    requires
        0 <= i < s.len(),
    ensures
        forall|a: int| #[trigger] covered(s.update(i, r), a) ==> covered(s, a) || in_range(r, a),
        forall|a: int| #[trigger] covered(s, a) ==> covered(s.update(i, r), a) || in_range(s[i], a),
{
    let t = s.update(i, r);
    assert forall|a: int| #[trigger] covered(t, a) implies covered(s, a) || in_range(r, a) by {
        let j = choose|j: int| 0 <= j < t.len() && in_range(#[trigger] t[j], a);
        if j != i {
            assert(in_range(s[j], a));
        }
    }
    assert forall|a: int| #[trigger] covered(s, a) implies covered(t, a) || in_range(s[i], a) by {
        let j = choose|j: int| 0 <= j < s.len() && in_range(#[trigger] s[j], a);
        if j != i {
            assert(in_range(t[j], a));
        }
    }
}

/// Shrinking the entry at `i` while keeping every address it covered
/// outside `range` shrinks the cover by addresses of `range` only.
proof fn lemma_trim_cover(prev: Seq<Range>, cur: Seq<Range>, i: int, range: Range)
    requires
        0 <= i < prev.len(),
        cur == prev.update(i, cur[i]),
        prev[i].start <= cur[i].start,
        cur[i].end <= prev[i].end,
        forall|a: int| in_range(prev[i], a) && !in_range(range, a) ==> in_range(cur[i], a),
    ensures
        forall|a: int| #[trigger] covered(cur, a) ==> covered(prev, a),
        forall|a: int| covered(prev, a) && !in_range(range, a) ==> #[trigger] covered(cur, a),
{
    lemma_covered_update(prev, i, cur[i]);
    assert forall|a: int| #[trigger] covered(cur, a) implies covered(prev, a) by {
        if in_range(cur[i], a) {
            assert(in_range(prev[i], a));
        }
    }
    assert forall|a: int| covered(prev, a) && !in_range(range, a) implies #[trigger] covered(cur, a) by {
        if in_range(prev[i], a) {
            assert(in_range(cur[i], a));
        }
    }
}

/// Swap-removing the entry at `i` removes exactly that entry's addresses
/// from the cover (other entries may still cover some of them).
proof fn lemma_covered_swap_remove(s: Seq<Range>, i: int)
    requires
        0 <= i < s.len(),
    ensures
        forall|a: int| #[trigger] covered(s.update(i, s.last()).drop_last(), a) ==> covered(s, a),
        forall|a: int| #[trigger] covered(s, a)
            ==> covered(s.update(i, s.last()).drop_last(), a) || in_range(s[i], a),
{
    let t = s.update(i, s.last()).drop_last();
    assert forall|a: int| #[trigger] covered(t, a) implies covered(s, a) by {
        let j = choose|j: int| 0 <= j < t.len() && in_range(#[trigger] t[j], a);
        if j == i {
            assert(in_range(s[s.len() - 1], a));
        } else {
            assert(in_range(s[j], a));
        }
    }
    assert forall|a: int| #[trigger] covered(s, a) implies covered(t, a) || in_range(s[i], a) by {
        let j = choose|j: int| 0 <= j < s.len() && in_range(#[trigger] s[j], a);
        if j != i {
            if j == s.len() - 1 {
                assert(in_range(t[i], a));
            } else {
                assert(in_range(t[j], a));
            }
        }
    }
}

} // verus!
