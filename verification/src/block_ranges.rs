//! Sets of stored block heights, kept as an ordered list of disjoint,
//! non-adjacent inclusive ranges, and the scheduler that picks the next
//! range of headers to fetch.

use vstd::prelude::*;

verus! {

/// A non-empty inclusive range of block heights.
#[derive(Clone, Copy, Debug, PartialEq, Eq, Structural)]
pub struct BlockRange {
    pub start: u64,
    pub end: u64,
}

impl BlockRange {
    /// A range is well formed when it is non-empty and starts at a valid
    /// block height.
    pub open spec fn wf(self) -> bool {
        1 <= self.start <= self.end
    }

    /// Number of heights the range covers.
    pub open spec fn spec_len(self) -> int {
        self.end - self.start + 1
    }

    pub open spec fn spec_contains(self, h: u64) -> bool {
        self.start <= h <= self.end
    }
}

/// Well-formedness of a list of ranges: each range is non-empty, and the
/// list is ordered with a gap of at least one height between neighbours
/// (adjacent ranges must have been fused).
pub open spec fn ranges_wf(s: Seq<BlockRange>) -> bool {
    &&& forall|i: int| 0 <= i < s.len() ==> (#[trigger] s[i]).wf()
    &&& forall|i: int| 0 < i < s.len() ==> (#[trigger] s[i]).start > s[i - 1].end + 1
}

/// Whether a height is covered by one of the ranges.
pub open spec fn ranges_contain(s: Seq<BlockRange>, h: u64) -> bool {
    exists|i: int| 0 <= i < s.len() && (#[trigger] s[i]).spec_contains(h)
}

/// In a well-formed list, any earlier range ends strictly below where any
/// later range starts, with a gap in between.
pub proof fn lemma_ranges_ordered(s: Seq<BlockRange>, i: int, j: int)
    requires
        ranges_wf(s),
        0 <= i < j < s.len(),
    ensures
        s[i].end + 1 < s[j].start,
    decreases j - i,
{
    if j == i + 1 {
    } else {
        lemma_ranges_ordered(s, i, j - 1);
        assert(s[j].start > s[j - 1].end + 1);
    }
}

/// An ordered set of disjoint, non-adjacent block ranges, as the store
/// reports its coverage.
#[derive(Debug)]
pub struct BlockRanges {
    ranges: Vec<BlockRange>,
}

impl View for BlockRanges {
    type V = Seq<BlockRange>;

    closed spec fn view(&self) -> Seq<BlockRange> {
        self.ranges@
    }
}

impl BlockRanges {
    pub open spec fn wf(&self) -> bool {
        ranges_wf(self@)
    }

    pub open spec fn spec_contains(&self, h: u64) -> bool {
        ranges_contain(self@, h)
    }

    /// The empty set of ranges.
    pub fn new() -> (r: BlockRanges)
        ensures
            r@ == Seq::<BlockRange>::empty(),
            r.wf(),
    {
        BlockRanges { ranges: Vec::new() }
    }

    pub fn is_empty(&self) -> (r: bool)
        ensures
            r == (self@.len() == 0),
    {
        self.ranges.len() == 0
    }

    pub fn len(&self) -> (r: usize)
        ensures
            r == self@.len(),
    {
        self.ranges.len()
    }

    pub fn get(&self, i: usize) -> (r: BlockRange)
        requires
            i < self@.len(),
        ensures
            r == self@[i as int],
    {
        self.ranges[i]
    }

    /// The lowest stored height, if any.
    pub fn tail(&self) -> (r: Option<u64>)
        ensures
            match r {
                Some(t) => self@.len() > 0 && t == self@[0].start,
                None => self@.len() == 0,
            },
    {
        if self.ranges.len() == 0 {
            None
        } else {
            Some(self.ranges[0].start)
        }
    }

    /// The highest stored height, if any.
    pub fn head(&self) -> (r: Option<u64>)
        ensures
            match r {
                Some(t) => self@.len() > 0 && t == self@[self@.len() - 1].end,
                None => self@.len() == 0,
            },
    {
        if self.ranges.len() == 0 {
            None
        } else {
            Some(self.ranges[self.ranges.len() - 1].end)
        }
    }

    pub fn contains(&self, h: u64) -> (r: bool)
        ensures
            r == self.spec_contains(h),
    {
        let mut i: usize = 0;
        while i < self.ranges.len()
            invariant
                i <= self@.len(),
                forall|j: int| 0 <= j < i ==> !(#[trigger] self@[j]).spec_contains(h),
            decreases self@.len() - i,
        {
            if self.ranges[i].start <= h && h <= self.ranges[i].end {
                return true;
            }
            i = i + 1;
        }
        false
    }

    /// An owned copy of this set of ranges.
    pub fn snapshot(&self) -> (r: BlockRanges)
        ensures
            r@ == self@,
    {
        let mut out: Vec<BlockRange> = Vec::new();
        let mut i: usize = 0;
        while i < self.ranges.len()
            invariant
                i <= self@.len(),
                out@ == self@.subrange(0, i as int),
            decreases self@.len() - i,
        {
            out.push(self.ranges[i]);
            i = i + 1;
            assert(out@ =~= self@.subrange(0, i as int));
        }
        assert(out@ =~= self@);
        BlockRanges { ranges: out }
    }

    /// Insert the heights `lo..=hi`, which must be disjoint from every
    /// stored range, fusing with a neighbouring range where the result
    /// would otherwise be adjacent.
    #[verifier::rlimit(50)]
    pub fn insert(&mut self, lo: u64, hi: u64)
        requires
            old(self).wf(),
            1 <= lo <= hi,
            forall|i: int|
                0 <= i < old(self)@.len() ==> ((#[trigger] old(self)@[i]).end < lo || hi < old(
                    self,
                )@[i].start),
        ensures
            final(self).wf(),
            forall|h: u64|
                ranges_contain(final(self)@, h) <==> (ranges_contain(old(self)@, h) || lo <= h
                    <= hi),
    {
        let ghost s0 = self@;
        let n = self.ranges.len();
        let mut idx: usize = 0;
        while idx < n && self.ranges[idx].end < lo
            invariant
                self@ == s0,
                n == s0.len(),
                idx <= n,
                forall|j: int| 0 <= j < idx ==> (#[trigger] s0[j]).end < lo,
            decreases n - idx,
        {
            idx = idx + 1;
        }
        proof {
            // Everything at or after idx starts above hi.
            assert forall|j: int| idx <= j < s0.len() implies (#[trigger] s0[j]).start > hi by {
                if j == idx {
                    assert(s0[j].end >= lo);
                    assert(s0[j].end < lo || hi < s0[j].start);
                } else {
                    lemma_ranges_ordered(s0, idx as int, j);
                    assert(s0[idx as int].end >= lo);
                    assert(s0[j].start > s0[idx as int].end + 1);
                    assert(s0[j].end >= s0[j].start);
                    assert(s0[j].end < lo || hi < s0[j].start);
                }
            }
        }
        let fuse_left = idx > 0 && self.ranges[idx - 1].end + 1 == lo;
        let fuse_right = idx < n && hi + 1 == self.ranges[idx].start;
        if fuse_left && fuse_right {
            let right_end = self.ranges[idx].end;
            let left_start = self.ranges[idx - 1].start;
            self.ranges.set(idx - 1, BlockRange { start: left_start, end: right_end });
            self.ranges.remove(idx);
            proof {
                let s1 = self@;
                assert(s1 =~= s0.update(idx - 1, BlockRange { start: s0[idx - 1].start, end: s0[idx as int].end }).remove(idx as int));
                assert forall|i: int| 0 <= i < s1.len() implies (#[trigger] s1[i]).wf() by {
                    if i < idx - 1 {
                        assert(s1[i] == s0[i]);
                    } else if i == idx - 1 {
                    } else {
                        assert(s1[i] == s0[i + 1]);
                    }
                }
                assert forall|i: int| 0 < i < s1.len() implies (#[trigger] s1[i]).start > s1[i - 1].end + 1 by {
                    if i < idx - 1 {
                        assert(s1[i] == s0[i] && s1[i - 1] == s0[i - 1]);
                    } else if i == idx - 1 {
                        assert(s1[i - 1] == s0[i - 1]);
                        assert(s0[idx - 1].start > s0[idx - 2].end + 1);
                        assert(s0[idx - 1].start == s1[i].start);
                    } else if i == idx {
                        assert(s1[i] == s0[i + 1]);
                        lemma_ranges_ordered(s0, idx as int, idx + 1);
                        assert(s0[i + 1].start > s0[idx as int].end + 1);
                    } else {
                        assert(s1[i] == s0[i + 1] && s1[i - 1] == s0[i]);
                    }
                }
                assert forall|h: u64| ranges_contain(s1, h) <==> (ranges_contain(s0, h) || lo <= h
                    <= hi) by {
                    if ranges_contain(s1, h) {
                        let i = choose|i: int| 0 <= i < s1.len() && (#[trigger] s1[i]).spec_contains(h);
                        if i < idx - 1 {
                            assert(s0[i].spec_contains(h));
                        } else if i == idx - 1 {
                            if h < lo {
                                assert(s0[idx - 1].spec_contains(h));
                            } else if h > hi {
                                assert(s0[idx as int].spec_contains(h));
                            }
                        } else {
                            assert(s0[i + 1].spec_contains(h));
                        }
                    }
                    if ranges_contain(s0, h) {
                        let i = choose|i: int| 0 <= i < s0.len() && (#[trigger] s0[i]).spec_contains(h);
                        if i < idx - 1 {
                            assert(s1[i].spec_contains(h));
                        } else if i == idx - 1 || i == idx {
                            assert(s1[idx - 1].spec_contains(h));
                        } else {
                            assert(s1[i - 1] == s0[i]);
                            assert(s1[i - 1].spec_contains(h));
                        }
                    }
                    if lo <= h <= hi {
                        assert(s1[idx - 1].spec_contains(h));
                    }
                }
            }
        } else if fuse_left {
            let left_start = self.ranges[idx - 1].start;
            self.ranges.set(idx - 1, BlockRange { start: left_start, end: hi });
            proof {
                let s1 = self@;
                assert forall|h: u64| ranges_contain(s1, h) <==> (ranges_contain(s0, h) || lo <= h
                    <= hi) by {
                    if ranges_contain(s1, h) {
                        let i = choose|i: int| 0 <= i < s1.len() && (#[trigger] s1[i]).spec_contains(h);
                        if i == idx - 1 {
                            if h < lo {
                                assert(s0[idx - 1].spec_contains(h));
                            }
                        } else {
                            assert(s0[i].spec_contains(h));
                        }
                    }
                    if ranges_contain(s0, h) {
                        let i = choose|i: int| 0 <= i < s0.len() && (#[trigger] s0[i]).spec_contains(h);
                        if i == idx - 1 {
                            assert(s1[idx - 1].spec_contains(h));
                        } else {
                            assert(s1[i].spec_contains(h));
                        }
                    }
                    if lo <= h <= hi {
                        assert(s1[idx - 1].spec_contains(h));
                    }
                }
            }
        } else if fuse_right {
            let right_end = self.ranges[idx].end;
            self.ranges.set(idx, BlockRange { start: lo, end: right_end });
            proof {
                let s1 = self@;
                assert forall|i: int| 0 < i < s1.len() implies (#[trigger] s1[i]).start > s1[i - 1].end + 1 by {
                    if i == idx {
                        assert(s1[i - 1] == s0[i - 1]);
                        assert(s0[i - 1].end < lo);
                    } else if i == idx + 1 {
                        assert(s1[i] == s0[i]);
                        assert(s0[i].start > s0[idx as int].end + 1);
                    } else {
                        assert(s1[i] == s0[i] && s1[i - 1] == s0[i - 1]);
                    }
                }
                assert forall|h: u64| ranges_contain(s1, h) <==> (ranges_contain(s0, h) || lo <= h
                    <= hi) by {
                    if ranges_contain(s1, h) {
                        let i = choose|i: int| 0 <= i < s1.len() && (#[trigger] s1[i]).spec_contains(h);
                        if i == idx {
                            if h > hi {
                                assert(s0[idx as int].spec_contains(h));
                            }
                        } else {
                            assert(s0[i].spec_contains(h));
                        }
                    }
                    if ranges_contain(s0, h) {
                        let i = choose|i: int| 0 <= i < s0.len() && (#[trigger] s0[i]).spec_contains(h);
                        if i == idx {
                            assert(s1[idx as int].spec_contains(h));
                        } else {
                            assert(s1[i].spec_contains(h));
                        }
                    }
                    if lo <= h <= hi {
                        assert(s1[idx as int].spec_contains(h));
                    }
                }
            }
        } else {
            self.ranges.insert(idx, BlockRange { start: lo, end: hi });
            proof {
                let s1 = self@;
                assert(s1 =~= s0.insert(idx as int, BlockRange { start: lo, end: hi }));
                assert forall|i: int| 0 < i < s1.len() implies (#[trigger] s1[i]).start > s1[i - 1].end + 1 by {
                    if i < idx {
                        assert(s1[i] == s0[i] && s1[i - 1] == s0[i - 1]);
                    } else if i == idx {
                        assert(s1[i - 1] == s0[i - 1]);
                        assert(s0[i - 1].end < lo);
                        assert(!(idx > 0 && s0[idx - 1].end + 1 == lo));
                    } else if i == idx + 1 {
                        assert(s1[i] == s0[i - 1]);
                        assert(s0[idx as int].start > hi);
                        assert(!(idx < s0.len() && hi + 1 == s0[idx as int].start));
                    } else {
                        assert(s1[i] == s0[i - 1] && s1[i - 1] == s0[i - 2]);
                    }
                }
                assert forall|h: u64| ranges_contain(s1, h) <==> (ranges_contain(s0, h) || lo <= h
                    <= hi) by {
                    if ranges_contain(s1, h) {
                        let i = choose|i: int| 0 <= i < s1.len() && (#[trigger] s1[i]).spec_contains(h);
                        if i < idx {
                            assert(s0[i].spec_contains(h));
                        } else if i > idx {
                            assert(s1[i] == s0[i - 1]);
                            assert(s0[i - 1].spec_contains(h));
                        }
                    }
                    if ranges_contain(s0, h) {
                        let i = choose|i: int| 0 <= i < s0.len() && (#[trigger] s0[i]).spec_contains(h);
                        if i < idx {
                            assert(s1[i].spec_contains(h));
                        } else {
                            assert(s1[i + 1] == s0[i]);
                            assert(s1[i + 1].spec_contains(h));
                        }
                    }
                    if lo <= h <= hi {
                        assert(s1[idx as int].spec_contains(h));
                    }
                }
            }
        }
    }

    /// Remove the lowest stored height, returning it.
    pub fn pop_tail(&mut self) -> (t: u64)
        requires
            old(self).wf(),
            old(self)@.len() > 0,
        ensures
            final(self).wf(),
            t == old(self)@[0].start,
            forall|h: u64|
                ranges_contain(final(self)@, h) <==> (ranges_contain(old(self)@, h) && h != t),
    {
        let ghost s0 = self@;
        let t = self.ranges[0].start;
        if self.ranges[0].start == self.ranges[0].end {
            self.ranges.remove(0);
            proof {
                let s1 = self@;
                assert forall|h: u64| ranges_contain(s1, h) <==> (ranges_contain(s0, h) && h != t) by {
                    if ranges_contain(s1, h) {
                        let i = choose|i: int| 0 <= i < s1.len() && (#[trigger] s1[i]).spec_contains(h);
                        assert(s1[i] == s0[i + 1]);
                        assert(s0[i + 1].spec_contains(h));
                        lemma_ranges_ordered(s0, 0, i + 1);
                    }
                    if ranges_contain(s0, h) && h != t {
                        let i = choose|i: int| 0 <= i < s0.len() && (#[trigger] s0[i]).spec_contains(h);
                        assert(i != 0);
                        assert(s1[i - 1] == s0[i]);
                        assert(s1[i - 1].spec_contains(h));
                    }
                }
            }
            t
        } else {
            let e = self.ranges[0].end;
            self.ranges.set(0, BlockRange { start: t + 1, end: e });
            proof {
                let s1 = self@;
                assert forall|h: u64| ranges_contain(s1, h) <==> (ranges_contain(s0, h) && h != t) by {
                    if ranges_contain(s1, h) {
                        let i = choose|i: int| 0 <= i < s1.len() && (#[trigger] s1[i]).spec_contains(h);
                        if i == 0 {
                            assert(s0[0].spec_contains(h));
                        } else {
                            assert(s1[i] == s0[i]);
                            assert(s0[i].spec_contains(h));
                            lemma_ranges_ordered(s0, 0, i);
                        }
                    }
                    if ranges_contain(s0, h) && h != t {
                        let i = choose|i: int| 0 <= i < s0.len() && (#[trigger] s0[i]).spec_contains(h);
                        if i == 0 {
                            assert(s1[0].spec_contains(h));
                        } else {
                            assert(s1[i].spec_contains(h));
                        }
                    }
                }
            }
            t
        }
    }
}

/// The highest maximal run of heights in `[1, hi]` not covered by the
/// ranges `s`, walking ranges from the highest down. `None` means every
/// height in `[1, hi]` is covered (or the interval is empty).
pub open spec fn highest_gap_rec(s: Seq<BlockRange>, hi: int) -> Option<(int, int)>
    decreases s.len(),
{
    if hi < 1 {
        None
    } else if s.len() == 0 {
        Some((1, hi))
    } else {
        let r = s[s.len() - 1];
        if r.start > hi {
            highest_gap_rec(s.drop_last(), hi)
        } else if r.end >= hi {
            if r.start == 1 {
                None
            } else {
                highest_gap_rec(s.drop_last(), r.start - 1)
            }
        } else {
            Some((r.end + 1, hi))
        }
    }
}

/// What [`highest_gap_rec`] finds, stated over coverage: either everything
/// up to `hi` is covered, or the result is the topmost uncovered run.
pub proof fn lemma_highest_gap(s: Seq<BlockRange>, hi: int)
    requires
        ranges_wf(s),
    ensures
        match highest_gap_rec(s, hi) {
            None => forall|h: u64| 1 <= h <= hi ==> ranges_contain(s, h),
            Some(p) => {
                &&& 1 <= p.0 <= p.1 <= hi
                &&& forall|h: u64| p.0 <= h <= p.1 ==> !ranges_contain(s, h)
                &&& forall|h: u64| p.1 < h <= hi ==> ranges_contain(s, h)
            },
        },
    decreases s.len(),
{
    if hi < 1 {
    } else if s.len() == 0 {
        assert forall|h: u64| 1 <= h <= hi implies !ranges_contain(s, h) by {}
    } else {
        let r = s[s.len() - 1];
        let prefix = s.drop_last();
        assert(ranges_wf(prefix)) by {
            assert(forall|i: int| 0 <= i < prefix.len() ==> prefix[i] == s[i]);
        }
        // A height contained in `s` is contained in the prefix or in `r`.
        assert forall|h: u64| ranges_contain(s, h) implies (ranges_contain(prefix, h)
            || r.spec_contains(h)) by {
            let i = choose|i: int| 0 <= i < s.len() && (#[trigger] s[i]).spec_contains(h);
            if i < s.len() - 1 {
                assert(prefix[i].spec_contains(h));
            }
        }
        assert forall|h: u64| ranges_contain(prefix, h) implies ranges_contain(s, h) by {
            let i = choose|i: int| 0 <= i < prefix.len() && (#[trigger] prefix[i]).spec_contains(h);
            assert(s[i].spec_contains(h));
        }
        if r.start > hi {
            lemma_highest_gap(prefix, hi);
        } else if r.end >= hi {
            if r.start == 1 {
                assert forall|h: u64| 1 <= h <= hi implies ranges_contain(s, h) by {
                    assert(r.spec_contains(h));
                    assert(s[s.len() - 1].spec_contains(h));
                }
            } else {
                lemma_highest_gap(prefix, r.start - 1);
                assert forall|h: u64| r.start <= h <= hi implies ranges_contain(s, h) by {
                    assert(s[s.len() - 1].spec_contains(h));
                }
            }
        } else {
            // Gap on top: nothing covers heights above the last range.
            assert forall|h: u64| r.end + 1 <= h <= hi implies !ranges_contain(s, h) by {
                if ranges_contain(s, h) {
                    let i = choose|i: int| 0 <= i < s.len() && (#[trigger] s[i]).spec_contains(h);
                    if i < s.len() - 1 {
                        lemma_ranges_ordered(s, i, s.len() - 1);
                    }
                }
            }
        }
    }
}

/// Exact result of the batch scheduler: take the highest uncovered run
/// below the subjective head, never reach at or below a height proven to
/// be outside the syncing window, and clip the batch to `limit` heights,
/// keeping the upper end.
pub open spec fn spec_calculate_range_to_fetch(
    subjective_head: u64,
    s: Seq<BlockRange>,
    syncing_window_end: Option<u64>,
    limit: u64,
) -> Option<BlockRange> {
    match highest_gap_rec(s, subjective_head as int) {
        None => None,
        Some(p) => {
            let lo1: int = match syncing_window_end {
                Some(w) => if w + 1 > p.0 {
                    w + 1
                } else {
                    p.0
                },
                None => p.0,
            };
            if lo1 > p.1 {
                None
            } else {
                let lo2: int = if p.1 - limit + 1 > lo1 {
                    p.1 - limit + 1
                } else {
                    lo1
                };
                Some(BlockRange { start: lo2 as u64, end: p.1 as u64 })
            }
        },
    }
}

fn gap_search(ranges: &BlockRanges, i: usize, hi: u64) -> (g: Option<(u64, u64)>)
    requires
        ranges.wf(),
        i <= ranges@.len(),
    ensures
        match highest_gap_rec(ranges@.take(i as int), hi as int) {
            None => g is None,
            Some(p) => g == Some((p.0 as u64, p.1 as u64)),
        },
    decreases i,
{
    let ghost pre = ranges@.take(i as int);
    proof {
        assert(ranges_wf(pre)) by {
            assert(forall|k: int| 0 <= k < pre.len() ==> pre[k] == ranges@[k]);
        }
        lemma_highest_gap(pre, hi as int);
    }
    if hi < 1 {
        None
    } else if i == 0 {
        Some((1, hi))
    } else {
        let r = ranges.get(i - 1);
        proof {
            assert(pre[pre.len() - 1] == r);
            assert(pre.drop_last() =~= ranges@.take(i - 1));
        }
        if r.start > hi {
            gap_search(ranges, i - 1, hi)
        } else if r.end >= hi {
            if r.start == 1 {
                None
            } else {
                gap_search(ranges, i - 1, r.start - 1)
            }
        } else {
            Some((r.end + 1, hi))
        }
    }
}

/// Pick the next batch of headers the syncer should fetch: the topmost
/// `limit` heights of the highest gap between the stored ranges and the
/// subjective head, stopping short of any height at or below
/// `syncing_window_end`. `None` means there is nothing left to fetch.
pub fn calculate_range_to_fetch(
    subjective_head: u64,
    store_ranges: &BlockRanges,
    syncing_window_end: Option<u64>,
    limit: u64,
) -> (r: Option<BlockRange>)
    requires
        store_ranges.wf(),
        limit >= 1,
    ensures
        r == spec_calculate_range_to_fetch(subjective_head, store_ranges@, syncing_window_end, limit),
        match r {
            Some(b) => {
                &&& b.wf()
                &&& b.end <= subjective_head
                &&& b.spec_len() <= limit
                &&& forall|h: u64| b.start <= h <= b.end ==> !store_ranges.spec_contains(h)
                &&& forall|h: u64| b.end < h <= subjective_head ==> store_ranges.spec_contains(h)
                &&& match syncing_window_end {
                    Some(w) => b.start > w,
                    None => true,
                }
            },
            None => true,
        },
{
    proof {
        assert(store_ranges@.take(store_ranges@.len() as int) =~= store_ranges@);
        lemma_highest_gap(store_ranges@, subjective_head as int);
    }
    let gap = gap_search(store_ranges, store_ranges.len(), subjective_head);
    match gap {
        None => None,
        Some((gap_lo, gap_hi)) => {
            let lo1: u64 = match syncing_window_end {
                Some(w) => {
                    if w >= gap_hi {
                        return None;
                    }
                    if w + 1 > gap_lo {
                        w + 1
                    } else {
                        gap_lo
                    }
                },
                None => gap_lo,
            };
            let lo2: u64 = if gap_hi - lo1 + 1 > limit {
                gap_hi - limit + 1
            } else {
                lo1
            };
            Some(BlockRange { start: lo2, end: gap_hi })
        },
    }
}

} // verus!
