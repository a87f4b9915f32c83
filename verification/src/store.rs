//! In-memory header store: headers indexed by height and hash, coverage
//! reported as block ranges, tail removal for the pruner, and sampling
//! metadata rows keyed by height.

use vstd::prelude::*;

use crate::block_ranges::{BlockRange, BlockRanges};
use crate::bytes::{bytes_eq, copy_bytes};
use crate::header::{Header, HeaderView};

verus! {

/// Errors of the store.
#[derive(Debug)]
pub enum StoreError {
    /// The queried header (or the head of an empty store) does not exist.
    NotFound,
    /// A header with this height is already stored.
    HeightExists(u64),
    /// A header with this hash is already stored.
    HashExists(Vec<u8>),
    /// The inserted batch neither extends the stored heights from above
    /// nor closes a gap right below a stored range (head, attempted start).
    NonContinuousAppend(u64, u64),
}

/// Sampling metadata for one height: the content identifiers of the block
/// data that was sampled, as raw bytes.
pub struct SamplingMetadata {
    pub cids: Vec<Vec<u8>>,
}

pub open spec fn cids_view(cids: Seq<Vec<u8>>) -> Seq<Seq<u8>> {
    cids.map_values(|c: Vec<u8>| c@)
}

/// A table of sampling rows has unique height keys.
pub open spec fn rows_unique(sv: Seq<(u64, Seq<Seq<u8>>)>) -> bool {
    forall|i: int, j: int| 0 <= i < j < sv.len() ==> (#[trigger] sv[i]).0 != (#[trigger] sv[j]).0
}

pub open spec fn row_key_exists(sv: Seq<(u64, Seq<Seq<u8>>)>, h: u64) -> bool {
    exists|i: int| 0 <= i < sv.len() && (#[trigger] sv[i]).0 == h
}

/// The row stored under a height key, if any.
pub open spec fn row_at(sv: Seq<(u64, Seq<Seq<u8>>)>, h: u64) -> Option<Seq<Seq<u8>>> {
    if row_key_exists(sv, h) {
        Some(sv[choose|i: int| 0 <= i < sv.len() && (#[trigger] sv[i]).0 == h].1)
    } else {
        None
    }
}

/// With unique keys, `row_at` returns the row at any index carrying the key.
proof fn lemma_row_at_index(sv: Seq<(u64, Seq<Seq<u8>>)>, i: int)
    requires
        rows_unique(sv),
        0 <= i < sv.len(),
    ensures
        row_at(sv, sv[i].0) == Some(sv[i].1),
{
    let h = sv[i].0;
    assert(row_key_exists(sv, h));
    let q = choose|q: int| 0 <= q < sv.len() && (#[trigger] sv[q]).0 == h;
    assert(!(q < i) && !(i < q));
}

/// Removing one row leaves every other key's row unchanged and drops the
/// removed key.
proof fn lemma_row_at_remove(sv: Seq<(u64, Seq<Seq<u8>>)>, p: int)
    requires
        rows_unique(sv),
        0 <= p < sv.len(),
    ensures
        rows_unique(sv.remove(p)),
        forall|h: u64| h != sv[p].0 ==> row_at(sv.remove(p), h) == row_at(sv, h),
        row_at(sv.remove(p), sv[p].0) is None,
{
    let sr = sv.remove(p);
    assert forall|i: int, j: int|
        0 <= i < j < sr.len() implies (#[trigger] sr[i]).0 != (#[trigger] sr[j]).0 by {
        let oi: int = if i < p {
            i
        } else {
            i + 1
        };
        let oj: int = if j < p {
            j
        } else {
            j + 1
        };
        assert(sr[i] == sv[oi] && sr[j] == sv[oj]);
    }
    assert forall|h: u64| h != sv[p].0 implies row_at(sr, h) == row_at(sv, h) by {
        if row_key_exists(sv, h) {
            let q = choose|q: int| 0 <= q < sv.len() && (#[trigger] sv[q]).0 == h;
            lemma_row_at_index(sv, q);
            let q1: int = if q < p {
                q
            } else {
                q - 1
            };
            assert(sr[q1] == sv[q]);
            lemma_row_at_index(sr, q1);
        } else {
            if row_key_exists(sr, h) {
                let q = choose|q: int| 0 <= q < sr.len() && (#[trigger] sr[q]).0 == h;
                let o: int = if q < p {
                    q
                } else {
                    q + 1
                };
                assert(sr[q] == sv[o]);
            }
        }
    }
    if row_key_exists(sr, sv[p].0) {
        let q = choose|q: int| 0 <= q < sr.len() && (#[trigger] sr[q]).0 == sv[p].0;
        let o: int = if q < p {
            q
        } else {
            q + 1
        };
        assert(sr[q] == sv[o]);
        assert(o != p);
        if o < p {
            assert(sv[o].0 != sv[p].0);
        } else {
            assert(sv[p].0 != sv[o].0);
        }
    }
}

/// Replacing the row at a key leaves every other key's row unchanged.
proof fn lemma_row_at_update(sv: Seq<(u64, Seq<Seq<u8>>)>, p: int, e: (u64, Seq<Seq<u8>>))
    requires
        rows_unique(sv),
        0 <= p < sv.len(),
        sv[p].0 == e.0,
    ensures
        rows_unique(sv.update(p, e)),
        row_at(sv.update(p, e), e.0) == Some(e.1),
        forall|h: u64| h != e.0 ==> row_at(sv.update(p, e), h) == row_at(sv, h),
{
    let su = sv.update(p, e);
    assert forall|i: int, j: int|
        0 <= i < j < su.len() implies (#[trigger] su[i]).0 != (#[trigger] su[j]).0 by {
        if i != p {
            assert(su[i] == sv[i]);
        }
        if j != p {
            assert(su[j] == sv[j]);
        }
    }
    lemma_row_at_index(su, p);
    assert forall|h: u64| h != e.0 implies row_at(su, h) == row_at(sv, h) by {
        if row_key_exists(sv, h) {
            let q = choose|q: int| 0 <= q < sv.len() && (#[trigger] sv[q]).0 == h;
            lemma_row_at_index(sv, q);
            assert(q != p);
            assert(su[q] == sv[q]);
            lemma_row_at_index(su, q);
        } else {
            if row_key_exists(su, h) {
                let q = choose|q: int| 0 <= q < su.len() && (#[trigger] su[q]).0 == h;
                assert(q != p);
                assert(su[q] == sv[q]);
            }
        }
    }
}

/// Appending a row with a fresh key leaves every other key's row unchanged.
proof fn lemma_row_at_push(sv: Seq<(u64, Seq<Seq<u8>>)>, e: (u64, Seq<Seq<u8>>))
    requires
        rows_unique(sv),
        !row_key_exists(sv, e.0),
    ensures
        rows_unique(sv.push(e)),
        row_at(sv.push(e), e.0) == Some(e.1),
        forall|h: u64| h != e.0 ==> row_at(sv.push(e), h) == row_at(sv, h),
{
    let su = sv.push(e);
    let n = sv.len() as int;
    assert forall|i: int, j: int|
        0 <= i < j < su.len() implies (#[trigger] su[i]).0 != (#[trigger] su[j]).0 by {
        if j < n {
            assert(su[i] == sv[i] && su[j] == sv[j]);
        } else {
            assert(su[i] == sv[i] && su[j] == e);
        }
    }
    assert(su[n] == e);
    lemma_row_at_index(su, n);
    assert forall|h: u64| h != e.0 implies row_at(su, h) == row_at(sv, h) by {
        if row_key_exists(sv, h) {
            let q = choose|q: int| 0 <= q < sv.len() && (#[trigger] sv[q]).0 == h;
            lemma_row_at_index(sv, q);
            assert(su[q] == sv[q]);
            lemma_row_at_index(su, q);
        } else {
            if row_key_exists(su, h) {
                let q = choose|q: int| 0 <= q < su.len() && (#[trigger] su[q]).0 == h;
                assert(q != n);
                assert(su[q] == sv[q]);
            }
        }
    }
}

/// A batch of headers is contiguous when each header's height is the
/// predecessor's plus one.
pub open spec fn batch_contiguous(b: Seq<HeaderView>) -> bool {
    forall|i: int| 0 < i < b.len() ==> (#[trigger] b[i]).height == b[i - 1].height + 1
}

/// The in-memory header store.
pub struct Store {
    headers: Vec<Header>,
    ranges: BlockRanges,
    sampling: Vec<(u64, SamplingMetadata)>,
}

impl Store {
    /// The stored headers, ordered by ascending height.
    pub closed spec fn headers_view(self) -> Seq<HeaderView> {
        self.headers@.map_values(|h: Header| h@)
    }

    pub closed spec fn sampling_view(self) -> Seq<(u64, Seq<Seq<u8>>)> {
        self.sampling@.map_values(|e: (u64, SamplingMetadata)| (e.0, cids_view(e.1.cids@)))
    }

    /// The range summary the store maintains.
    pub closed spec fn ranges_view(self) -> Seq<BlockRange> {
        self.ranges@
    }

    pub open spec fn spec_has_height(self, h: u64) -> bool {
        exists|i: int|
            0 <= i < self.headers_view().len() && (#[trigger] self.headers_view()[i]).height == h
    }

    pub open spec fn spec_has_hash(self, hs: Seq<u8>) -> bool {
        exists|i: int|
            0 <= i < self.headers_view().len() && (#[trigger] self.headers_view()[i]).hash == hs
    }

    pub open spec fn spec_index_of(self, h: u64) -> int {
        choose|i: int|
            0 <= i < self.headers_view().len() && (#[trigger] self.headers_view()[i]).height == h
    }

    /// The stored header at a given height.
    pub open spec fn lookup(self, h: u64) -> HeaderView
        recommends
            self.spec_has_height(h),
    {
        self.headers_view()[self.spec_index_of(h)]
    }

    /// The stored header at a given hash.
    pub open spec fn lookup_hash(self, hs: Seq<u8>) -> HeaderView
        recommends
            self.spec_has_hash(hs),
    {
        self.headers_view()[choose|i: int|
            0 <= i < self.headers_view().len() && (#[trigger] self.headers_view()[i]).hash == hs]
    }

    /// Highest stored height; 0 when the store is empty.
    pub open spec fn spec_head_height(self) -> u64 {
        if self.headers_view().len() == 0 {
            0
        } else {
            self.headers_view().last().height
        }
    }

    /// Sampling metadata recorded for a height, if any.
    pub open spec fn metadata_at(self, h: u64) -> Option<Seq<Seq<u8>>> {
        row_at(self.sampling_view(), h)
    }

    /// Store invariant: headers are well formed and strictly ordered by
    /// height, hashes are unique, the range summary covers exactly the
    /// stored heights, and sampling metadata rows are unique per height and
    /// only exist for stored heights.
    pub open spec fn wf(self) -> bool {
        &&& forall|i: int|
            0 <= i < self.headers_view().len() ==> (#[trigger] self.headers_view()[i]).wf()
        &&& forall|i: int|
            0 < i < self.headers_view().len() ==> (#[trigger] self.headers_view()[i]).height
                > self.headers_view()[i - 1].height
        &&& forall|i: int, j: int|
            0 <= i < j < self.headers_view().len() ==> (#[trigger] self.headers_view()[i]).hash != (
            #[trigger] self.headers_view()[j]).hash
        &&& crate::block_ranges::ranges_wf(self.ranges_view())
        &&& forall|h: u64|
            crate::block_ranges::ranges_contain(self.ranges_view(), h) <==> self.spec_has_height(h)
        &&& forall|i: int|
            0 <= i < self.sampling_view().len() ==> self.spec_has_height(
                (#[trigger] self.sampling_view()[i]).0,
            )
        &&& rows_unique(self.sampling_view())
    }

    /// Heights grow strictly with the index.
    pub proof fn lemma_heights_ordered(self, i: int, j: int)
        requires
            self.wf(),
            0 <= i < j < self.headers_view().len(),
        ensures
            self.headers_view()[i].height < self.headers_view()[j].height,
        decreases j - i,
    {
        if j == i + 1 {
        } else {
            self.lemma_heights_ordered(i, j - 1);
        }
    }

    /// Each height appears at most once, so `lookup` returns the header at
    /// any index that carries its height.
    pub proof fn lemma_lookup_at(self, i: int)
        requires
            self.wf(),
            0 <= i < self.headers_view().len(),
        ensures
            self.spec_has_height(self.headers_view()[i].height),
            self.lookup(self.headers_view()[i].height) == self.headers_view()[i],
            self.spec_index_of(self.headers_view()[i].height) == i,
    {
        let h = self.headers_view()[i].height;
        assert(self.spec_has_height(h));
        let j = self.spec_index_of(h);
        if i < j {
            self.lemma_heights_ordered(i, j);
        } else if j < i {
            self.lemma_heights_ordered(j, i);
        }
    }

    /// A fresh, empty store.
    pub fn new() -> (r: Store)
        ensures
            r.wf(),
            r.headers_view() == Seq::<HeaderView>::empty(),
            r.sampling_view() == Seq::<(u64, Seq<Seq<u8>>)>::empty(),
    {
        let r = Store { headers: Vec::new(), ranges: BlockRanges::new(), sampling: Vec::new() };
        proof {
            assert(r.headers_view() =~= Seq::<HeaderView>::empty());
            assert(r.sampling_view() =~= Seq::<(u64, Seq<Seq<u8>>)>::empty());
        }
        r
    }

    /// Height of the highest stored header.
    pub fn head_height(&self) -> (r: Result<u64, StoreError>)
        requires
            self.wf(),
        ensures
            match r {
                Ok(h) => self.headers_view().len() > 0 && h == self.spec_head_height(),
                Err(e) => self.headers_view().len() == 0 && (e matches StoreError::NotFound),
            },
    {
        if self.headers.len() == 0 {
            Err(StoreError::NotFound)
        } else {
            Ok(self.headers[self.headers.len() - 1].height())
        }
    }

    /// The highest stored header.
    pub fn get_head(&self) -> (r: Result<Header, StoreError>)
        requires
            self.wf(),
        ensures
            match r {
                Ok(h) => self.headers_view().len() > 0 && h@ == self.headers_view().last(),
                Err(e) => self.headers_view().len() == 0 && (e matches StoreError::NotFound),
            },
    {
        if self.headers.len() == 0 {
            Err(StoreError::NotFound)
        } else {
            Ok(self.headers[self.headers.len() - 1].dup())
        }
    }

    /// Whether a header with this height is stored.
    pub fn has_at(&self, height: u64) -> (r: bool)
        requires
            self.wf(),
        ensures
            r == self.spec_has_height(height),
    {
        let mut i: usize = 0;
        while i < self.headers.len()
            invariant
                i <= self.headers_view().len(),
                forall|j: int| 0 <= j < i ==> (#[trigger] self.headers_view()[j]).height != height,
            decreases self.headers_view().len() - i,
        {
            if self.headers[i].height() == height {
                assert(self.headers_view()[i as int].height == height);
                return true;
            }
            i = i + 1;
        }
        false
    }

    /// Whether a header with this hash is stored.
    pub fn has(&self, hash: &Vec<u8>) -> (r: bool)
        requires
            self.wf(),
        ensures
            r == self.spec_has_hash(hash@),
    {
        let mut i: usize = 0;
        while i < self.headers.len()
            invariant
                i <= self.headers_view().len(),
                forall|j: int| 0 <= j < i ==> (#[trigger] self.headers_view()[j]).hash != hash@,
            decreases self.headers_view().len() - i,
        {
            if bytes_eq(self.headers[i].hash(), hash) {
                assert(self.headers_view()[i as int].hash == hash@);
                return true;
            }
            i = i + 1;
        }
        false
    }

    /// The stored header with the given height.
    pub fn get_by_height(&self, height: u64) -> (r: Result<Header, StoreError>)
        requires
            self.wf(),
        ensures
            match r {
                Ok(h) => self.spec_has_height(height) && h@ == self.lookup(height),
                Err(e) => !self.spec_has_height(height) && (e matches StoreError::NotFound),
            },
    {
        let mut i: usize = 0;
        while i < self.headers.len()
            invariant
                self.wf(),
                i <= self.headers_view().len(),
                forall|j: int| 0 <= j < i ==> (#[trigger] self.headers_view()[j]).height != height,
            decreases self.headers_view().len() - i,
        {
            if self.headers[i].height() == height {
                proof {
                    self.lemma_lookup_at(i as int);
                }
                return Ok(self.headers[i].dup());
            }
            i = i + 1;
        }
        Err(StoreError::NotFound)
    }

    /// The stored header with the given hash.
    pub fn get_by_hash(&self, hash: &Vec<u8>) -> (r: Result<Header, StoreError>)
        requires
            self.wf(),
        ensures
            match r {
                Ok(h) => self.spec_has_hash(hash@) && h@ == self.lookup_hash(hash@),
                Err(e) => !self.spec_has_hash(hash@) && (e matches StoreError::NotFound),
            },
    {
        let mut i: usize = 0;
        while i < self.headers.len()
            invariant
                self.wf(),
                i <= self.headers_view().len(),
                forall|j: int| 0 <= j < i ==> (#[trigger] self.headers_view()[j]).hash != hash@,
            decreases self.headers_view().len() - i,
        {
            if bytes_eq(self.headers[i].hash(), hash) {
                proof {
                    assert(self.headers_view()[i as int].hash == hash@);
                    let j = choose|j: int|
                        0 <= j < self.headers_view().len() && (#[trigger] self.headers_view()[j]).hash
                            == hash@;
                    assert(!(i < j) && !(j < i as int));
                }
                return Ok(self.headers[i].dup());
            }
            i = i + 1;
        }
        Err(StoreError::NotFound)
    }

    /// A snapshot of the ranges of stored heights.
    pub fn stored_header_ranges(&self) -> (r: BlockRanges)
        requires
            self.wf(),
        ensures
            r@ == self.ranges_view(),
            r.wf(),
            forall|h: u64| r.spec_contains(h) <==> self.spec_has_height(h),
    {
        self.ranges.snapshot()
    }

    /// Conditions under which a batch of headers is accepted: the batch is
    /// contiguous, it either lies strictly above every stored height or
    /// ends right below a stored header, and none of its heights or hashes
    /// is already present (or repeated inside the batch).
    pub open spec fn insert_acceptable(self, b: Seq<HeaderView>) -> bool {
        &&& batch_contiguous(b)
        &&& (b.len() > 0 ==> {
            let lo = b[0].height;
            let hi = b[b.len() - 1].height;
            &&& (lo > self.spec_head_height() || (hi < u64::MAX && self.spec_has_height(
                (hi + 1) as u64,
            )))
            &&& forall|h: u64| lo <= h <= hi ==> !self.spec_has_height(h)
            &&& forall|i: int| 0 <= i < b.len() ==> !self.spec_has_hash((#[trigger] b[i]).hash)
            &&& forall|i: int, j: int|
                0 <= i < j < b.len() ==> (#[trigger] b[i]).hash != (#[trigger] b[j]).hash
        })
    }

    /// Insert a contiguous, ascending batch of headers.
    ///
    /// A batch is accepted only where [`Self::insert_acceptable`] holds; the
    /// batch must extend the store from above or close (part of) a gap from
    /// directly below a stored range, so that every accepted header has been
    /// verified against a trusted anchor by the caller.
    #[verifier::rlimit(100)]
    pub fn insert(&mut self, batch: Vec<Header>) -> (r: Result<(), StoreError>)
        requires
            old(self).wf(),
            forall|i: int| 0 <= i < batch@.len() ==> (#[trigger] batch@[i]@).wf(),
        ensures
            final(self).wf(),
            r is Ok <==> old(self).insert_acceptable(crate::header::header_views(batch@)),
            match r {
                Ok(()) => {
                    let b = crate::header::header_views(batch@);
                    &&& forall|h: u64|
                        final(self).spec_has_height(h) <==> (old(self).spec_has_height(h) || (
                        b.len() > 0 && b[0].height <= h <= b[b.len() - 1].height))
                    &&& forall|h: u64|
                        old(self).spec_has_height(h) ==> final(self).lookup(h) == old(self).lookup(
                            h,
                        )
                    &&& forall|i: int|
                        0 <= i < b.len() ==> final(self).lookup((#[trigger] b[i]).height) == b[i]
                    &&& final(self).sampling_view() == old(self).sampling_view()
                },
                Err(e) => {
                    &&& *final(self) == *old(self)
                    &&& match e {
                        StoreError::NonContinuousAppend(a, c) => {
                            let b = crate::header::header_views(batch@);
                            ||| exists|i: int|
                                0 < i < b.len() && (#[trigger] b[i]).height != b[i - 1].height + 1
                                    && a == b[i - 1].height && c == b[i].height
                            ||| (batch_contiguous(b) && b.len() > 0 && a == old(
                                self,
                            ).spec_head_height() && c == b[0].height && !(b[0].height > old(
                                self,
                            ).spec_head_height()) && !(b[b.len() - 1].height < u64::MAX && old(
                                self,
                            ).spec_has_height((b[b.len() - 1].height + 1) as u64)))
                        },
                        StoreError::HeightExists(h) => old(self).spec_has_height(h),
                        StoreError::HashExists(hs) => old(self).spec_has_hash(hs@) || exists|
                            i: int,
                            j: int,
                        |
                            0 <= i < j < batch@.len() && (#[trigger] batch@[i]@).hash == (
                            #[trigger] batch@[j]@).hash,
                        StoreError::NotFound => false,
                    }
                },
            },
    {
        let ghost b = crate::header::header_views(batch@);
        let ghost s0 = *self;
        let n = batch.len();
        if n == 0 {
            return Ok(());
        }
        // The batch must be contiguous in height.
        let mut i: usize = 1;
        while i < n
            invariant
                *self == *old(self),
                self.wf(),
                1 <= i <= n,
                n == batch@.len(),
                b == crate::header::header_views(batch@),
                forall|j: int| 0 < j < i ==> (#[trigger] b[j]).height == b[j - 1].height + 1,
            decreases n - i,
        {
            let prev = batch[i - 1].height();
            let cur = batch[i].height();
            if prev == u64::MAX || cur != prev + 1 {
                proof {
                    assert(b[i as int] == batch@[i as int]@ && b[i - 1] == batch@[i - 1]@);
                    assert(b[i as int].height != b[i - 1].height + 1);
                }
                return Err(StoreError::NonContinuousAppend(prev, cur));
            }
            i = i + 1;
        }
        assert(batch_contiguous(b));
        proof {
            lemma_contiguous_heights(b);
        }
        let lo = batch[0].height();
        let hi = batch[n - 1].height();
        proof {
            assert(b[0] == batch@[0]@ && b[n - 1] == batch@[n - 1]@);
            assert(hi == lo + (n - 1));
        }
        // No stored height may fall inside the batch.
        let mut k: usize = 0;
        while k < self.headers.len()
            invariant
                *self == *old(self),
                self.wf(),
                k <= self.headers_view().len(),
                n == batch@.len(),
                n >= 1,
                b == crate::header::header_views(batch@),
                batch_contiguous(b),
                lo == b[0].height,
                hi == b[b.len() - 1].height,
                lo <= hi,
                forall|j: int|
                    0 <= j < k ==> !(lo <= (#[trigger] self.headers_view()[j]).height <= hi),
            decreases self.headers_view().len() - k,
        {
            let h = self.headers[k].height();
            if lo <= h && h <= hi {
                proof {
                    assert(self.headers_view()[k as int] == self.headers@[k as int]@);
                    assert(self.spec_has_height(h));
                }
                return Err(StoreError::HeightExists(h));
            }
            k = k + 1;
        }
        assert forall|h: u64| lo <= h <= hi implies !self.spec_has_height(h) by {
            if self.spec_has_height(h) {
                let j = choose|j: int|
                    0 <= j < self.headers_view().len() && (#[trigger] self.headers_view()[j]).height
                        == h;
            }
        }
        // The batch must extend the stored heights from above, or be
        // anchored right below an already stored header.
        let head = if self.headers.len() == 0 {
            0
        } else {
            self.headers[self.headers.len() - 1].height()
        };
        proof {
            if self.headers@.len() > 0 {
                let last = self.headers_view().len() - 1;
                assert(self.headers_view()[last] == self.headers@[last]@);
            }
            assert(head == self.spec_head_height());
        }
        let anchored_above = hi < u64::MAX && self.has_at(hi + 1);
        if !(lo > head || anchored_above) {
            return Err(StoreError::NonContinuousAppend(head, lo));
        }
        // No hash of the batch may be stored already or repeat in the batch.
        let mut i: usize = 0;
        while i < n
            invariant
                *self == *old(self),
                self.wf(),
                i <= n,
                n == batch@.len(),
                n >= 1,
                b == crate::header::header_views(batch@),
                batch_contiguous(b),
                lo == b[0].height,
                hi == b[b.len() - 1].height,
                forall|j: int| 0 <= j < i ==> !self.spec_has_hash((#[trigger] b[j]).hash),
                forall|j1: int, j2: int|
                    0 <= j1 < j2 < i ==> (#[trigger] b[j1]).hash != (#[trigger] b[j2]).hash,
            decreases n - i,
        {
            if self.has(batch[i].hash()) {
                proof {
                    assert(b[i as int] == batch@[i as int]@);
                }
                return Err(StoreError::HashExists(copy_bytes(batch[i].hash())));
            }
            let mut j: usize = 0;
            while j < i
                invariant
                    *self == *old(self),
                    self.wf(),
                    i < n,
                    n == batch@.len(),
                    b == crate::header::header_views(batch@),
                    batch_contiguous(b),
                    lo == b[0].height,
                    hi == b[b.len() - 1].height,
                    j <= i,
                    forall|j2: int| 0 <= j2 < j ==> (#[trigger] b[j2]).hash != b[i as int].hash,
                decreases i - j,
            {
                if bytes_eq(batch[j].hash(), batch[i].hash()) {
                    proof {
                        assert(b[j as int] == batch@[j as int]@);
                        assert(b[i as int] == batch@[i as int]@);
                        assert(b[j as int].hash == b[i as int].hash);
                    }
                    return Err(StoreError::HashExists(copy_bytes(batch[i].hash())));
                }
                j = j + 1;
            }
            i = i + 1;
        }
        assert(self.insert_acceptable(b));
        // Find the splice point: the first stored header above the batch.
        let mut idx: usize = 0;
        while idx < self.headers.len() && self.headers[idx].height() < lo
            invariant
                *self == *old(self),
                self.wf(),
                idx <= self.headers_view().len(),
                forall|j: int| 0 <= j < idx ==> (#[trigger] self.headers_view()[j]).height < lo,
            decreases self.headers_view().len() - idx,
        {
            idx = idx + 1;
        }
        proof {
            assert forall|j: int|
                idx <= j < self.headers_view().len() implies (#[trigger] self.headers_view()[j]).height
                > hi by {
                if j > idx {
                    self.lemma_heights_ordered(idx as int, j);
                }
                assert(self.headers_view()[idx as int].height >= lo);
                assert(!(lo <= self.headers_view()[j].height <= hi));
            }
        }
        // Rebuild the header list with the batch spliced in, then extend
        // the range summary.
        self.splice(&batch, idx);
        proof {
            // The range summary update below is disjoint from every stored range.
            assert forall|j: int|
                0 <= j < s0.ranges_view().len() implies ((#[trigger] s0.ranges_view()[j]).end < lo
                || hi < s0.ranges_view()[j].start) by {
                let rg = s0.ranges_view()[j];
                if !(rg.end < lo || hi < rg.start) {
                    let h: u64 = if rg.start >= lo {
                        rg.start
                    } else {
                        lo
                    };
                    assert(rg.spec_contains(h));
                    assert(crate::block_ranges::ranges_contain(s0.ranges_view(), h));
                    assert(s0.spec_has_height(h));
                }
            }
        }
        self.ranges.insert(lo, hi);
        proof {
            lemma_splice_props(s0, *self, b, idx as int, lo, hi);
        }
        Ok(())
    }

    /// Append a single header that must sit directly on top of the current
    /// head, as the low-level backing stores do.
    pub fn append_single_unchecked(&mut self, header: Header) -> (r: Result<(), StoreError>)
        requires
            old(self).wf(),
            header@.wf(),
        ensures
            final(self).wf(),
            r is Ok <==> (header@.height == old(self).spec_head_height() + 1 && !old(
                self,
            ).spec_has_hash(header@.hash)),
            match r {
                Ok(()) => {
                    &&& forall|h: u64|
                        final(self).spec_has_height(h) <==> (old(self).spec_has_height(h) || h
                            == header@.height)
                    &&& forall|h: u64|
                        old(self).spec_has_height(h) ==> final(self).lookup(h) == old(self).lookup(
                            h,
                        )
                    &&& final(self).lookup(header@.height) == header@
                    &&& final(self).sampling_view() == old(self).sampling_view()
                },
                Err(e) => {
                    &&& *final(self) == *old(self)
                    &&& match e {
                        StoreError::HeightExists(h) => h == header@.height && h <= old(
                            self,
                        ).spec_head_height(),
                        StoreError::NonContinuousAppend(a, c) => a == old(self).spec_head_height()
                            && c == header@.height,
                        StoreError::HashExists(hs) => hs@ == header@.hash && old(
                            self,
                        ).spec_has_hash(header@.hash),
                        StoreError::NotFound => false,
                    }
                },
            },
    {
        let ghost s0 = *self;
        let height = header.height();
        let head = if self.headers.len() == 0 {
            0
        } else {
            self.headers[self.headers.len() - 1].height()
        };
        proof {
            if self.headers@.len() > 0 {
                let last = self.headers_view().len() - 1;
                assert(self.headers_view()[last] == self.headers@[last]@);
            }
            assert(head == self.spec_head_height());
        }
        // A light check before checking the whole map.
        if head > 0 && height <= head {
            return Err(StoreError::HeightExists(height));
        }
        // Reject a non-continuous append.
        if head == u64::MAX || head + 1 != height {
            return Err(StoreError::NonContinuousAppend(head, height));
        }
        if self.has(header.hash()) {
            return Err(StoreError::HashExists(copy_bytes(header.hash())));
        }
        proof {
            assert forall|j: int|
                0 <= j < self.headers_view().len() implies (#[trigger] self.headers_view()[j]).height
                < height by {
                if j < self.headers_view().len() - 1 {
                    self.lemma_heights_ordered(j, self.headers_view().len() - 1);
                }
            }
            assert forall|h: u64| height <= h <= height implies !self.spec_has_height(h) by {
                if self.spec_has_height(h) {
                    let j = choose|j: int|
                        0 <= j < self.headers_view().len() && (#[trigger] self.headers_view()[j]).height
                            == h;
                }
            }
        }
        let idx = self.headers.len();
        let ghost hview = header@;
        let mut batch: Vec<Header> = Vec::new();
        batch.push(header);
        let ghost b = crate::header::header_views(batch@);
        proof {
            assert(b.len() == 1 && b[0] == hview);
            assert(batch_contiguous(b));
        }
        self.splice(&batch, idx);
        proof {
            assert(self.headers_view() =~= s0.headers_view().subrange(0, idx as int) + b
                + s0.headers_view().subrange(idx as int, s0.headers_view().len() as int));
            assert forall|j: int|
                0 <= j < s0.ranges_view().len() implies ((#[trigger] s0.ranges_view()[j]).end
                < height || height < s0.ranges_view()[j].start) by {
                let rg = s0.ranges_view()[j];
                if !(rg.end < height || height < rg.start) {
                    assert(rg.spec_contains(height));
                    assert(crate::block_ranges::ranges_contain(s0.ranges_view(), height));
                    assert(s0.spec_has_height(height));
                }
            }
        }
        self.ranges.insert(height, height);
        proof {
            assert(splice_shape(s0, *self, b, idx as int, height, height));
            lemma_splice_props(s0, *self, b, idx as int, height, height);
        }
        Ok(())
    }

    /// Remove the stored header with the lowest height (the tail of the
    /// store), together with its sampling metadata, returning its height.
    pub fn remove_last(&mut self) -> (r: Result<u64, StoreError>)
        requires
            old(self).wf(),
        ensures
            final(self).wf(),
            r is Ok <==> old(self).headers_view().len() > 0,
            match r {
                Ok(t) => {
                    &&& t == old(self).headers_view()[0].height
                    &&& final(self).headers_view().len() + 1 == old(self).headers_view().len()
                    &&& forall|h: u64|
                        final(self).spec_has_height(h) <==> (old(self).spec_has_height(h) && h != t)
                    &&& forall|h: u64|
                        old(self).spec_has_height(h) && h != t ==> final(self).lookup(h) == old(
                            self,
                        ).lookup(h)
                    &&& forall|h: u64|
                        h != t ==> final(self).metadata_at(h) == old(self).metadata_at(h)
                    &&& final(self).metadata_at(t) is None
                },
                Err(e) => *final(self) == *old(self) && (e matches StoreError::NotFound),
            },
    {
        let ghost s0 = *self;
        if self.headers.len() == 0 {
            return Err(StoreError::NotFound);
        }
        let t = self.headers[0].height();
        proof {
            assert(self.headers_view()[0] == self.headers@[0]@);
            // The lowest covered range starts exactly at the lowest height.
            assert(self.spec_has_height(t));
            assert(crate::block_ranges::ranges_contain(self.ranges_view(), t));
            let i = choose|i: int|
                0 <= i < self.ranges_view().len() && (#[trigger] self.ranges_view()[i]).spec_contains(t);
            if i > 0 {
                crate::block_ranges::lemma_ranges_ordered(self.ranges_view(), 0, i);
            }
            let rs = self.ranges_view()[0].start;
            assert(self.ranges_view()[0].spec_contains(rs));
            assert(crate::block_ranges::ranges_contain(self.ranges_view(), rs));
            assert(self.spec_has_height(rs));
            let j = choose|j: int|
                0 <= j < self.headers_view().len() && (#[trigger] self.headers_view()[j]).height
                    == rs;
            if j > 0 {
                self.lemma_heights_ordered(0, j);
            }
            assert(rs == t);
        }
        self.headers.remove(0);
        self.ranges.pop_tail();
        // Drop the sampling metadata of the removed height, if any.
        let ghost mid = *self;
        let mut p: usize = 0;
        let mut found: bool = false;
        while p < self.sampling.len() && !found
            invariant
                *self == mid,
                p <= self.sampling_view().len(),
                found ==> p < self.sampling_view().len() && self.sampling_view()[p as int].0 == t,
                !found ==> forall|j: int|
                    0 <= j < p ==> (#[trigger] self.sampling_view()[j]).0 != t,
            decreases self.sampling_view().len() - p, (if found { 0int } else { 1int }),
        {
            if self.sampling[p].0 == t {
                found = true;
            } else {
                p = p + 1;
            }
        }
        if found {
            self.sampling.remove(p);
        }
        proof {
            assert(self.headers_view() =~= s0.headers_view().subrange(
                1,
                s0.headers_view().len() as int,
            ));
            if found {
                assert(self.sampling_view() =~= s0.sampling_view().remove(p as int));
            }
            lemma_remove_tail_props(s0, *self, t, if found {
                Some(p as int)
            } else {
                None
            });
        }
        Ok(t)
    }

    /// Record sampling metadata for a stored height, replacing any previous
    /// row for that height.
    pub fn set_sampling_metadata(&mut self, height: u64, cids: Vec<Vec<u8>>) -> (r: Result<
        (),
        StoreError,
    >)
        requires
            old(self).wf(),
        ensures
            final(self).wf(),
            r is Ok <==> old(self).spec_has_height(height),
            final(self).headers_view() == old(self).headers_view(),
            final(self).ranges_view() == old(self).ranges_view(),
            match r {
                Ok(()) => {
                    &&& final(self).metadata_at(height) == Some(cids_view(cids@))
                    &&& forall|h: u64|
                        h != height ==> final(self).metadata_at(h) == old(self).metadata_at(h)
                },
                Err(e) => *final(self) == *old(self) && (e matches StoreError::NotFound),
            },
    {
        let ghost s0 = *self;
        let ghost cv = cids_view(cids@);
        if !self.has_at(height) {
            return Err(StoreError::NotFound);
        }
        let mut p: usize = 0;
        let mut found: bool = false;
        while p < self.sampling.len() && !found
            invariant
                *self == s0,
                p <= self.sampling_view().len(),
                found ==> p < self.sampling_view().len() && self.sampling_view()[p as int].0
                    == height,
                !found ==> forall|j: int|
                    0 <= j < p ==> (#[trigger] self.sampling_view()[j]).0 != height,
            decreases self.sampling_view().len() - p, (if found { 0int } else { 1int }),
        {
            if self.sampling[p].0 == height {
                found = true;
            } else {
                p = p + 1;
            }
        }
        if found {
            self.sampling.set(p, (height, SamplingMetadata { cids }));
        } else {
            self.sampling.push((height, SamplingMetadata { cids }));
        }
        proof {
            if found {
                assert(self.sampling_view() =~= s0.sampling_view().update(p as int, (height, cv)));
            } else {
                assert(self.sampling_view() =~= s0.sampling_view().push((height, cv)));
            }
            lemma_set_metadata_props(s0, *self, height, cv, if found {
                Some(p as int)
            } else {
                None
            });
        }
        Ok(())
    }

    /// The sampling metadata recorded for a height, if any.
    pub fn get_sampling_metadata(&self, height: u64) -> (r: Option<&SamplingMetadata>)
        requires
            self.wf(),
        ensures
            match r {
                Some(m) => self.metadata_at(height) == Some(cids_view(m.cids@)),
                None => self.metadata_at(height) is None,
            },
    {
        let mut p: usize = 0;
        while p < self.sampling.len()
            invariant
                self.wf(),
                p <= self.sampling_view().len(),
                forall|j: int| 0 <= j < p ==> (#[trigger] self.sampling_view()[j]).0 != height,
            decreases self.sampling_view().len() - p,
        {
            if self.sampling[p].0 == height {
                proof {
                    assert(self.sampling_view()[p as int].0 == height);
                    let q = choose|q: int|
                        0 <= q < self.sampling_view().len() && (#[trigger] self.sampling_view()[q]).0
                            == height;
                    assert(!(q < p as int) && !((p as int) < q));
                    assert(self.metadata_at(height) == Some(self.sampling_view()[p as int].1));
                }
                return Some(&self.sampling[p].1);
            }
            p = p + 1;
        }
        None
    }

    /// Replace the header list by the old one with `batch` spliced in
    /// before index `idx`, leaving ranges and sampling metadata untouched.
    fn splice(&mut self, batch: &Vec<Header>, idx: usize)
        requires
            idx <= old(self).headers_view().len(),
        ensures
            final(self).headers_view() == old(self).headers_view().subrange(0, idx as int)
                + crate::header::header_views(batch@) + old(self).headers_view().subrange(
                idx as int,
                old(self).headers_view().len() as int,
            ),
            final(self).ranges_view() == old(self).ranges_view(),
            final(self).sampling_view() == old(self).sampling_view(),
    {
        let ghost old_hv = self.headers_view();
        let ghost b = crate::header::header_views(batch@);
        let n = batch.len();
        let mut out: Vec<Header> = Vec::new();
        let mut k: usize = 0;
        while k < idx
            invariant
                old_hv == self.headers_view(),
                idx <= self.headers@.len(),
                k <= idx,
                out@.len() == k,
                forall|j: int| 0 <= j < k ==> (#[trigger] out@[j])@ == old_hv[j],
            decreases idx - k,
        {
            out.push(self.headers[k].dup());
            k = k + 1;
        }
        let mut k: usize = 0;
        while k < n
            invariant
                old_hv == self.headers_view(),
                idx <= self.headers@.len(),
                k <= n,
                n == batch@.len(),
                out@.len() == idx + k,
                forall|j: int| 0 <= j < idx ==> (#[trigger] out@[j])@ == old_hv[j],
                forall|j: int| 0 <= j < k ==> (#[trigger] out@[idx + j])@ == batch@[j]@,
            decreases n - k,
        {
            out.push(batch[k].dup());
            k = k + 1;
        }
        let mut k: usize = idx;
        while k < self.headers.len()
            invariant
                old_hv == self.headers_view(),
                idx <= k <= self.headers@.len(),
                n == batch@.len(),
                out@.len() == n + k,
                forall|j: int| 0 <= j < idx ==> (#[trigger] out@[j])@ == old_hv[j],
                forall|j: int| 0 <= j < n ==> (#[trigger] out@[idx + j])@ == batch@[j]@,
                forall|j: int| idx <= j < k ==> (#[trigger] out@[n + j])@ == old_hv[j],
            decreases self.headers@.len() - k,
        {
            out.push(self.headers[k].dup());
            k = k + 1;
        }
        proof {
            assert forall|j: int| 0 <= j < n implies b[j] == batch@[j]@ by {}
            assert forall|j: int|
                0 <= j < out@.len() implies (#[trigger] out@[j])@ == (old_hv.subrange(0, idx as int)
                + b + old_hv.subrange(idx as int, old_hv.len() as int))[j] by {
                if j < idx {
                    assert(out@[j]@ == old_hv[j]);
                } else if j < idx + n {
                    assert(out@[idx + (j - idx)]@ == batch@[j - idx]@);
                } else {
                    assert(out@[n + (j - n)]@ == old_hv[j - n]);
                }
            }
        }
        self.headers = out;
        proof {
            assert(self.headers_view() =~= old_hv.subrange(0, idx as int) + b + old_hv.subrange(
                idx as int,
                old_hv.len() as int,
            ));
        }
    }
}

/// Hypotheses shared by the lemmas about a splice of an acceptable batch
/// `b` into the header list of `s0` at position `idx`, yielding `s1`.
pub open spec fn splice_shape(s0: Store, s1: Store, b: Seq<HeaderView>, idx: int, lo: u64, hi: u64) -> bool {
    &&& s0.wf()
    &&& b.len() >= 1
    &&& batch_contiguous(b)
    &&& (forall|i: int| 0 <= i < b.len() ==> (#[trigger] b[i]).wf())
    &&& b[0].height == lo
    &&& hi == lo + b.len() - 1
    &&& (forall|h: u64| lo <= h <= hi ==> !s0.spec_has_height(h))
    &&& (forall|i: int| 0 <= i < b.len() ==> !s0.spec_has_hash((#[trigger] b[i]).hash))
    &&& (forall|i: int, j: int|
        0 <= i < j < b.len() ==> (#[trigger] b[i]).hash != (#[trigger] b[j]).hash)
    &&& 0 <= idx <= s0.headers_view().len()
    &&& (forall|j: int| 0 <= j < idx ==> (#[trigger] s0.headers_view()[j]).height < lo)
    &&& (forall|j: int|
        idx <= j < s0.headers_view().len() ==> (#[trigger] s0.headers_view()[j]).height > hi)
    &&& s1.headers_view() == s0.headers_view().subrange(0, idx) + b + s0.headers_view().subrange(
        idx,
        s0.headers_view().len() as int,
    )
}

/// The spliced header list is well formed and strictly ordered by height,
/// with unique hashes.
proof fn lemma_splice_headers_wf(s0: Store, s1: Store, b: Seq<HeaderView>, idx: int, lo: u64, hi: u64)
    requires
        splice_shape(s0, s1, b, idx, lo, hi),
    ensures
        forall|i: int| 0 <= i < s1.headers_view().len() ==> (#[trigger] s1.headers_view()[i]).wf(),
        forall|i: int|
            0 < i < s1.headers_view().len() ==> (#[trigger] s1.headers_view()[i]).height
                > s1.headers_view()[i - 1].height,
        forall|i: int, j: int|
            0 <= i < j < s1.headers_view().len() ==> (#[trigger] s1.headers_view()[i]).hash != (
            #[trigger] s1.headers_view()[j]).hash,
{
    let hv = s1.headers_view();
    let old_hv = s0.headers_view();
    let n = b.len();
    lemma_contiguous_heights(b);
    assert forall|j: int| 0 <= j < hv.len() implies (#[trigger] hv[j]).wf() by {
        if j < idx {
            assert(hv[j] == old_hv[j]);
        } else if j < idx + n {
            assert(hv[j] == b[j - idx]);
        } else {
            assert(hv[j] == old_hv[j - n]);
        }
    }
    assert forall|j: int| 0 < j < hv.len() implies (#[trigger] hv[j]).height > hv[j - 1].height by {
        if j < idx {
            assert(hv[j] == old_hv[j] && hv[j - 1] == old_hv[j - 1]);
        } else if j == idx {
            assert(hv[j] == b[0] && hv[j - 1] == old_hv[j - 1]);
        } else if j < idx + n {
            assert(hv[j] == b[j - idx] && hv[j - 1] == b[j - idx - 1]);
        } else if j == idx + n {
            assert(hv[j] == old_hv[idx] && hv[j - 1] == b[n - 1]);
        } else {
            assert(hv[j] == old_hv[j - n] && hv[j - 1] == old_hv[j - n - 1]);
        }
    }
    assert forall|j1: int, j2: int|
        0 <= j1 < j2 < hv.len() implies (#[trigger] hv[j1]).hash != (#[trigger] hv[j2]).hash by {
        let o1: int = if j1 < idx {
            j1
        } else if j1 < idx + n {
            -1
        } else {
            j1 - n
        };
        let o2: int = if j2 < idx {
            j2
        } else if j2 < idx + n {
            -1
        } else {
            j2 - n
        };
        if o1 >= 0 && o2 >= 0 {
            assert(hv[j1] == old_hv[o1] && hv[j2] == old_hv[o2]);
        } else if o1 >= 0 {
            assert(hv[j1] == old_hv[o1] && hv[j2] == b[j2 - idx]);
            assert(s0.spec_has_hash(old_hv[o1].hash)) by {
                assert(0 <= o1 < old_hv.len() && old_hv[o1].hash == old_hv[o1].hash);
            }
        } else if o2 >= 0 {
            assert(hv[j1] == b[j1 - idx] && hv[j2] == old_hv[o2]);
            assert(s0.spec_has_hash(old_hv[o2].hash)) by {
                assert(0 <= o2 < old_hv.len() && old_hv[o2].hash == old_hv[o2].hash);
            }
        } else {
            assert(hv[j1] == b[j1 - idx] && hv[j2] == b[j2 - idx]);
        }
    }
}

/// The spliced store holds exactly the old heights plus the batch interval.
proof fn lemma_splice_heights(s0: Store, s1: Store, b: Seq<HeaderView>, idx: int, lo: u64, hi: u64)
    requires
        splice_shape(s0, s1, b, idx, lo, hi),
    ensures
        forall|h: u64| s1.spec_has_height(h) <==> (s0.spec_has_height(h) || lo <= h <= hi),
{
    let hv = s1.headers_view();
    let old_hv = s0.headers_view();
    let n = b.len();
    lemma_contiguous_heights(b);
    assert forall|h: u64| s1.spec_has_height(h) <==> (s0.spec_has_height(h) || lo <= h <= hi) by {
        if s1.spec_has_height(h) {
            let j = choose|j: int| 0 <= j < hv.len() && (#[trigger] hv[j]).height == h;
            if j < idx {
                assert(old_hv[j].height == h);
                assert(s0.spec_has_height(h));
            } else if j < idx + n {
                assert(b[j - idx].height == h);
                assert(lo <= h <= hi);
            } else {
                assert(old_hv[j - n].height == h);
                assert(s0.spec_has_height(h));
            }
        }
        if s0.spec_has_height(h) {
            let j = choose|j: int| 0 <= j < old_hv.len() && (#[trigger] old_hv[j]).height == h;
            if j < idx {
                assert(hv[j].height == h);
            } else {
                assert(hv[j + n] == old_hv[j]);
                assert(hv[j + n].height == h);
            }
        }
        if lo <= h <= hi {
            assert(b[h - lo].height == h);
            assert(hv[idx + h - lo].height == h);
        }
    }
}

/// What a successful splice of an acceptable batch establishes: the store
/// invariant holds again, the stored heights are the old ones plus the
/// batch interval, and lookups of old heights are unchanged while the
/// batch headers are found at their heights.
#[verifier::rlimit(100)]
proof fn lemma_splice_props(s0: Store, s1: Store, b: Seq<HeaderView>, idx: int, lo: u64, hi: u64)
    requires
        splice_shape(s0, s1, b, idx, lo, hi),
        s1.sampling_view() == s0.sampling_view(),
        crate::block_ranges::ranges_wf(s1.ranges_view()),
        forall|h: u64|
            crate::block_ranges::ranges_contain(s1.ranges_view(), h) <==> (
            crate::block_ranges::ranges_contain(s0.ranges_view(), h) || lo <= h <= hi),
    ensures
        s1.wf(),
        forall|h: u64| s1.spec_has_height(h) <==> (s0.spec_has_height(h) || lo <= h <= hi),
        forall|h: u64| s0.spec_has_height(h) ==> s1.lookup(h) == s0.lookup(h),
        forall|i: int| 0 <= i < b.len() ==> s1.lookup((#[trigger] b[i]).height) == b[i],
{
    lemma_splice_headers_wf(s0, s1, b, idx, lo, hi);
    lemma_splice_heights(s0, s1, b, idx, lo, hi);
    assert forall|h: u64|
        crate::block_ranges::ranges_contain(s1.ranges_view(), h) <==> s1.spec_has_height(h) by {
        assert(crate::block_ranges::ranges_contain(s0.ranges_view(), h) <==> s0.spec_has_height(h));
    }
    assert forall|i: int|
        0 <= i < s1.sampling_view().len() implies s1.spec_has_height(
        (#[trigger] s1.sampling_view()[i]).0,
    ) by {
        assert(s1.sampling_view()[i] == s0.sampling_view()[i]);
        assert(s0.spec_has_height(s0.sampling_view()[i].0));
    }
    assert(s1.wf());
    lemma_splice_lookups(s0, s1, b, idx, lo, hi);
}

/// Lookups of previously stored heights are unchanged by the splice, and
/// the batch headers are found at their heights.
proof fn lemma_splice_lookups(s0: Store, s1: Store, b: Seq<HeaderView>, idx: int, lo: u64, hi: u64)
    requires
        splice_shape(s0, s1, b, idx, lo, hi),
        s1.wf(),
    ensures
        forall|h: u64| s0.spec_has_height(h) ==> s1.lookup(h) == s0.lookup(h),
        forall|i: int| 0 <= i < b.len() ==> s1.lookup((#[trigger] b[i]).height) == b[i],
{
    let hv = s1.headers_view();
    let old_hv = s0.headers_view();
    let n = b.len();
    assert forall|h: u64| s0.spec_has_height(h) implies s1.lookup(h) == s0.lookup(h) by {
        let j = choose|j: int| 0 <= j < old_hv.len() && (#[trigger] old_hv[j]).height == h;
        s0.lemma_lookup_at(j);
        if j < idx {
            assert(hv[j] == old_hv[j]);
            s1.lemma_lookup_at(j);
        } else {
            assert(hv[j + n] == old_hv[j]);
            s1.lemma_lookup_at(j + n);
        }
    }
    assert forall|i2: int|
        0 <= i2 < b.len() implies s1.lookup((#[trigger] b[i2]).height) == b[i2] by {
        assert(hv[idx + i2] == b[i2]);
        s1.lemma_lookup_at(idx + i2);
    }
}

/// The header list with its tail removed is well formed, holds every old
/// height but the tail, and looks headers up as before.
proof fn lemma_remove_tail_headers(s0: Store, s1: Store, t: u64)
    requires
        s0.wf(),
        s0.headers_view().len() > 0,
        t == s0.headers_view()[0].height,
        s1.headers_view() == s0.headers_view().subrange(1, s0.headers_view().len() as int),
    ensures
        forall|i: int| 0 <= i < s1.headers_view().len() ==> (#[trigger] s1.headers_view()[i]).wf(),
        forall|i: int|
            0 < i < s1.headers_view().len() ==> (#[trigger] s1.headers_view()[i]).height
                > s1.headers_view()[i - 1].height,
        forall|i: int, j: int|
            0 <= i < j < s1.headers_view().len() ==> (#[trigger] s1.headers_view()[i]).hash != (
            #[trigger] s1.headers_view()[j]).hash,
        forall|h: u64| s1.spec_has_height(h) <==> (s0.spec_has_height(h) && h != t),
{
    let hv = s1.headers_view();
    let old_hv = s0.headers_view();
    assert forall|j: int| 0 <= j < hv.len() implies (#[trigger] hv[j]).wf() by {
        assert(hv[j] == old_hv[j + 1]);
    }
    assert forall|j: int| 0 < j < hv.len() implies (#[trigger] hv[j]).height > hv[j - 1].height by {
        assert(hv[j] == old_hv[j + 1] && hv[j - 1] == old_hv[j]);
    }
    assert forall|j1: int, j2: int|
        0 <= j1 < j2 < hv.len() implies (#[trigger] hv[j1]).hash != (#[trigger] hv[j2]).hash by {
        assert(hv[j1] == old_hv[j1 + 1] && hv[j2] == old_hv[j2 + 1]);
    }
    assert forall|h: u64| s1.spec_has_height(h) <==> (s0.spec_has_height(h) && h != t) by {
        if s1.spec_has_height(h) {
            let j = choose|j: int| 0 <= j < hv.len() && (#[trigger] hv[j]).height == h;
            assert(hv[j] == old_hv[j + 1]);
            assert(s0.spec_has_height(h));
            s0.lemma_heights_ordered(0, j + 1);
        }
        if s0.spec_has_height(h) && h != t {
            let j = choose|j: int| 0 <= j < old_hv.len() && (#[trigger] old_hv[j]).height == h;
            assert(j != 0);
            assert(hv[j - 1] == old_hv[j]);
            assert(hv[j - 1].height == h);
        }
    }
}

/// What removing the tail header (and its sampling row, found at `p` if
/// any) establishes.
#[verifier::rlimit(100)]
proof fn lemma_remove_tail_props(s0: Store, s1: Store, t: u64, p: Option<int>)
    requires
        s0.wf(),
        s0.headers_view().len() > 0,
        t == s0.headers_view()[0].height,
        s1.headers_view() == s0.headers_view().subrange(1, s0.headers_view().len() as int),
        crate::block_ranges::ranges_wf(s1.ranges_view()),
        forall|h: u64|
            crate::block_ranges::ranges_contain(s1.ranges_view(), h) <==> (
            crate::block_ranges::ranges_contain(s0.ranges_view(), h) && h != t),
        match p {
            Some(p) => {
                &&& 0 <= p < s0.sampling_view().len()
                &&& s0.sampling_view()[p].0 == t
                &&& s1.sampling_view() == s0.sampling_view().remove(p)
            },
            None => {
                &&& s1.sampling_view() == s0.sampling_view()
                &&& forall|j: int|
                    0 <= j < s0.sampling_view().len() ==> (#[trigger] s0.sampling_view()[j]).0 != t
            },
        },
    ensures
        s1.wf(),
        forall|h: u64| s1.spec_has_height(h) <==> (s0.spec_has_height(h) && h != t),
        forall|h: u64| s0.spec_has_height(h) && h != t ==> s1.lookup(h) == s0.lookup(h),
        forall|h: u64| h != t ==> s1.metadata_at(h) == s0.metadata_at(h),
        s1.metadata_at(t) is None,
{
    let hv = s1.headers_view();
    let old_hv = s0.headers_view();
    lemma_remove_tail_headers(s0, s1, t);
    // The sampling rows that remain have unique keys bound to heights that
    // are still stored, and every key other than `t` maps as before.
    match p {
        Some(p) => {
            lemma_row_at_remove(s0.sampling_view(), p);
            assert forall|i: int|
                0 <= i < s1.sampling_view().len() implies s1.spec_has_height(
                (#[trigger] s1.sampling_view()[i]).0,
            ) by {
                let o: int = if i < p {
                    i
                } else {
                    i + 1
                };
                assert(s1.sampling_view()[i] == s0.sampling_view()[o]);
                assert(s0.spec_has_height(s0.sampling_view()[o].0));
                if o < p {
                    assert(s0.sampling_view()[o].0 != s0.sampling_view()[p].0);
                } else {
                    assert(s0.sampling_view()[p].0 != s0.sampling_view()[o].0);
                }
            }
        },
        None => {
            assert forall|i: int|
                0 <= i < s1.sampling_view().len() implies s1.spec_has_height(
                (#[trigger] s1.sampling_view()[i]).0,
            ) by {
                assert(s0.spec_has_height(s0.sampling_view()[i].0));
                assert(s0.sampling_view()[i].0 != t);
            }
            assert(!row_key_exists(s1.sampling_view(), t));
        },
    }
    assert forall|h: u64|
        crate::block_ranges::ranges_contain(s1.ranges_view(), h) <==> s1.spec_has_height(h) by {
        assert(crate::block_ranges::ranges_contain(s0.ranges_view(), h) <==> s0.spec_has_height(h));
    }
    assert(s1.wf());
    assert forall|h: u64| s0.spec_has_height(h) && h != t implies s1.lookup(h) == s0.lookup(h) by {
        let j = choose|j: int| 0 <= j < old_hv.len() && (#[trigger] old_hv[j]).height == h;
        s0.lemma_lookup_at(j);
        assert(j != 0);
        assert(hv[j - 1] == old_hv[j]);
        s1.lemma_lookup_at(j - 1);
    }
}

/// What writing a sampling row (replacing the one at `p` if present)
/// establishes.
#[verifier::rlimit(100)]
proof fn lemma_set_metadata_props(
    s0: Store,
    s1: Store,
    height: u64,
    cv: Seq<Seq<u8>>,
    p: Option<int>,
)
    requires
        s0.wf(),
        s0.spec_has_height(height),
        s1.headers_view() == s0.headers_view(),
        s1.ranges_view() == s0.ranges_view(),
        match p {
            Some(p) => {
                &&& 0 <= p < s0.sampling_view().len()
                &&& s0.sampling_view()[p].0 == height
                &&& s1.sampling_view() == s0.sampling_view().update(p, (height, cv))
            },
            None => {
                &&& s1.sampling_view() == s0.sampling_view().push((height, cv))
                &&& forall|j: int|
                    0 <= j < s0.sampling_view().len() ==> (#[trigger] s0.sampling_view()[j]).0
                        != height
            },
        },
    ensures
        s1.wf(),
        s1.metadata_at(height) == Some(cv),
        forall|h: u64| h != height ==> s1.metadata_at(h) == s0.metadata_at(h),
{
    let n0 = s0.sampling_view().len() as int;
    match p {
        Some(p) => {
            lemma_row_at_update(s0.sampling_view(), p, (height, cv));
            assert forall|i: int|
                0 <= i < s1.sampling_view().len() implies s1.spec_has_height(
                (#[trigger] s1.sampling_view()[i]).0,
            ) by {
                if i != p {
                    assert(s1.sampling_view()[i] == s0.sampling_view()[i]);
                    assert(s0.spec_has_height(s0.sampling_view()[i].0));
                }
            }
        },
        None => {
            assert(!row_key_exists(s0.sampling_view(), height));
            lemma_row_at_push(s0.sampling_view(), (height, cv));
            assert forall|i: int|
                0 <= i < s1.sampling_view().len() implies s1.spec_has_height(
                (#[trigger] s1.sampling_view()[i]).0,
            ) by {
                if i < n0 {
                    assert(s1.sampling_view()[i] == s0.sampling_view()[i]);
                    assert(s0.spec_has_height(s0.sampling_view()[i].0));
                } else {
                    assert(s1.sampling_view()[i] == (height, cv));
                }
            }
        },
    }
    assert forall|h: u64| s1.spec_has_height(h) <==> s0.spec_has_height(h) by {
        if s1.spec_has_height(h) {
            let j = choose|j: int|
                0 <= j < s1.headers_view().len() && (#[trigger] s1.headers_view()[j]).height == h;
            assert(s0.headers_view()[j].height == h);
        }
        if s0.spec_has_height(h) {
            let j = choose|j: int|
                0 <= j < s0.headers_view().len() && (#[trigger] s0.headers_view()[j]).height == h;
            assert(s1.headers_view()[j].height == h);
        }
    }
    assert forall|h: u64|
        crate::block_ranges::ranges_contain(s1.ranges_view(), h) <==> s1.spec_has_height(h) by {
        assert(crate::block_ranges::ranges_contain(s0.ranges_view(), h) <==> s0.spec_has_height(h));
    }
    assert(s1.wf());
}

/// Whether a batch is accepted depends on the stored headers alone, so
/// re-running the syncer against the same sequence of peer responses
/// drives equal stores through equal acceptance decisions to the same
/// stored coverage.
pub proof fn lemma_insert_deterministic(s1: Store, s2: Store, b: Seq<HeaderView>)
    requires
        s1.headers_view() == s2.headers_view(),
    ensures
        s1.insert_acceptable(b) == s2.insert_acceptable(b),
{
    assert forall|h: u64| s1.spec_has_height(h) <==> s2.spec_has_height(h) by {
        if s1.spec_has_height(h) {
            let i = choose|i: int|
                0 <= i < s1.headers_view().len() && (#[trigger] s1.headers_view()[i]).height == h;
            assert(s2.headers_view()[i].height == h);
        }
        if s2.spec_has_height(h) {
            let i = choose|i: int|
                0 <= i < s2.headers_view().len() && (#[trigger] s2.headers_view()[i]).height == h;
            assert(s1.headers_view()[i].height == h);
        }
    }
    assert forall|hs: Seq<u8>| s1.spec_has_hash(hs) <==> s2.spec_has_hash(hs) by {
        if s1.spec_has_hash(hs) {
            let i = choose|i: int|
                0 <= i < s1.headers_view().len() && (#[trigger] s1.headers_view()[i]).hash == hs;
            assert(s2.headers_view()[i].hash == hs);
        }
        if s2.spec_has_hash(hs) {
            let i = choose|i: int|
                0 <= i < s2.headers_view().len() && (#[trigger] s2.headers_view()[i]).hash == hs;
            assert(s1.headers_view()[i].hash == hs);
        }
    }
}

/// In a contiguous batch every height is the first plus the offset.
pub proof fn lemma_contiguous_heights(b: Seq<HeaderView>)
    requires
        batch_contiguous(b),
    ensures
        forall|i: int| 0 <= i < b.len() ==> (#[trigger] b[i]).height == b[0].height + i,
{
    assert forall|i: int| 0 <= i < b.len() implies (#[trigger] b[i]).height == b[0].height + i by {
        lemma_contiguous_heights_at(b, i);
    }
}

proof fn lemma_contiguous_heights_at(b: Seq<HeaderView>, i: int)
    requires
        batch_contiguous(b),
        0 <= i < b.len(),
    ensures
        b[i].height == b[0].height + i,
    decreases i,
{
    if i > 0 {
        lemma_contiguous_heights_at(b, i - 1);
    }
}

} // verus!
