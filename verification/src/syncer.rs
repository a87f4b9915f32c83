//! The syncer: discovers a trusted subjective head, schedules bounded
//! batches to close the gaps between the store's coverage and that head,
//! and ingests live head announcements, honouring the syncing window.

use vstd::prelude::*;

use crate::block_ranges::{calculate_range_to_fetch, spec_calculate_range_to_fetch, BlockRange};
use crate::events::NodeEvent;
use crate::exchange::P2pError;
use crate::header::Header;
use crate::store::{Store, StoreError};

verus! {

/// Largest number of headers requested in one batch.
pub const MAX_HEADERS_IN_BATCH: u64 = 512;

/// The syncing window in milliseconds: the node keeps full header coverage
/// for this span of time behind the present.
pub const SYNCING_WINDOW_MS: u64 = 30 * 24 * 60 * 60 * 1000;

/// Errors that reach the syncer's callers.
#[derive(Debug)]
pub enum SyncerError {
    /// An error of the exchange client.
    P2p(P2pError),
    /// An error of the store.
    Store(StoreError),
    /// The worker has died; every later query fails with this.
    WorkerDied,
    /// A channel closed unexpectedly.
    ChannelClosedUnexpectedly,
}

/// Status of the synchronization: the stored ranges and the syncing
/// target.
#[derive(Debug)]
pub struct SyncingInfo {
    pub stored_headers: crate::block_ranges::BlockRanges,
    pub subjective_head: u64,
}

/// Whether a header still lies inside the syncing window.
pub open spec fn spec_in_syncing_window(time: u64, now: u64) -> bool {
    time > if now >= SYNCING_WINDOW_MS {
        (now - SYNCING_WINDOW_MS) as u64
    } else {
        0
    }
}

/// A header is inside the syncing window when its time lies after the
/// window's start, which is clamped to the epoch on underflow.
pub fn in_syncing_window(header: &Header, now: u64) -> (r: bool)
    ensures
        r == spec_in_syncing_window(header@.time, now),
{
    let window_start: u64 = if now >= SYNCING_WINDOW_MS {
        now - SYNCING_WINDOW_MS
    } else {
        0
    };
    header.time() > window_start
}

/// The mutable state of the syncer worker.
pub struct SyncerWorker {
    pub subjective_head_height: Option<u64>,
    pub ongoing_batch: Option<BlockRange>,
    pub estimated_syncing_window_end: Option<u64>,
}

/// The syncer's invariant against the store: once the subjective head is
/// known, every stored height lies at or below it and any ongoing batch
/// ends at or below it; before that, no batch is ongoing.
pub open spec fn syncer_inv(w: SyncerWorker, store: Store) -> bool {
    match w.subjective_head_height {
        Some(hh) => {
            &&& forall|h: u64| #[trigger] store.spec_has_height(h) ==> h <= hh
            &&& match w.ongoing_batch {
                Some(b) => b.wf() && b.end <= hh,
                None => true,
            }
        },
        None => w.ongoing_batch is None,
    }
}

/// The subjective head, or 0 before initialization.
pub open spec fn spec_head_or_zero(w: SyncerWorker) -> u64 {
    match w.subjective_head_height {
        Some(h) => h,
        None => 0,
    }
}

impl SyncerWorker {
    /// A fresh worker: uninitialized, with nothing ongoing.
    pub fn new() -> (r: SyncerWorker)
        ensures
            r.subjective_head_height is None,
            r.ongoing_batch is None,
            r.estimated_syncing_window_end is None,
    {
        SyncerWorker {
            subjective_head_height: None,
            ongoing_batch: None,
            estimated_syncing_window_end: None,
        }
    }

    /// The current synchronization snapshot.
    pub fn syncing_info(&self, store: &Store) -> (r: SyncingInfo)
        requires
            store.wf(),
        ensures
            r.stored_headers@ == store.ranges_view(),
            r.subjective_head == spec_head_or_zero(*self),
    {
        SyncingInfo {
            stored_headers: store.stored_header_ranges(),
            subjective_head: match self.subjective_head_height {
                Some(h) => h,
                None => 0,
            },
        }
    }

    /// Raise the subjective head to `height`, never lowering it.
    pub fn set_subjective_head_height(&mut self, height: u64)
        ensures
            final(self).subjective_head_height == Some(
                if spec_head_or_zero(*old(self)) >= height {
                    spec_head_or_zero(*old(self))
                } else {
                    height
                },
            ),
            spec_head_or_zero(*final(self)) >= spec_head_or_zero(*old(self)),
            final(self).ongoing_batch == old(self).ongoing_batch,
            final(self).estimated_syncing_window_end == old(self).estimated_syncing_window_end,
    {
        if let Some(old_height) = self.subjective_head_height {
            if height <= old_height {
                return ;
            }
        }
        self.subjective_head_height = Some(height);
    }

    /// Initialize against the network: insert the discovered head into the
    /// store and raise the subjective head to its height. On a store
    /// failure the head stays untouched and the caller retries.
    pub fn try_init(&mut self, store: &mut Store, network_head: Header) -> (r: Result<
        u64,
        SyncerError,
    >)
        requires
            old(store).wf(),
            network_head@.wf(),
            syncer_inv(*old(self), *old(store)),
        ensures
            final(store).wf(),
            // Initialization keeps the invariant unless a lagging network
            // head sits below heights already stored before the head was
            // ever known.
            (old(self).subjective_head_height is Some || forall|g: u64|
                #[trigger] old(store).spec_has_height(g) ==> g <= network_head@.height)
                ==> syncer_inv(*final(self), *final(store)),
            spec_head_or_zero(*final(self)) >= spec_head_or_zero(*old(self)),
            r is Ok <==> old(store).insert_acceptable(seq![network_head@]),
            match r {
                Ok(h) => {
                    &&& h == network_head@.height
                    &&& final(store).spec_has_height(h)
                    &&& final(store).lookup(h) == network_head@
                    &&& forall|g: u64|
                        final(store).spec_has_height(g) <==> (old(store).spec_has_height(g) || g
                            == h)
                    &&& spec_head_or_zero(*final(self)) == if spec_head_or_zero(*old(self)) >= h {
                        spec_head_or_zero(*old(self))
                    } else {
                        h
                    }
                },
                Err(_) => {
                    &&& *final(store) == *old(store)
                    &&& *final(self) == *old(self)
                },
            },
    {
        let height = network_head.height();
        let ghost hv = network_head@;
        let mut batch: Vec<Header> = Vec::new();
        batch.push(network_head);
        proof {
            assert(crate::header::header_views(batch@) =~= seq![hv]);
        }
        match store.insert(batch) {
            Ok(()) => {
                proof {
                    let b = seq![hv];
                    assert(b[0] == hv && b.len() == 1);
                }
                self.set_subjective_head_height(height);
                proof {
                    if old(self).subjective_head_height is Some || (forall|g: u64|
                        #[trigger] old(store).spec_has_height(g) ==> g <= hv.height) {
                        assert forall|g: u64|
                            #[trigger] store.spec_has_height(g) implies g <= spec_head_or_zero(
                            *self,
                        ) by {
                            if old(store).spec_has_height(g) {
                                match old(self).subjective_head_height {
                                    Some(hh) => {
                                        assert(g <= hh);
                                    },
                                    None => {
                                        assert(g <= hv.height);
                                    },
                                }
                            } else {
                                assert(g == height);
                            }
                        }
                    }
                }
                Ok(height)
            },
            Err(e) => Err(SyncerError::Store(e)),
        }
    }

    /// Ingest a head announced on the gossip network: raise the subjective
    /// head, and append the header when it sits directly on the stored
    /// head; non-adjacent heads are left to the gap-filling path.
    pub fn on_header_sub_message(&mut self, store: &mut Store, new_head: Option<Header>) -> (r:
        Option<NodeEvent>)
        requires
            old(store).wf(),
            match new_head {
                Some(h) => h@.wf(),
                None => true,
            },
            syncer_inv(*old(self), *old(store)),
        ensures
            final(store).wf(),
            syncer_inv(*final(self), *final(store)),
            spec_head_or_zero(*final(self)) >= spec_head_or_zero(*old(self)),
            final(self).ongoing_batch == old(self).ongoing_batch,
            final(self).estimated_syncing_window_end == old(self).estimated_syncing_window_end,
            // The subjective head is raised exactly to the announced height.
            match (old(self).subjective_head_height, new_head) {
                (Some(hh), Some(h)) => final(self).subjective_head_height == Some(
                    if hh >= h@.height {
                        hh
                    } else {
                        h@.height
                    },
                ),
                _ => *final(self) == *old(self),
            },
            // The header is appended, with its event, exactly when it sits
            // directly on the stored head and the store accepts it.
            match (old(self).subjective_head_height, new_head) {
                (Some(hh), Some(h)) => {
                    &&& (r is Some <==> (old(store).headers_view().len() > 0 && old(
                        store,
                    ).spec_head_height() + 1 == h@.height && old(store).insert_acceptable(
                        seq![h@],
                    )))
                    &&& (r matches Some(ev) ==> (ev matches
                        NodeEvent::AddedHeaderFromHeaderSub { height } && height == h@.height))
                    &&& (r is Some ==> {
                        &&& forall|g: u64|
                            final(store).spec_has_height(g) <==> (old(store).spec_has_height(g)
                                || g == h@.height)
                        &&& forall|g: u64|
                            old(store).spec_has_height(g) ==> final(store).lookup(g) == old(
                                store,
                            ).lookup(g)
                        &&& final(store).lookup(h@.height) == h@
                    })
                    &&& (r is None ==> *final(store) == *old(store))
                },
                _ => r is None && *final(store) == *old(store),
            },
    {
        // Before the subjective head is known, announcements are ignored
        // to avoid edge cases during initialization.
        if self.subjective_head_height.is_none() {
            return None;
        }
        let new_head = match new_head {
            Some(h) => h,
            None => {
                return None;
            },
        };
        let ghost hv = new_head@;
        let new_head_height = new_head.height();
        self.set_subjective_head_height(new_head_height);
        match store.head_height() {
            Ok(store_head_height) => {
                if store_head_height < u64::MAX && store_head_height + 1 == new_head_height {
                    let mut batch: Vec<Header> = Vec::new();
                    batch.push(new_head);
                    proof {
                        assert(crate::header::header_views(batch@) =~= seq![hv]);
                    }
                    match store.insert(batch) {
                        Ok(()) => {
                            proof {
                                let b = seq![hv];
                                assert(b[0] == hv && b.len() == 1);
                            }
                            Some(NodeEvent::AddedHeaderFromHeaderSub { height: new_head_height })
                        },
                        Err(_) => None,
                    }
                } else {
                    None
                }
            },
            Err(_) => None,
        }
    }

    /// Schedule the next batch to fetch, if any: the topmost gap below the
    /// subjective head, clipped to the batch bound and the syncing window.
    /// Records the window's edge instead when the header right above the
    /// candidate batch already falls outside the window.
    pub fn fetch_next_batch(&mut self, store: &Store, num_connected_peers: u64, now: u64) -> (r:
        Option<BlockRange>)
        requires
            store.wf(),
            syncer_inv(*old(self), *store),
        ensures
            syncer_inv(*final(self), *store),
            final(self).subjective_head_height == old(self).subjective_head_height,
            match r {
                Some(b) => {
                    &&& old(self).ongoing_batch is None
                    &&& num_connected_peers > 0
                    &&& final(self).ongoing_batch == Some(b)
                    &&& final(self).estimated_syncing_window_end == old(
                        self,
                    ).estimated_syncing_window_end
                    &&& Some(b) == spec_calculate_range_to_fetch(
                        spec_head_or_zero(*old(self)),
                        store.ranges_view(),
                        old(self).estimated_syncing_window_end,
                        MAX_HEADERS_IN_BATCH,
                    )
                    &&& b.wf()
                    &&& b.end <= spec_head_or_zero(*old(self))
                    &&& b.spec_len() <= MAX_HEADERS_IN_BATCH
                    &&& forall|h: u64| b.start <= h <= b.end ==> !store.spec_has_height(h)
                    &&& (b.end < u64::MAX && store.spec_has_height((b.end + 1) as u64)
                        ==> spec_in_syncing_window(store.lookup((b.end + 1) as u64).time, now))
                },
                None => {
                    &&& final(self).ongoing_batch == old(self).ongoing_batch
                    &&& (old(self).ongoing_batch is Some || num_connected_peers == 0 || old(
                        self,
                    ).subjective_head_height is None ==> *final(self) == *old(self))
                    &&& (old(self).ongoing_batch is None && num_connected_peers > 0 && old(
                        self,
                    ).subjective_head_height is Some
                        ==> match spec_calculate_range_to_fetch(
                        spec_head_or_zero(*old(self)),
                        store.ranges_view(),
                        old(self).estimated_syncing_window_end,
                        MAX_HEADERS_IN_BATCH,
                    ) {
                        Some(b) => b.end < u64::MAX && store.spec_has_height((b.end + 1) as u64)
                            && !spec_in_syncing_window(
                            store.lookup((b.end + 1) as u64).time,
                            now,
                        ) && final(self).estimated_syncing_window_end == Some(
                            store.lookup((b.end + 1) as u64).height,
                        ),
                        None => *final(self) == *old(self),
                    })
                },
            },
    {
        if self.ongoing_batch.is_some() {
            // Batches are never parallelized by design.
            return None;
        }
        if num_connected_peers == 0 {
            // No connected peers; recovery happens at the event loop.
            return None;
        }
        let subjective_head_height = match self.subjective_head_height {
            Some(h) => h,
            None => {
                return None;
            },
        };
        let store_ranges = store.stored_header_ranges();
        let next_batch = match calculate_range_to_fetch(
            subjective_head_height,
            &store_ranges,
            self.estimated_syncing_window_end,
            MAX_HEADERS_IN_BATCH,
        ) {
            Some(b) => b,
            None => {
                // Fully synced down to the window's edge.
                return None;
            },
        };
        // Stop at the syncing window: if the known header right above the
        // batch already fell out of the window, remember that edge and do
        // not reach further into the past.
        if next_batch.end < u64::MAX {
            match store.get_by_height(next_batch.end + 1) {
                Ok(known_header) => {
                    if !in_syncing_window(&known_header, now) {
                        self.estimated_syncing_window_end = Some(known_header.height());
                        return None;
                    }
                },
                Err(_) => {},
            }
        }
        self.ongoing_batch = Some(next_batch);
        Some(next_batch)
    }

    /// Consume the result of the ongoing batch: insert fetched headers into
    /// the store and report the outcome.
    pub fn on_fetch_next_batch_result(
        &mut self,
        store: &mut Store,
        res: Result<Vec<Header>, P2pError>,
        took_ms: u64,
    ) -> (r: Option<NodeEvent>)
        requires
            old(store).wf(),
            syncer_inv(*old(self), *old(store)),
            match res {
                Ok(headers) => forall|i: int|
                    0 <= i < headers@.len() ==> (#[trigger] headers@[i]@).wf(),
                Err(_) => true,
            },
        ensures
            final(store).wf(),
            final(self).subjective_head_height == old(self).subjective_head_height,
            final(self).estimated_syncing_window_end == old(self).estimated_syncing_window_end,
            final(self).ongoing_batch is None,
            old(self).ongoing_batch is None ==> (r is None && *final(store) == *old(store)
                && *final(self) == *old(self)),
            // With a reply whose headers fill exactly the requested batch,
            // as the exchange client guarantees, the invariant is kept.
            match (old(self).ongoing_batch, res) {
                (Some(b), Ok(headers)) => {
                    let hs = crate::header::header_views(headers@);
                    (hs.len() == b.spec_len() && forall|i: int|
                        0 <= i < hs.len() ==> (#[trigger] hs[i]).height == b.start + i)
                        ==> syncer_inv(*final(self), *final(store))
                },
                _ => syncer_inv(*final(self), *final(store)) && *final(store) == *old(store),
            },
            // Exactly which event is emitted and what the store becomes,
            // in every case.
            match (old(self).ongoing_batch, res) {
                (None, _) => r is None,
                (Some(b), Err(e)) => {
                    &&& *final(store) == *old(store)
                    &&& r matches Some(
                        NodeEvent::FetchingHeadersFailed { from_height, to_height, error, took_ms: t },
                    ) && from_height == b.start && to_height == b.end && t == took_ms && (
                    error matches SyncerError::P2p(pe) && pe == e)
                },
                (Some(b), Ok(headers)) => {
                    let hs = crate::header::header_views(headers@);
                    if old(store).insert_acceptable(hs) {
                        &&& r matches Some(
                            NodeEvent::FetchingHeadersFinished { from_height, to_height, took_ms: t },
                        ) && from_height == b.start && to_height == b.end && t == took_ms
                        &&& forall|g: u64|
                            final(store).spec_has_height(g) <==> (old(store).spec_has_height(g)
                                || (hs.len() > 0 && hs[0].height <= g <= hs[hs.len() - 1].height))
                        &&& forall|g: u64|
                            old(store).spec_has_height(g) ==> final(store).lookup(g) == old(
                                store,
                            ).lookup(g)
                        &&& forall|i: int|
                            0 <= i < hs.len() ==> final(store).lookup((#[trigger] hs[i]).height)
                                == hs[i]
                    } else {
                        &&& *final(store) == *old(store)
                        &&& r matches Some(
                            NodeEvent::FetchingHeadersFailed { from_height, to_height, error, took_ms: t },
                        ) && from_height == b.start && to_height == b.end && t == took_ms && (
                        error matches SyncerError::Store(_))
                    }
                },
            },
    {
        let ongoing = match self.ongoing_batch {
            Some(b) => b,
            None => {
                // No batch was scheduled; discard the stray result.
                return None;
            },
        };
        self.ongoing_batch = None;
        let from_height = ongoing.start;
        let to_height = ongoing.end;
        let headers = match res {
            Ok(headers) => headers,
            Err(e) => {
                return Some(
                    NodeEvent::FetchingHeadersFailed {
                        from_height,
                        to_height,
                        error: SyncerError::P2p(e),
                        took_ms,
                    },
                );
            },
        };
        let ghost hs = crate::header::header_views(headers@);
        match store.insert(headers) {
            Ok(()) => {
                proof {
                    if hs.len() == ongoing.spec_len() && (forall|i: int|
                        0 <= i < hs.len() ==> (#[trigger] hs[i]).height == ongoing.start + i) {
                        assert forall|g: u64|
                            #[trigger] store.spec_has_height(g) implies g <= spec_head_or_zero(
                            *self,
                        ) by {
                            if !old(store).spec_has_height(g) {
                                assert(hs.len() > 0);
                                assert(hs[0].height == ongoing.start);
                                assert(hs[hs.len() - 1].height == ongoing.start + hs.len() - 1);
                            }
                        }
                    }
                }
                Some(NodeEvent::FetchingHeadersFinished { from_height, to_height, took_ms })
            },
            Err(e) => Some(
                NodeEvent::FetchingHeadersFailed {
                    from_height,
                    to_height,
                    error: SyncerError::Store(e),
                    took_ms,
                },
            ),
        }
    }

    /// Abandon the ongoing batch, as happens when every peer disconnects
    /// or the worker stops.
    pub fn cancel_ongoing(&mut self)
        ensures
            final(self).ongoing_batch is None,
            final(self).subjective_head_height == old(self).subjective_head_height,
            final(self).estimated_syncing_window_end == old(self).estimated_syncing_window_end,
    {
        self.ongoing_batch = None;
    }
}

/// Repeated identical info queries while idle return identical snapshots:
/// any two snapshots of the same worker and store agree.
pub proof fn lemma_info_snapshots_agree(
    w: SyncerWorker,
    store: Store,
    a: SyncingInfo,
    b: SyncingInfo,
)
    requires
        a.stored_headers@ == store.ranges_view(),
        a.subjective_head == spec_head_or_zero(w),
        b.stored_headers@ == store.ranges_view(),
        b.subjective_head == spec_head_or_zero(w),
    ensures
        a.stored_headers@ == b.stored_headers@,
        a.subjective_head == b.subjective_head,
{
}

} // verus!
