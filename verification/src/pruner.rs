//! The pruner: evicts headers and their sampled block data from the tail
//! of the store once they fall outside the retention window.

use vstd::prelude::*;

use crate::bytes::bytes_eq;
use crate::exchange::P2pError;
use crate::store::{cids_view, Store, StoreError};
use crate::syncer::SYNCING_WINDOW_MS;

verus! {

/// Time between pruning passes, the estimated block production time.
pub const BLOCK_PRODUCTION_TIME_ESTIMATE_MS: u64 = 12 * 1000;

/// The retention window in milliseconds: one hour behind the syncing
/// window.
pub const PRUNING_WINDOW_MS: u64 = SYNCING_WINDOW_MS + 60 * 60 * 1000;

/// Errors that stop the pruner.
#[derive(Debug)]
pub enum PrunerError {
    /// An error of the exchange client.
    P2p(P2pError),
    /// An error of the store.
    Store(StoreError),
}

/// The content-addressed block data previously written by the sampling
/// subsystem, keyed by content identifier bytes.
pub struct Blockstore {
    blocks: Vec<(Vec<u8>, Vec<u8>)>,
}

impl Blockstore {
    pub closed spec fn keys(self) -> Seq<Seq<u8>> {
        self.blocks@.map_values(|e: (Vec<u8>, Vec<u8>)| e.0@)
    }

    pub open spec fn spec_has(self, cid: Seq<u8>) -> bool {
        key_in(self.keys(), cid)
    }

    /// An empty blockstore.
    pub fn new() -> (r: Blockstore)
        ensures
            r.keys() == Seq::<Seq<u8>>::empty(),
    {
        let r = Blockstore { blocks: Vec::new() };
        proof {
            assert(r.keys() =~= Seq::<Seq<u8>>::empty());
        }
        r
    }

    /// Store a block under its content identifier.
    pub fn put(&mut self, cid: Vec<u8>, data: Vec<u8>)
        ensures
            final(self).keys() == old(self).keys().push(cid@),
    {
        self.blocks.push((cid, data));
        proof {
            assert(self.keys() =~= old(self).keys().push(self.blocks@.last().0@));
        }
    }

    /// Whether a block is stored under this content identifier.
    pub fn has(&self, cid: &Vec<u8>) -> (r: bool)
        ensures
            r == self.spec_has(cid@),
    {
        let mut i: usize = 0;
        while i < self.blocks.len()
            invariant
                i <= self.keys().len(),
                forall|j: int| 0 <= j < i ==> #[trigger] self.keys()[j] != cid@,
            decreases self.keys().len() - i,
        {
            if bytes_eq(&self.blocks[i].0, cid) {
                assert(self.keys()[i as int] == cid@);
                return true;
            }
            i = i + 1;
        }
        false
    }

    /// Remove the blocks stored under this content identifier.
    pub fn remove(&mut self, cid: &Vec<u8>)
        ensures
            !final(self).spec_has(cid@),
            forall|c: Seq<u8>| c != cid@ ==> (final(self).spec_has(c) <==> old(self).spec_has(c)),
    {
        let mut i: usize = 0;
        while i < self.blocks.len()
            invariant
                i <= self.keys().len(),
                forall|j: int| 0 <= j < i ==> #[trigger] self.keys()[j] != cid@,
                forall|c: Seq<u8>|
                    c != cid@ ==> (key_in(self.keys(), c) <==> key_in(old(self).keys(), c)),
            decreases self.keys().len() - i,
        {
            if bytes_eq(&self.blocks[i].0, cid) {
                let ghost pre = self.keys();
                self.blocks.remove(i);
                proof {
                    assert(self.keys() =~= pre.remove(i as int));
                    lemma_key_in_remove(pre, i as int);
                    assert forall|j: int| 0 <= j < i implies #[trigger] self.keys()[j] != cid@ by {
                        assert(self.keys()[j] == pre[j]);
                    }
                }
            } else {
                i = i + 1;
            }
        }
        proof {
            if key_in(self.keys(), cid@) {
                let j = choose|j: int| 0 <= j < self.keys().len() && #[trigger] self.keys()[j] == cid@;
            }
        }
    }
}

/// Whether a key occurs in a list of keys.
pub open spec fn key_in(ks: Seq<Seq<u8>>, c: Seq<u8>) -> bool {
    exists|i: int| 0 <= i < ks.len() && #[trigger] ks[i] == c
}

/// A header is gone after a pass exactly when it and every stored header
/// below it had fallen outside the pruning window.
pub open spec fn prefix_pruned(s: Store, h: u64, cutoff: u64) -> bool {
    s.spec_has_height(h) && forall|g: u64|
        #[trigger] s.spec_has_height(g) && g <= h ==> s.lookup(g).time < cutoff
}

/// The start of the pruning window: anything with an older timestamp is
/// eligible for removal. Clamped to the epoch on underflow.
pub open spec fn spec_pruning_cutoff(now: u64) -> u64 {
    if now >= PRUNING_WINDOW_MS {
        (now - PRUNING_WINDOW_MS) as u64
    } else {
        0
    }
}

/// One pruning pass: pop headers off the tail of the store while their
/// time lies before the pruning window, removing their sampled block data
/// from the blockstore first. Afterwards the tail, if any, is inside the
/// window, and exactly the out-of-window prefix is gone.
#[verifier::rlimit(100)]
pub fn remove_headers_outside_pruning_window(
    store: &mut Store,
    blockstore: &mut Blockstore,
    now: u64,
) -> (r: Result<(), PrunerError>)
    requires
        old(store).wf(),
    ensures
        r is Ok,
        final(store).wf(),
        final(store).headers_view().len() > 0 ==> final(store).headers_view()[0].time
            >= spec_pruning_cutoff(now),
        forall|h: u64|
            final(store).spec_has_height(h) <==> (old(store).spec_has_height(h) && !prefix_pruned(
                *old(store),
                h,
                spec_pruning_cutoff(now),
            )),
        forall|h: u64|
            final(store).spec_has_height(h) ==> final(store).lookup(h) == old(store).lookup(h),
        // Sampling rows of surviving headers are untouched.
        forall|h: u64|
            final(store).spec_has_height(h) ==> final(store).metadata_at(h) == old(
                store,
            ).metadata_at(h),
        // The blockstore only shrinks, and the block data sampled for every
        // pruned header is gone from it.
        forall|c: Seq<u8>| final(blockstore).spec_has(c) ==> old(blockstore).spec_has(c),
        forall|h: u64|
            old(store).spec_has_height(h) && !final(store).spec_has_height(h) ==> (match old(
                store,
            ).metadata_at(h) {
                Some(cids) => forall|k: int|
                    0 <= k < cids.len() ==> !final(blockstore).spec_has(#[trigger] cids[k]),
                None => true,
            }),
{
    let ghost s0 = *old(store);
    let ghost b0 = *old(blockstore);
    let cutoff: u64 = if now >= PRUNING_WINDOW_MS {
        now - PRUNING_WINDOW_MS
    } else {
        0
    };
    loop
        invariant
            store.wf(),
            s0.wf(),
            cutoff == spec_pruning_cutoff(now),
            forall|h: u64|
                #[trigger] store.spec_has_height(h) ==> (s0.spec_has_height(h) && store.lookup(h)
                    == s0.lookup(h)),
            forall|h: u64|
                s0.spec_has_height(h) && !store.spec_has_height(h) ==> s0.lookup(h).time < cutoff,
            forall|h: u64, g: u64|
                s0.spec_has_height(g) && s0.spec_has_height(h) && g <= h && !(
                #[trigger] store.spec_has_height(h)) ==> !(#[trigger] store.spec_has_height(g)),
            forall|h: u64|
                #[trigger] store.spec_has_height(h) ==> store.metadata_at(h) == s0.metadata_at(h),
            forall|c: Seq<u8>| #[trigger] blockstore.spec_has(c) ==> b0.spec_has(c),
            forall|h: u64|
                s0.spec_has_height(h) && !store.spec_has_height(h) ==> (match s0.metadata_at(h) {
                    Some(cids) => forall|k: int|
                        0 <= k < cids.len() ==> !blockstore.spec_has(#[trigger] cids[k]),
                    None => true,
                }),
        ensures
            store.wf(),
            store.headers_view().len() == 0 || store.headers_view()[0].time >= cutoff,
            forall|h: u64|
                #[trigger] store.spec_has_height(h) ==> (s0.spec_has_height(h) && store.lookup(h)
                    == s0.lookup(h)),
            forall|h: u64|
                s0.spec_has_height(h) && !store.spec_has_height(h) ==> s0.lookup(h).time < cutoff,
            forall|h: u64, g: u64|
                s0.spec_has_height(g) && s0.spec_has_height(h) && g <= h && !(
                #[trigger] store.spec_has_height(h)) ==> !(#[trigger] store.spec_has_height(g)),
            forall|h: u64|
                #[trigger] store.spec_has_height(h) ==> store.metadata_at(h) == s0.metadata_at(h),
            forall|c: Seq<u8>| #[trigger] blockstore.spec_has(c) ==> b0.spec_has(c),
            forall|h: u64|
                s0.spec_has_height(h) && !store.spec_has_height(h) ==> (match s0.metadata_at(h) {
                    Some(cids) => forall|k: int|
                        0 <= k < cids.len() ==> !blockstore.spec_has(#[trigger] cids[k]),
                    None => true,
                }),
        decreases store.headers_view().len(),
    {
        let tail_height = match store.stored_header_ranges().tail() {
            Some(t) => t,
            None => {
                // An empty store leaves nothing to prune.
                proof {
                    if store.headers_view().len() > 0 {
                        store.lemma_lookup_at(0);
                        assert(store.spec_has_height(store.headers_view()[0].height));
                        assert(crate::block_ranges::ranges_contain(
                            store.ranges_view(),
                            store.headers_view()[0].height,
                        ));
                    }
                }
                break ;
            },
        };
        proof {
            // The lowest covered height is the lowest stored height.
            assert(crate::block_ranges::ranges_contain(store.ranges_view(), tail_height)) by {
                assert(store.ranges_view()[0].spec_contains(tail_height));
            }
            assert(store.spec_has_height(tail_height));
            let hv = store.headers_view();
            let j = store.spec_index_of(tail_height);
            assert(0 <= j < hv.len() && hv[j].height == tail_height);
            if j > 0 {
                store.lemma_heights_ordered(0, j);
            }
            store.lemma_lookup_at(0);
            assert(crate::block_ranges::ranges_contain(store.ranges_view(), hv[0].height));
            let ri = choose|ri: int|
                0 <= ri < store.ranges_view().len() && (
                #[trigger] store.ranges_view()[ri]).spec_contains(hv[0].height);
            if ri > 0 {
                crate::block_ranges::lemma_ranges_ordered(store.ranges_view(), 0, ri);
            }
            assert(store.ranges_view()[0].start <= store.ranges_view()[ri].start);
            assert(tail_height <= hv[0].height);
            assert(hv[0].height == tail_height);
            store.lemma_lookup_at(0);
        }
        let tail_header = match store.get_by_height(tail_height) {
            Ok(h) => h,
            Err(_) => {
                break ;
            },
        };
        if tail_header.time() >= cutoff {
            // The tail is inside the window: done for this pass.
            break ;
        }
        // Drop the block data sampled for this header, then the header.
        let ghost bmid = *blockstore;
        match store.get_sampling_metadata(tail_height) {
            Some(metadata) => {
                let n = metadata.cids.len();
                let mut ci: usize = 0;
                while ci < n
                    invariant
                        n == metadata.cids@.len(),
                        ci <= n,
                        forall|k: int|
                            0 <= k < ci ==> !blockstore.spec_has(
                                (#[trigger] metadata.cids@[k])@,
                            ),
                        forall|c: Seq<u8>|
                            #[trigger] blockstore.spec_has(c) ==> bmid.spec_has(c),
                    decreases n - ci,
                {
                    blockstore.remove(&metadata.cids[ci]);
                    ci = ci + 1;
                }
                proof {
                    assert forall|k: int|
                        0 <= k < cids_view(metadata.cids@).len() implies !blockstore.spec_has(
                        #[trigger] cids_view(metadata.cids@)[k],
                    ) by {
                        assert(cids_view(metadata.cids@)[k] == metadata.cids@[k]@);
                    }
                }
            },
            None => {},
        }
        proof {
            // The tail's sampled data is gone, and nothing was added.
            assert(store.spec_has_height(tail_height));
            assert(s0.metadata_at(tail_height) == store.metadata_at(tail_height));
            match s0.metadata_at(tail_height) {
                Some(cids) => {
                    assert forall|k: int|
                        0 <= k < cids.len() implies !blockstore.spec_has(#[trigger] cids[k]) by {}
                },
                None => {},
            }
        }
        let ghost pre = *store;
        match store.remove_last() {
            Ok(removed) => {
                proof {
                    assert(removed == tail_height);
                    lemma_prune_step(s0, pre, *store, tail_height, cutoff);
                }
            },
            Err(_) => {
                break ;
            },
        }
    }
    proof {
        lemma_prune_post(s0, *store, spec_pruning_cutoff(now));
    }
    Ok(())
}

/// Removing one expired tail keeps the pruning pass's invariant.
proof fn lemma_prune_step(s0: Store, pre: Store, cur: Store, t: u64, cutoff: u64)
    requires
        s0.wf(),
        pre.wf(),
        cur.wf(),
        pre.headers_view().len() > 0,
        t == pre.headers_view()[0].height,
        pre.spec_has_height(t),
        pre.lookup(t).time < cutoff,
        forall|h: u64|
            #[trigger] pre.spec_has_height(h) ==> (s0.spec_has_height(h) && pre.lookup(h)
                == s0.lookup(h)),
        forall|h: u64|
            s0.spec_has_height(h) && !pre.spec_has_height(h) ==> s0.lookup(h).time < cutoff,
        forall|h: u64, g: u64|
            s0.spec_has_height(g) && s0.spec_has_height(h) && g <= h && !(
            #[trigger] pre.spec_has_height(h)) ==> !(#[trigger] pre.spec_has_height(g)),
        forall|h: u64| cur.spec_has_height(h) <==> (pre.spec_has_height(h) && h != t),
        forall|h: u64| pre.spec_has_height(h) && h != t ==> cur.lookup(h) == pre.lookup(h),
    ensures
        forall|h: u64|
            #[trigger] cur.spec_has_height(h) ==> (s0.spec_has_height(h) && cur.lookup(h)
                == s0.lookup(h)),
        forall|h: u64|
            s0.spec_has_height(h) && !cur.spec_has_height(h) ==> s0.lookup(h).time < cutoff,
        forall|h: u64, g: u64|
            s0.spec_has_height(g) && s0.spec_has_height(h) && g <= h && !(
            #[trigger] cur.spec_has_height(h)) ==> !(#[trigger] cur.spec_has_height(g)),
{
    pre.lemma_lookup_at(0);
    assert forall|h: u64|
        s0.spec_has_height(h) && !cur.spec_has_height(h) implies s0.lookup(h).time < cutoff by {
        if pre.spec_has_height(h) {
            assert(h == t);
            assert(s0.lookup(t) == pre.lookup(t));
        }
    }
    assert forall|h: u64, g: u64|
        s0.spec_has_height(g) && s0.spec_has_height(h) && g <= h && !(
        #[trigger] cur.spec_has_height(h)) implies !(#[trigger] cur.spec_has_height(g)) by {
        if cur.spec_has_height(g) {
            assert(pre.spec_has_height(g) && g != t);
            assert(pre.spec_has_height(h) || !pre.spec_has_height(h));
            if pre.spec_has_height(h) {
                assert(h == t);
                // g <= t and g stored in pre and g != t: contradiction with
                // t being pre's lowest height.
                let j = pre.spec_index_of(g);
                pre.lemma_lookup_at(j);
                if j > 0 {
                    pre.lemma_heights_ordered(0, j);
                }
                assert(g >= t);
            } else {
                assert(!pre.spec_has_height(g));
            }
        }
    }
}

/// At the end of a pass exactly the out-of-window prefix is gone.
proof fn lemma_prune_post(s0: Store, s1: Store, cutoff: u64)
    requires
        s0.wf(),
        s1.wf(),
        s1.headers_view().len() == 0 || s1.headers_view()[0].time >= cutoff,
        forall|h: u64|
            #[trigger] s1.spec_has_height(h) ==> (s0.spec_has_height(h) && s1.lookup(h)
                == s0.lookup(h)),
        forall|h: u64|
            s0.spec_has_height(h) && !s1.spec_has_height(h) ==> s0.lookup(h).time < cutoff,
        forall|h: u64, g: u64|
            s0.spec_has_height(g) && s0.spec_has_height(h) && g <= h && !(
            #[trigger] s1.spec_has_height(h)) ==> !(#[trigger] s1.spec_has_height(g)),
    ensures
        forall|h: u64| s1.spec_has_height(h) <==> (s0.spec_has_height(h) && !prefix_pruned(s0, h, cutoff)),
{
    assert forall|h: u64|
        s1.spec_has_height(h) <==> (s0.spec_has_height(h) && !prefix_pruned(s0, h, cutoff)) by {
        if s1.spec_has_height(h) {
            // The surviving tail is a stored height at or below h whose
            // time sits inside the window.
            assert(s1.headers_view().len() > 0);
            let tv = s1.headers_view()[0];
            s1.lemma_lookup_at(0);
            assert(s1.spec_has_height(tv.height));
            assert(s0.spec_has_height(tv.height));
            assert(s0.lookup(tv.height) == s1.lookup(tv.height));
            assert(s0.lookup(tv.height).time >= cutoff);
            let j = s1.spec_index_of(h);
            s1.lemma_lookup_at(j);
            if j > 0 {
                s1.lemma_heights_ordered(0, j);
            }
            assert(tv.height <= h);
            assert(!prefix_pruned(s0, h, cutoff));
        }
        if s0.spec_has_height(h) && !prefix_pruned(s0, h, cutoff) {
            if !s1.spec_has_height(h) {
                // Everything at or below a pruned height is pruned and out
                // of the window, so h would satisfy the prefix condition.
                assert forall|g: u64|
                    #[trigger] s0.spec_has_height(g) && g <= h implies s0.lookup(g).time
                    < cutoff by {
                    assert(!s1.spec_has_height(g));
                }
                assert(prefix_pruned(s0, h, cutoff));
            }
        }
    }
}

/// Removing one entry leaves every other key's presence unchanged.
proof fn lemma_key_in_remove(ks: Seq<Seq<u8>>, p: int)
    requires
        0 <= p < ks.len(),
    ensures
        forall|c: Seq<u8>| c != ks[p] ==> (key_in(ks.remove(p), c) <==> key_in(ks, c)),
{
    let kr = ks.remove(p);
    assert forall|c: Seq<u8>| c != ks[p] implies (key_in(kr, c) <==> key_in(ks, c)) by {
        if key_in(kr, c) {
            let j = choose|j: int| 0 <= j < kr.len() && #[trigger] kr[j] == c;
            let o: int = if j < p {
                j
            } else {
                j + 1
            };
            assert(ks[o] == kr[j]);
        }
        if key_in(ks, c) {
            let j = choose|j: int| 0 <= j < ks.len() && #[trigger] ks[j] == c;
            assert(j != p);
            let o: int = if j < p {
                j
            } else {
                j - 1
            };
            assert(kr[o] == ks[j]);
        }
    }
}

} // verus!
