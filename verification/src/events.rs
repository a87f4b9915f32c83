//! Node events published to subscribers while the core works.

use vstd::prelude::*;

use crate::pruner::PrunerError;
use crate::syncer::SyncerError;

verus! {

/// The user-visible events of the core: head discovery, per-batch
/// outcomes, live header ingestion, and fatal pruner failures.
#[derive(Debug)]
#[allow(inconsistent_fields)]
pub enum NodeEvent {
    FetchingHeadHeaderStarted,
    FetchingHeadHeaderFinished { height: u64, took_ms: u64 },
    FetchingHeadersStarted { from_height: u64, to_height: u64 },
    FetchingHeadersFinished { from_height: u64, to_height: u64, took_ms: u64 },
    FetchingHeadersFailed { from_height: u64, to_height: u64, error: SyncerError, took_ms: u64 },
    AddedHeaderFromHeaderSub { height: u64 },
    FatalPrunerError { error: PrunerError },
}

} // verus!
