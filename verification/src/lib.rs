//! Core of a data-availability light node: a header exchange client, a
//! syncer that drives a local header store toward the network head, and a
//! pruner that trims headers falling outside the retention window.

pub mod axis;
pub mod block_ranges;
pub mod bytes;
pub mod cids;
pub mod events;
pub mod exchange;
pub mod header;
pub mod peer_tracker;
pub mod pruner;
pub mod row;
pub mod rsmt2d;
pub mod sample;
pub mod store;
pub mod syncer;
