//! Rolling time-series aggregates over an additive key/value store.
//!
//! Each metric write adds to three keys at once: an all-time total, the current
//! day bucket and the current hour bucket; a write first deletes the entity's
//! previous day and hour buckets. Store deltas are decoded back from the
//! colon-delimited keys into output-record updates.
//!
//! - `decimal`, `text`: decimal text of integers; splitting and joining text.
//! - `keys`: the key format, bucket arithmetic, the keys of a write and the
//!   prefixes it evicts.
//! - `store`: `TimeSeriesStore`, which sends those operations to the store.
//! - `backend`: the accumulator store with the log of what was sent to it.
//! - `accumulator`: the store's contents as a map, with the laws of additivity
//!   and of one-bucket-lag eviction.
//! - `record`: decoding keys into record updates, and the key round trip.
//! - `table`: the attribute writes of a record update, output records as a map,
//!   and idempotent replay of a delta stream.

use vstd::prelude::*;

pub mod decimal;
pub mod text;
pub mod keys;
pub mod record;
pub mod store;
pub mod backend;
pub mod accumulator;
pub mod table;

verus! {

} // verus!
