//! In-memory log sinks with bounded memory.
//!
//! [`buffer::RingBuffer`] keeps the most recent bytes written to it in a fixed
//! allocation, overwriting the oldest ones once its cursor wraps.
//! [`shard::LocalShard`] keeps timestamped lines of one producer under a byte
//! budget, and [`shard::merge_by_timestamp`] orders what several shards hold.
//! [`actor::Backend`] is the state of the thread that owns a ring buffer and
//! serves the messages of many producers.

pub mod actor;
pub mod buffer;
pub mod shard;

pub use buffer::RingBuffer;
