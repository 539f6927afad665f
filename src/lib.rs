//! A single-instrument limit order matching engine: an arena-backed order
//! book with per-level FIFO queues, price-time matching with self-trade
//! prevention, the cursor protocol of a single-producer/single-consumer
//! ring, a checksummed append-only command log, snapshots of resting
//! orders, and recovery from snapshot plus log.

pub mod order;
pub mod arena;
pub mod book;
pub mod matching;
pub mod protocol;
pub mod wal;
pub mod snapshot;
pub mod recovery;
pub mod ring;
