//! A transaction pool ("mempool") core for a blockchain node, with the
//! network-message counters that its node reports.
//!
//! Everything here is plain, synchronous logic: adapters, transport and the
//! async runtime are driven by callers, who hand the results back in.

pub mod metrics;
pub mod types;
pub mod pool;
pub mod mempool;
pub mod sync;
