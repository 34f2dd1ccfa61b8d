//! A persistent multi-topic priority message broker: per-topic scheduling of
//! ready and delayed deliveries, leases, and durable recovery.
pub mod codec;
pub mod kv;
pub mod laws;
pub mod multi_queue;
pub mod priority_queue;
pub mod utils;
pub mod worker;
