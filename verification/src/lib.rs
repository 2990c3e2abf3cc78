//! Bookkeeping of a transaction pipeline: the indexes of a mempool, the chunks that transactions are
//! committed and served in, and the decisions of a shard that executes them.

pub mod bencher;
pub mod calendar;
pub mod chunk_to_commit;
pub mod chunking;
pub mod clock;
pub mod decimal;
pub mod grpc_client;
pub mod multi_bucket;
pub mod order;
pub mod parking_lot;
pub mod priority_index;
pub mod sharded_executor;
pub mod state_update;
pub mod timeline_index;
pub mod timestamp;
pub mod transaction;
pub mod ttl_index;
pub mod wire;
