//! The exchange of batches between workers.

pub mod gather;
pub mod shard;
