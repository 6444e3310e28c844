//! Batches stored in ordered layers.

pub mod indexed_zset_batch;
pub mod key_batch;
pub mod merge_batcher;
pub mod zset_batch;

pub use indexed_zset_batch::OrdIndexedZSet;
pub use key_batch::OrdKeyBatch;
pub use merge_batcher::MergeBatcher;
pub use zset_batch::OrdZSet;
