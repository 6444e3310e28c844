//! Batches of updates and the storage they are kept in.

pub mod consolidation;
pub mod layers;
pub mod ord;
pub mod spine_fueled;

pub use spine_fueled::Spine;
