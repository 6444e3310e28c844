//! The queries.

pub mod q17;
