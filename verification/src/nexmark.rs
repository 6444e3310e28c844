//! Queries over a stream of auction events.

pub mod queries;
