//! Core of an incremental dataflow runtime over Z-sets: ordered keys, weights
//! that form an abelian group, consolidation kernels, layered trie storage,
//! time-indexed batches and the operators that run over them.

pub mod order;
pub mod algebra;
pub mod zset;
pub mod time;
pub mod trace;
pub mod circuit;
pub mod operator;
pub mod nexmark;
