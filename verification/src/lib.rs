//! An approximate-match index for sequences of symbols.
//!
//! A [`bktree::BkTree`] stores entries in a metric tree (BK-tree): each
//! node keeps its children ordered by their distance to the node's own
//! entry, so a radius query can prune whole subtrees with the triangle
//! inequality.  The distance functions live in [`dist`] (generic over the
//! symbol type) and [`bkdist`] (over character strings), and a
//! [`bkgraph::BkGraph`] shards many trees by entry length, translating the
//! query radius per shard.

pub mod bkdist;
pub mod bkgraph;
pub mod bknode;
pub mod bktree;
pub mod diff;
pub mod dist;
pub mod laws;
pub mod metric;
pub mod symbol;
pub mod word_function;
