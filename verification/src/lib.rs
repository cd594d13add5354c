//! In-memory core of a latch-free, log-structured ordered key-value store
//! organized as a Bw-tree: every node is a chain of immutable delta pages
//! ending in a base page, and all modifications are published by a
//! compare-and-swap against a logical page id in a mapping table.

use vstd::prelude::*;

pub mod base;
pub mod btree;
pub mod data;
pub mod data_page;
pub mod epoch;
pub mod error;
pub mod iter;
pub mod page;
pub mod pagecache;
pub mod pagestore;
pub mod pagetable;

verus! {

/// Options recognized by the tree engine.
pub struct Options {
    /// Chain length at which a leaf triggers consolidation.
    pub data_delta_length: u8,
    /// Leaf base-page byte threshold triggering a split.
    pub data_node_size: usize,
    /// Index base-page byte threshold triggering a split.
    pub index_node_size: usize,
}

impl Options {
    pub fn new() -> (r: Options)
        ensures
            r.data_delta_length == 8,
            r.data_node_size == 4096,
            r.index_node_size == 4096,
    {
        Options { data_delta_length: 8, data_node_size: 4096, index_node_size: 4096 }
    }
}

} // verus!
