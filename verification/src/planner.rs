//! The kinds of operation that a query asks for.

use vstd::prelude::*;
use crate::btrees::BPlusTree;

verus! {

/// What a query does to a tree.
#[derive(Debug)]
pub enum Operation {
    Insert(),
    Delete(),
    Update(),
    Read(),
}

/// A query that is ready to run: the operation and the tree that it runs on.
#[derive(Debug)]
pub struct QueryExecutor {
    pub operation: Operation,
    pub bplustree: BPlusTree,
}

} // verus!
