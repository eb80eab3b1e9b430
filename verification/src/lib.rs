//! A single-file-per-table storage engine: fixed-size pages, a buffer pool over
//! a paged table file, and a B+ tree index on top of the pool.

pub mod bytes;
pub mod error;
pub mod pages;
pub mod node;
pub mod codec;
pub mod engine;
pub mod buffer_manager;
pub mod store;
pub mod btrees;
pub mod execute;
pub mod planner;
pub mod protocols;
pub mod parser;
pub mod order;
pub mod shape;
pub mod grow;
pub mod shrink;
pub mod balance;
pub mod laws;
pub mod value;
