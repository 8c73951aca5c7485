//! An out-of-core query execution engine for TPC-H style data.
//!
//! The library holds the engine's logic: the value model and its ordering,
//! the on-disk row and block format, the buffer pool's cache and scratch
//! allocator, the relational operators, the planner, and the disk
//! simulator's bookkeeping.  Every exchange with another process (the disk
//! simulator's pipes, the monitor, files) is performed by the caller, which
//! hands the library plain values and performs the requests it returns.
pub mod buffer_pool;
pub mod bytes;
pub mod data;
pub mod row;
pub mod disk_run;
pub mod hash_join;
pub mod query;
pub mod catalog;
pub mod predicate;
pub mod sort;
pub mod plan;
pub mod planner;
pub mod runs;
pub mod engine;
pub mod executor;

pub mod text;
pub mod disk_manager;
pub mod disk_sim;
pub mod generator;
pub mod monitor;
pub mod cli;
pub mod workload;
pub mod stats;
