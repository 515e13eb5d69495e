//! A small relational query engine: it plans a query over the tables of a
//! database, reads their rows from a block device, and hands the result rows
//! to a consumer, within a memory limit.

pub mod bag;
pub mod bytes;
pub mod catalog;
pub mod data;
pub mod error;
pub mod estimation;
pub mod executor;
pub mod float;
pub mod io;
pub mod laws;
pub mod monitor_client;
pub mod number;
pub mod optimizer;
pub mod query;
pub mod query_support;
pub mod row;
pub mod scan_pipeline;
pub mod selectivity;
pub mod semantics;
pub mod storage;
pub mod text;
