//! Coprocessor core of a transactional key-value store: MySQL-compatible time
//! values, row-key and row-value codecs, a snapshot scanner with a table scan
//! executor over it, an expression evaluator over rows of datums, and the
//! region helpers of the replication layer.

pub mod error;
pub mod calendar;
pub mod types;
pub mod time;
pub mod parse;
pub mod render;
pub mod roundtrip;
pub mod convert;
pub mod keys;
pub mod row;
pub mod scan;
pub mod table_scan;
pub mod datum;
pub mod eval;
pub mod region;
