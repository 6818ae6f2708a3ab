//! An embedded, ordered key-value store organised as a log-structured merge tree.
//!
//! Every executable function carries a contract over a mathematical model of the
//! data it touches, and Verus proves each body against its contract.

pub mod keys;
pub mod types;
pub mod text;
pub mod model;
pub mod memtable;
pub mod engine;
pub mod config;
pub mod args;
pub mod metrics;
pub mod query;
pub mod etl;
pub mod laws;
pub mod cli;

pub use args::{Cli, Commands};
pub use config::DatabaseConfig;
pub use memtable::MemTable;
pub use metrics::PerformanceMetrics;
pub use types::{DbError, DbResult, Record, Value, WALEntry};
