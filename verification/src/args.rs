//! What the command line can ask for.

use vstd::prelude::*;

verus! {

/// The arguments of one run of the program.
#[derive(Debug)]
pub struct Cli {
    pub command: Commands,
    /// Where the configuration file lies.
    pub config: String,
    pub verbose: bool,
}

/// The commands of the program.
#[derive(Debug)]
#[allow(inconsistent_fields)]
pub enum Commands {
    Interactive,
    Load {
        file: String,
        key_column: String,
        value_column: String,
        threads: Option<usize>,
        batch_size: Option<usize>,
    },
    Query { sql: String, format: String, limit: Option<usize> },
    Benchmark { bench_type: String, operations: usize, threads: usize },
    Stats { live: bool, interval: usize },
    Maintenance { operation: MaintenanceOps },
    InitConfig { output: String },
}

/// What maintenance can do.
#[derive(Debug, Clone, Copy, PartialEq, Eq, Structural)]
pub enum MaintenanceOps {
    CompactAll,
    Vacuum,
    Verify,
    Info,
}

} // verus!
