//! The options of the database as a whole: storage, loading, queries, logging.

use vstd::prelude::*;
use crate::engine::leveled_compaction::DEFAULT_MAX_SST_BYTES;
use crate::engine::lsm::LSMConfig;

verus! {

/// The options of the storage engine.
#[derive(Debug)]
pub struct StorageConfig {
    pub data_dir: String,
    pub memtable_size_limit: usize,
    pub enable_wal: bool,
    pub background_compaction: bool,
    pub compaction_interval_secs: u64,
}

/// The options of the loader.
#[derive(Debug)]
pub struct EtlConfig {
    pub batch_size: usize,
    pub parallel_threads: usize,
    pub delimiter: char,
    pub hash_headers: bool,
}

/// The options of the query layer.
#[derive(Debug, Clone, Copy)]
pub struct QueryConfig {
    pub enable_query_cache: bool,
    pub max_result_size: usize,
    pub query_timeout_secs: u64,
}

/// The options of logging.
#[derive(Debug)]
pub struct LoggingConfig {
    pub level: String,
    pub enable_performance_metrics: bool,
    pub log_file: Option<String>,
}

/// All options.
#[derive(Debug)]
pub struct DatabaseConfig {
    pub storage: StorageConfig,
    pub etl: EtlConfig,
    pub query: QueryConfig,
    pub logging: LoggingConfig,
}

impl Default for DatabaseConfig {
    fn default() -> (r: Self)
        ensures
            r.storage.data_dir@ == "data"@,
            r.storage.memtable_size_limit == 1000,
            r.storage.enable_wal,
            !r.storage.background_compaction,
            r.storage.compaction_interval_secs == 60,
            r.etl.batch_size == 1000,
            r.etl.parallel_threads == 4,
            r.etl.delimiter == ',',
            r.etl.hash_headers,
            r.query.enable_query_cache,
            r.query.max_result_size == 10000,
            r.query.query_timeout_secs == 30,
            r.logging.level@ == "info"@,
            !r.logging.enable_performance_metrics,
            r.logging.log_file is None,
    {
        DatabaseConfig {
            storage: StorageConfig {
                data_dir: "data".to_string(),
                memtable_size_limit: 1000,
                enable_wal: true,
                background_compaction: false,
                compaction_interval_secs: 60,
            },
            etl: EtlConfig {
                batch_size: 1000,
                parallel_threads: 4,
                delimiter: ',',
                hash_headers: true,
            },
            query: QueryConfig {
                enable_query_cache: true,
                max_result_size: 10000,
                query_timeout_secs: 30,
            },
            logging: LoggingConfig {
                level: "info".to_string(),
                enable_performance_metrics: false,
                log_file: None,
            },
        }
    }
}

/// Seconds as milliseconds, capped at what 64 bits hold.
pub open spec fn millis_of(secs: u64) -> u64 {
    if secs * 1000 > u64::MAX {
        u64::MAX
    } else {
        (secs * 1000) as u64
    }
}

impl DatabaseConfig {
    /// The options of the tree that these options ask for. What they do not
    /// name is left at the tree's defaults.
    pub fn to_lsm_config(&self) -> (r: LSMConfig)
        ensures
            r.memtable_size_limit == self.storage.memtable_size_limit,
            r.data_dir@ == self.storage.data_dir@,
            r.background_compaction == self.storage.background_compaction,
            r.background_compaction_interval == millis_of(self.storage.compaction_interval_secs),
            r.enable_wal == self.storage.enable_wal,
            r.l0_file_limit == 4,
            r.level_size_multiplier == 10,
            r.max_sst_bytes == DEFAULT_MAX_SST_BYTES,
    {
        let secs = self.storage.compaction_interval_secs;
        let interval: u64 = if secs > u64::MAX / 1000 {
            u64::MAX
        } else {
            secs * 1000
        };
        LSMConfig {
            memtable_size_limit: self.storage.memtable_size_limit,
            data_dir: self.storage.data_dir.clone(),
            background_compaction: self.storage.background_compaction,
            background_compaction_interval: interval,
            enable_wal: self.storage.enable_wal,
            l0_file_limit: 4,
            level_size_multiplier: 10,
            max_sst_bytes: DEFAULT_MAX_SST_BYTES,
        }
    }
}

} // verus!
