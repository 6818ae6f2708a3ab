//! The storage engine: Bloom filters, sorted tables, the write-ahead log, the
//! level manager, the compactor and the tree that coordinates them.

pub mod bloom;
pub mod codec;
pub mod wal;
pub mod naming;
pub mod naming_laws;
pub mod sstable;
pub mod lookup;
pub mod level;
pub mod leveled_compaction;
pub mod merge_laws;
pub mod lsm;
pub mod manifest;
pub mod recovery_laws;
pub mod compaction;

pub use bloom::BloomFilter;
pub use compaction::Compactor;
pub use wal::WAL;
pub use sstable::SSTable;
pub use level::{LevelManager, LevelManagerStats, LevelStats};
pub use leveled_compaction::LeveledCompactor;
pub use lsm::{CompactionMessage, LSMConfig, LSMStats, LSMTree};
