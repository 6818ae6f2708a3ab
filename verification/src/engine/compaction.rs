//! The simple compactor: it merges tables into one.

use vstd::prelude::*;
use vstd::string::StringExecFns;
use crate::engine::leveled_compaction::{drop_tombstones, is_live, merge_tables, overlay};
use crate::engine::level::models_of;
use crate::engine::naming::{append_padded, padded};
use crate::engine::sstable::SSTable;
use crate::model::run_map;
use crate::types::DbResult;

verus! {

/// The number of tables from which on the simple compactor asks for a merge.
pub const COMPACTION_THRESHOLD: usize = 3;

/// The simple compactor.
#[derive(Debug)]
pub struct Compactor {
    data_dir: String,
}

/// The name of the table that the simple compactor writes under `output_id`.
pub open spec fn spec_compacted_name(output_id: nat) -> Seq<char> {
    "sstable_"@ + padded(output_id, 6) + "_compacted.sst"@
}

impl Compactor {
    pub closed spec fn spec_data_dir(&self) -> Seq<char> {
        self.data_dir@
    }

    pub fn new(data_dir: String) -> (r: Self)
        ensures
            r.spec_data_dir() == data_dir@,
    {
        Self { data_dir }
    }

    pub fn data_dir(&self) -> (r: &str)
        ensures
            r@ == self.spec_data_dir(),
    {
        self.data_dir.as_str()
    }

    /// Merges the tables into one table at level 0. Where several tables
    /// hold a key, the first of them counts; keys whose entry is a deletion
    /// are left out, so the tables must be all that the store holds.
    pub fn compact_sstables(&self, sstables: &Vec<SSTable>, output_id: u64) -> (r: DbResult<SSTable>)
        requires
            forall|i: int| 0 <= i < sstables@.len() ==> (#[trigger] sstables@[i]).wf(),
        ensures
            match r {
                Ok(t) => {
                    &&& t.wf()
                    &&& t@.level == 0
                    &&& t@.file_path == spec_compacted_name(output_id as nat)
                    &&& exists|merged: Seq<crate::types::Entry>|
                        #![trigger run_map(merged)]
                        crate::model::ascending(merged) && run_map(merged) == overlay(
                            models_of(sstables@),
                        ) && t@.records == merged.filter(is_live())
                },
                Err(_) => false,
            },
    {
        let merged = merge_tables(sstables);
        let ghost merged_e = crate::model::entries_of(merged@);
        let live = drop_tombstones(&merged);
        let mut name = String::from_str("sstable_");
        append_padded(&mut name, output_id, 6);
        name.append("_compacted.sst");
        let table = SSTable::from_run(name, live, 0);
        proof {
            assert(Seq::new(sstables@.len(), |i: int| sstables@[i]@) =~= models_of(sstables@));
            assert(crate::model::ascending(merged_e) && run_map(merged_e) == overlay(
                models_of(sstables@),
            ) && table@.records == merged_e.filter(is_live()));
        }
        Ok(table)
    }

    /// Whether so many tables ask for a merge.
    pub fn should_compact(&self, sstable_count: usize) -> (r: bool)
        ensures
            r == (sstable_count >= COMPACTION_THRESHOLD),
    {
        sstable_count >= COMPACTION_THRESHOLD
    }
}

} // verus!
