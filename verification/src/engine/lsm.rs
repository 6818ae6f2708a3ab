//! The tree: it takes writes into the table in memory and the log, flushes
//! full tables to level 0, answers reads from the newest layer down, and
//! starts compactions.

use vstd::prelude::*;
use crate::engine::codec::{can_store, storable};
use crate::engine::level::{all_tables, clamp_usize, lemma_placed, total_records, LevelManager};
use crate::engine::leveled_compaction::{
    all_live, id_after, lemma_id_after_sum, made_name, merged_down, named_by, LeveledCompactor,
    DEFAULT_MAX_SST_BYTES,
};
use crate::engine::naming::spec_level_name;
use crate::engine::recovery_laws::{
    lemma_falling_lookup, lemma_level_is_stretch, lemma_level_of_index, lemma_lookup_from_levels,
    lemma_same_tables_lookup, level_offset,
};
use crate::engine::naming_laws::{lemma_flush_name_parses, lemma_level_name_parses};
use crate::engine::lookup::{
    lemma_level_lookup_concat, lemma_lookup_from_agree, level_at, level_lookup, levels_apart,
    lookup_from, map_lookup, or_else, pairwise_apart, read, Found,
};
use crate::engine::merge_laws::lemma_lookup_from_unfold;
use vstd::string::StringExecFns;
use crate::engine::naming::{
    append_decimal, decimal, flush_name, has_table_suffix, is_table_name, parse_name, parse_name_bytes, spec_flush_name,
};
use crate::engine::codec::{dec_log, dec_run, lemma_log_entries_storable};
use crate::engine::lookup::ranges_meet;
use crate::engine::merge_laws::lemma_insert_apart;
use vstd::utf8::encode_utf8;
use vstd::string::StringSliceAdditionalSpecFns;
use crate::engine::sstable::{SSTable, TableModel};
use crate::engine::wal::{log_entries_of, WAL};
use crate::memtable::MemTable;
use crate::model::{ascending, clone_records, has_key, lemma_run_map_at, Layer};
use crate::types::{DbError, DbResult, Entry, Value, WALEntry};

verus! {

/// The options of a tree.
#[derive(Debug)]
pub struct LSMConfig {
    /// The number of keys in the table in memory at which it is flushed.
    pub memtable_size_limit: usize,
    /// The directory that holds the tables and the log.
    pub data_dir: String,
    /// Whether a worker compacts in the background.
    pub background_compaction: bool,
    /// The idle time of that worker between two checks, in milliseconds.
    pub background_compaction_interval: u64,
    /// Whether writes go to the log before they go to the table in memory.
    pub enable_wal: bool,
    /// The number of tables at level 0 at which level 0 is compacted.
    pub l0_file_limit: usize,
    /// How many times larger each level is than the level above it.
    pub level_size_multiplier: usize,
    /// The size in bytes beyond which a compaction starts another table.
    pub max_sst_bytes: u64,
}

impl Clone for LSMConfig {
    fn clone(&self) -> (r: Self)
        ensures
            r == *self,
    {
        LSMConfig {
            memtable_size_limit: self.memtable_size_limit,
            data_dir: self.data_dir.clone(),
            background_compaction: self.background_compaction,
            background_compaction_interval: self.background_compaction_interval,
            enable_wal: self.enable_wal,
            l0_file_limit: self.l0_file_limit,
            level_size_multiplier: self.level_size_multiplier,
            max_sst_bytes: self.max_sst_bytes,
        }
    }
}

impl Default for LSMConfig {
    fn default() -> (r: Self)
        ensures
            r.memtable_size_limit == 1000,
            r.data_dir@ == "data"@,
            r.background_compaction,
            r.background_compaction_interval == 10_000,
            r.enable_wal,
            r.l0_file_limit == 4,
            r.level_size_multiplier == 10,
            r.max_sst_bytes == DEFAULT_MAX_SST_BYTES,
    {
        LSMConfig {
            memtable_size_limit: 1000,
            data_dir: "data".to_string(),
            background_compaction: true,
            background_compaction_interval: 10_000,
            enable_wal: true,
            l0_file_limit: 4,
            level_size_multiplier: 10,
            max_sst_bytes: DEFAULT_MAX_SST_BYTES,
        }
    }
}

/// What the compaction worker can be told.
#[derive(Debug, Clone, Copy, PartialEq, Eq, Structural)]
pub enum CompactionMessage {
    /// Look whether a level is due, and compact the first that is.
    CheckCompaction,
    /// Stop.
    ShutDown,
}

/// Figures of a tree.
#[derive(Debug, Clone, Copy)]
pub struct LSMStats {
    pub memtable_entries: usize,
    pub sstable_count: usize,
    pub total_sstable_entries: usize,
    pub next_flush_at: usize,
}

/// The figures as one line of text.
pub open spec fn stats_text(stats: LSMStats) -> Seq<char> {
    "LSMTree Stats: MemTable: "@ + decimal(stats.memtable_entries as nat) + ", SSTables: "@
        + decimal(stats.sstable_count as nat) + " (total "@ + decimal(
        stats.total_sstable_entries as nat,
    ) + " entries), flush at "@ + decimal(stats.next_flush_at as nat)
}

impl LSMStats {
    /// The figures as one line of text.
    pub fn to_string(&self) -> (r: String)
        ensures
            r@ == stats_text(*self),
    {
        let mut out = String::from_str("LSMTree Stats: MemTable: ");
        append_decimal(&mut out, self.memtable_entries as u64);
        out.append(", SSTables: ");
        append_decimal(&mut out, self.sstable_count as u64);
        out.append(" (total ");
        append_decimal(&mut out, self.total_sstable_entries as u64);
        out.append(" entries), flush at ");
        append_decimal(&mut out, self.next_flush_at as u64);
        out
    }
}

/// The map that replaying log entries in order leaves behind.
pub open spec fn replay(es: Seq<Entry>) -> Layer
    decreases es.len(),
{
    if es.len() == 0 {
        Map::empty()
    } else {
        replay(es.drop_last()).insert(es.last().key, es.last().value)
    }
}

/// Every entry of the map can be stored.
pub open spec fn storable_map(m: Layer) -> bool {
    forall|k: Seq<char>| m.contains_key(k) ==> storable(Entry { key: k, value: #[trigger] m[k] })
}

/// The sequence number after `id`; after the largest comes 0.
pub open spec fn next_after(id: u64) -> u64 {
    if id == u64::MAX {
        0
    } else {
        (id + 1) as u64
    }
}

/// The number of tables in all levels.
pub open spec fn count_tables(levels: Seq<Seq<TableModel>>) -> nat
    decreases levels.len(),
{
    if levels.len() == 0 {
        0
    } else {
        count_tables(levels.drop_last()) + levels.last().len()
    }
}

/// The number of records in the tables of all levels.
pub open spec fn count_records(levels: Seq<Seq<TableModel>>) -> nat
    decreases levels.len(),
{
    if levels.len() == 0 {
        0
    } else {
        count_records(levels.drop_last()) + total_records(levels.last())
    }
}

/// The table that a file of the data directory holds: its name must spell
/// a level and a sequence number, and its bytes an ascending run of records.
pub open spec fn table_of_file(name: Seq<char>, bytes: Seq<u8>) -> Option<TableModel> {
    match parse_name_bytes(encode_utf8(name)) {
        Some((level, seq)) => match dec_run(bytes) {
            Some(run) => if ascending(run) && level <= usize::MAX && seq <= u64::MAX {
                Some(TableModel { file_path: name, level, records: run })
            } else {
                None
            },
            None => None,
        },
        None => None,
    }
}

/// The sequence number that the name of a table spells; 0 if it spells none.
pub open spec fn seq_of(t: TableModel) -> nat {
    match parse_name_bytes(encode_utf8(t.file_path)) {
        Some((_, seq)) => seq,
        None => 0,
    }
}

/// The file at `i` is a table file, and holds the table `t`.
pub open spec fn file_holds(files: Seq<(String, Vec<u8>)>, i: int, t: TableModel) -> bool {
    &&& 0 <= i < files.len()
    &&& is_table_name(encode_utf8(files[i].0@))
    &&& table_of_file(files[i].0@, files[i].1@) == Some(t)
}

/// Every table file holds a table.
pub open spec fn files_readable(files: Seq<(String, Vec<u8>)>) -> bool {
    forall|i: int|
        0 <= i < files.len() && is_table_name(encode_utf8(#[trigger] files[i].0@))
            ==> table_of_file(files[i].0@, files[i].1@) is Some
}

/// The levels hold the tables of the files, each at the level that its
/// name spells, and nothing else. Tables without records are left out.
pub open spec fn holds_files(levels: Seq<Seq<TableModel>>, files: Seq<(String, Vec<u8>)>) -> bool {
    forall|l: nat, t: TableModel|
        #![trigger level_at(levels, l).contains(t)]
        level_at(levels, l).contains(t) <==> t.level == l && t.records.len() > 0 && exists|i: int|
            file_holds(files, i, t)
}

/// Two different files hold tables of the same level below level 0 whose
/// key ranges have a key in common.
pub open spec fn files_overlap(files: Seq<(String, Vec<u8>)>) -> bool {
    exists|i: int, j: int, a: TableModel, b: TableModel|
        #![trigger file_holds(files, i, a), file_holds(files, j, b)]
        i != j && file_holds(files, i, a) && file_holds(files, j, b) && a.level == b.level
            && a.level >= 1 && a.records.len() > 0 && b.records.len() > 0 && ranges_meet(a, b)
}

/// The numbers of the tables fall strictly from each table to the next.
pub open spec fn falling(ts: Seq<TableModel>) -> bool {
    forall|i: int, j: int| 0 <= i < j < ts.len() ==> seq_of(#[trigger] ts[i]) > seq_of(#[trigger] ts[j])
}

/// Two different files hold tables of level 0 with the same number, so
/// that nothing tells the newer from the older.
pub open spec fn numbers_repeat(files: Seq<(String, Vec<u8>)>) -> bool {
    exists|i: int, j: int, a: TableModel, b: TableModel|
        #![trigger file_holds(files, i, a), file_holds(files, j, b)]
        i != j && file_holds(files, i, a) && file_holds(files, j, b) && a.level == 0 && b.level
            == 0 && a.records.len() > 0 && b.records.len() > 0 && seq_of(a) == seq_of(b)
}

/// Of the first `n` tables, those of one level below level 0 are apart, and
/// those of level 0 carry rising numbers.
pub open spec fn told_apart(tables: Seq<TableModel>, n: int) -> bool {
    forall|x: int, y: int|
        0 <= x < y < n && (#[trigger] tables[x]).level == (#[trigger] tables[y]).level ==> if tables[x].level
            == 0 {
            seq_of(tables[x]) < seq_of(tables[y])
        } else {
            !ranges_meet(tables[x], tables[y])
        }
}

/// The name of a table file spells the largest sequence number there is,
/// so that no number is left for the next table.
pub open spec fn numbers_exhausted(files: Seq<(String, Vec<u8>)>) -> bool {
    exists|i: int, t: TableModel|
        #![trigger file_holds(files, i, t)]
        file_holds(files, i, t) && seq_of(t) == u64::MAX
}

/// The bytes of the log that a tree is opened over; none where there is no log file.
pub open spec fn given_log(wal_bytes: Option<Vec<u8>>) -> Seq<u8> {
    match wal_bytes {
        Some(b) => b@,
        None => Seq::empty(),
    }
}

/// No number occurs twice in the sequence.
pub open spec fn distinct(s: Seq<int>) -> bool {
    forall|x: int, y: int| 0 <= x < s.len() && 0 <= y < s.len() && x != y ==> s[x] != s[y]
}

/// Moving one number from the second sequence to the end of the first
/// keeps the numbers of both together distinct, and the same.
pub proof fn lemma_move(to: Seq<int>, from: Seq<int>, m: int)
    requires
        0 <= m < from.len(),
        distinct(to + from),
    ensures
        distinct(to.push(from[m]) + from.remove(m)),
        forall|i: int| (to + from).contains(i) <==> (to.push(from[m]) + from.remove(m)).contains(i),
{
    let a = to + from;
    let b = to.push(from[m]) + from.remove(m);
    let n = to.len() as int;
    // where each position of `b` comes from in `a`
    let source = |x: int| if x < n { x } else if x == n { n + m } else if x <= n + m { x - 1 } else { x };
    assert forall|x: int| 0 <= x < b.len() implies 0 <= source(x) < a.len() && b[x] == a[source(
        x,
    )] by {}
    assert forall|x: int, y: int| 0 <= x < b.len() && 0 <= y < b.len() && x != y implies b[x]
        != b[y] by {
        assert(source(x) != source(y));
        assert(b[x] == a[source(x)] && b[y] == a[source(y)]);
    }
    assert forall|i: int| a.contains(i) <==> b.contains(i) by {
        if a.contains(i) {
            let x = choose|x: int| 0 <= x < a.len() && a[x] == i;
            let y = if x < n { x } else if x == n + m { n } else if x < n + m { x + 1 } else { x };
            assert(b[y] == i);
        }
        if b.contains(i) {
            let x = choose|x: int| 0 <= x < b.len() && b[x] == i;
            assert(a[source(x)] == i);
        }
    }
}

/// What a level holds after a table has entered it.
pub proof fn lemma_insert_contains(ts: Seq<TableModel>, p: int, t: TableModel)
    requires
        0 <= p <= ts.len(),
    ensures
        forall|x: TableModel| ts.insert(p, t).contains(x) <==> ts.contains(x) || x == t,
{
    let us = ts.insert(p, t);
    assert forall|x: TableModel| us.contains(x) <==> ts.contains(x) || x == t by {
        if us.contains(x) {
            let i = choose|i: int| 0 <= i < us.len() && us[i] == x;
            if i < p {
                assert(ts[i] == x);
            } else if i > p {
                assert(ts[i - 1] == x);
            }
        }
        if ts.contains(x) {
            let i = choose|i: int| 0 <= i < ts.len() && ts[i] == x;
            if i < p {
                assert(us[i] == x);
            } else {
                assert(us[i + 1] == x);
            }
        }
        if x == t {
            assert(us[p] == x);
        }
    }
}

/// The name of a table spells the level `l`.
pub open spec fn well_named(t: TableModel, l: nat) -> bool {
    l <= usize::MAX && match parse_name_bytes(encode_utf8(t.file_path)) {
        Some((level, seq)) => level == l,
        None => false,
    }
}

/// The names of the tables are in order: each spells the level of its
/// table; the numbers of the tables of level 0 are below `flushed` and fall
/// strictly from each table to the next; the numbers of the deeper tables
/// are below `made`.
pub open spec fn levels_in_order(levels: Seq<Seq<TableModel>>, flushed: nat, made: nat) -> bool {
    &&& forall|l: nat, t: TableModel|
        #![trigger level_at(levels, l).contains(t)]
        level_at(levels, l).contains(t) ==> well_named(t, l) && seq_of(t) < (if l == 0 {
            flushed
        } else {
            made
        })
    &&& forall|i: int, j: int|
        0 <= i < j < level_at(levels, 0).len() ==> seq_of(#[trigger] level_at(levels, 0)[i])
            > seq_of(#[trigger] level_at(levels, 0)[j])
}

/// A flush keeps the names in order, as long as its number was not the last.
pub proof fn lemma_order_after_flush(
    before: Seq<Seq<TableModel>>,
    after: Seq<Seq<TableModel>>,
    flushed: nat,
    made: nat,
)
    requires
        levels_in_order(before, flushed, made),
        flushed <= u64::MAX,
        level_at(after, 0).len() == level_at(before, 0).len() + 1,
        level_at(after, 0).drop_first() == level_at(before, 0),
        level_at(after, 0)[0].file_path == spec_flush_name(flushed),
        forall|l: nat| l >= 1 ==> #[trigger] level_at(after, l) == level_at(before, l),
    ensures
        levels_in_order(after, flushed + 1, made),
{
    let head = level_at(after, 0);
    let old_head = level_at(before, 0);
    lemma_flush_name_parses(flushed);
    assert forall|l: nat, t: TableModel|
        #![trigger level_at(after, l).contains(t)]
        level_at(after, l).contains(t) implies well_named(t, l) && seq_of(t) < (if l == 0 {
        flushed + 1
    } else {
        made
    }) by {
        if l == 0 {
            let i = choose|i: int| 0 <= i < head.len() && head[i] == t;
            if i > 0 {
                assert(head.drop_first()[i - 1] == t);
                assert(level_at(before, 0).contains(t));
            }
        } else {
            assert(level_at(before, l).contains(t));
        }
    }
    assert forall|i: int, j: int| 0 <= i < j < head.len() implies seq_of(#[trigger] head[i])
        > seq_of(#[trigger] head[j]) by {
        assert(head.drop_first()[j - 1] == head[j]);
        assert(old_head.contains(old_head[j - 1]));
        assert(level_at(before, 0).contains(head[j]));
        if i > 0 {
            assert(head.drop_first()[i - 1] == head[i]);
        }
    }
}

/// A compaction keeps the names in order, as long as its numbers did not
/// reach the last.
pub proof fn lemma_order_after_compaction(
    before: Seq<Seq<TableModel>>,
    after: Seq<Seq<TableModel>>,
    level: nat,
    flushed: nat,
    made: nat,
    count: nat,
)
    requires
        levels_in_order(before, flushed, made),
        made + count <= u64::MAX,
        level + 1 <= usize::MAX,
        level_at(after, level).len() == 0,
        forall|l: nat| l != level && l != level + 1 ==> #[trigger] level_at(after, l) == level_at(before, l),
        named_by(level_at(before, level + 1), level_at(after, level + 1), level + 1, made as u64, count),
    ensures
        levels_in_order(after, flushed, made + count),
{
    assert forall|l: nat, t: TableModel|
        #![trigger level_at(after, l).contains(t)]
        level_at(after, l).contains(t) implies well_named(t, l) && seq_of(t) < (if l == 0 {
        flushed
    } else {
        made + count
    }) by {
        if l == level + 1 {
            if level_at(before, l).contains(t) {
            } else {
                assert(made_name(t, level + 1, made as u64, count));
                let c = choose|c: nat|
                    c < count && t.file_path == #[trigger] spec_level_name(
                        level + 1,
                        id_after(made as u64, c) as nat,
                    );
                lemma_id_after_sum(made as u64, c);
                lemma_level_name_parses(level + 1, id_after(made as u64, c) as nat);
            }
        } else if l != level {
            assert(level_at(before, l).contains(t));
        }
    }
    if level != 0 {
        assert(level_at(after, 0) == level_at(before, 0));
    }
}

/// The tree.
pub struct LSMTree {
    memtable: MemTable,
    level_manager: LevelManager,
    config: LSMConfig,
    next_sstable_id: u64,
    wal: Option<WAL>,
    leveled_compactor: LeveledCompactor,
    compaction_requested: bool,
    /// Whether no sequence number has been used twice.
    steady: bool,
    /// The number of tables that flushes have made, counted from the
    /// number that the first of them carried.
    flushed_count: Ghost<nat>,
    /// The same for the tables that compactions have made.
    made_count: Ghost<nat>,
}

impl View for LSMTree {
    type V = Map<Seq<char>, Seq<char>>;

    /// The logical map: every key that reads as present, with its payload.
    open spec fn view(&self) -> Map<Seq<char>, Seq<char>> {
        Map::new(|k: Seq<char>| self.logical(k) is Some, |k: Seq<char>| self.logical(k).unwrap())
    }
}

impl LSMTree {
    /// What the table in memory holds.
    pub closed spec fn memtable_model(&self) -> Layer {
        self.memtable@
    }

    /// The number of keys in the table in memory, deleted ones included.
    pub closed spec fn entries(&self) -> nat {
        self.memtable.run().len()
    }

    /// The tables of each level.
    pub closed spec fn levels(&self) -> Seq<Seq<TableModel>> {
        self.level_manager@
    }

    /// The bytes of the log, where the tree keeps one.
    pub closed spec fn log(&self) -> Option<Seq<u8>> {
        match self.wal {
            Some(w) => Some(w@),
            None => None,
        }
    }

    /// The number that the next flushed table will carry.
    pub closed spec fn next_id(&self) -> u64 {
        self.next_sstable_id
    }

    /// The number of keys at which the table in memory is flushed.
    pub closed spec fn flush_limit(&self) -> usize {
        self.config.memtable_size_limit
    }

    /// Whether a flush has asked for a compaction check that nobody has taken yet.
    pub closed spec fn compaction_pending(&self) -> bool {
        self.compaction_requested
    }

    /// The number of tables at which level 0 is due for compaction.
    pub closed spec fn file_limit(&self) -> nat {
        self.level_manager.file_limit()
    }

    /// The factor by which the capacity of a level grows from level to level.
    pub closed spec fn multiplier(&self) -> nat {
        self.level_manager.multiplier()
    }

    /// Whether a flush asks for a compaction check.
    pub closed spec fn background(&self) -> bool {
        self.config.background_compaction
    }

    /// The number that the next table of a compaction will carry.
    pub closed spec fn next_made(&self) -> u64 {
        self.leveled_compactor.next_id()
    }

    /// After one compaction the names are in order as they were, unless
    /// the numbers of the compacted tables have begun again at 0, which
    /// shows in a next number below the one before.
    pub open spec fn order_kept(pre: &LSMTree, post: &LSMTree) -> bool {
        pre.in_order() && post.next_made() >= pre.next_made() ==> post.in_order()
    }

    /// The settings of the tree are as they were.
    pub open spec fn same_settings(pre: &LSMTree, post: &LSMTree) -> bool {
        &&& post.flush_limit() == pre.flush_limit()
        &&& post.file_limit() == pre.file_limit()
        &&& post.multiplier() == pre.multiplier()
        &&& post.background() == pre.background()
    }

    /// What the tree says of a key: the answer of the table in memory, and
    /// of the levels where that table knows nothing.
    pub open spec fn found(&self, k: Seq<char>) -> Found {
        or_else(map_lookup(self.memtable_model(), k), lookup_from(self.levels(), 0, k))
    }

    /// What a caller reads under a key.
    pub open spec fn logical(&self, k: Seq<char>) -> Option<Seq<char>> {
        read(self.found(k))
    }

    /// The invariant of the tree: its parts are well formed; below level 0
    /// the tables of a level are apart; the log, where there is one, spells
    /// what the table in memory holds; and all of that can be stored.
    pub closed spec fn wf(&self) -> bool {
        &&& self.memtable.wf()
        &&& storable_map(self.memtable@)
        &&& self.level_manager.wf()
        &&& self.level_manager.apart()
        &&& self.config.enable_wal == (self.wal is Some)
        &&& match self.wal {
            Some(w) => w.wf() && match w.entries() {
                Some(es) => replay(es) == self.memtable@,
                None => false,
            },
            None => true,
        }
        &&& self.next_sstable_id == self.flushed_count@ % 0x1_0000_0000_0000_0000
        &&& self.leveled_compactor.next_id() == self.made_count@ % 0x1_0000_0000_0000_0000
        &&& self.steady == self.numbers_fresh()
    }

    /// No sequence number has been used twice: neither the numbers of the
    /// flushed tables nor those of the compacted tables have reached the
    /// largest number and begun again at 0.
    pub closed spec fn numbers_fresh(&self) -> bool {
        self.flushed_count@ <= u64::MAX && self.made_count@ <= u64::MAX
    }

    /// The names of the tables are in order, and no number has been used twice.
    pub closed spec fn in_order(&self) -> bool {
        self.numbers_fresh() && levels_in_order(
            self.level_manager@,
            self.flushed_count@,
            self.made_count@,
        )
    }

    /// The step keeps the names in order, unless it takes a number a second time.
    pub open spec fn keeps_order(pre: &LSMTree, post: &LSMTree) -> bool {
        &&& pre.in_order() && post.numbers_fresh() ==> post.in_order()
        &&& post.numbers_fresh() ==> pre.numbers_fresh()
    }

    /// The table in memory counts as many keys as its map holds.
    pub proof fn lemma_entries(&self)
        requires
            self.wf(),
        ensures
            self.memtable_model().dom().finite(),
            self.entries() == self.memtable_model().dom().len(),
    {
        self.memtable.lemma_len();
    }

    /// What well-formedness says of the model.
    pub proof fn lemma_wf(&self)
        requires
            self.wf(),
        ensures
            levels_apart(self.levels()),
            storable_map(self.memtable_model()),
            self.memtable_model().dom().finite(),
            self.entries() == self.memtable_model().dom().len(),
            self.levels().len() > 0 ==> self.levels().last().len() > 0,
            forall|l: int, i: int|
                0 <= l < self.levels().len() && 0 <= i < self.levels()[l].len() ==> (
                #[trigger] self.levels()[l][i]).valid() && self.levels()[l][i].records.len() > 0
                    && self.levels()[l][i].level == l,
            match self.log() {
                Some(bytes) => match crate::engine::codec::dec_log(bytes) {
                    Some(es) => replay(es) == self.memtable_model(),
                    None => false,
                },
                None => true,
            },
    {
        self.memtable.lemma_len();
        self.level_manager.lemma_wf();
    }

    /// A tree without tables, with an empty table in memory and, if the
    /// configuration asks for one, an empty log.
    pub fn empty(config: LSMConfig) -> (r: Self)
        ensures
            r.wf(),
            r.memtable_model() == Map::<Seq<char>, Option<Seq<char>>>::empty(),
            r.entries() == 0,
            r.levels().len() == 0,
            r.log() == if config.enable_wal {
                Some(Seq::<u8>::empty())
            } else {
                None
            },
            r.next_id() == 0,
            r.next_made() == 0,
            r.flush_limit() == config.memtable_size_limit,
            r.file_limit() == config.l0_file_limit,
            r.multiplier() == config.level_size_multiplier,
            r.background() == config.background_compaction,
            !r.compaction_pending(),
            r.in_order(),
    {
        let wal = if config.enable_wal {
            match WAL::new("wal.log".to_string(), Vec::new()) {
                Ok(w) => Some(w),
                Err(_) => None,
            }
        } else {
            None
        };
        let level_manager = LevelManager::with_config(
            config.l0_file_limit,
            config.level_size_multiplier,
        );
        let leveled_compactor = LeveledCompactor::new(
            config.data_dir.clone(),
            0,
        ).with_max_sst_bytes(config.max_sst_bytes);
        proof {
            assert(replay(Seq::<Entry>::empty()) =~= Map::<Seq<char>, Option<Seq<char>>>::empty());
            assert(Seq::<u8>::empty().take(0) =~= Seq::<u8>::empty());
        }
        let r = LSMTree {
            memtable: MemTable::new(),
            level_manager,
            config,
            next_sstable_id: 0,
            wal,
            leveled_compactor,
            compaction_requested: false,
            steady: true,
            flushed_count: Ghost(0),
            made_count: Ghost(0),
        };
        proof {
            assert forall|l: nat| (#[trigger] level_at(r.level_manager@, l)).len() == 0 by {}
            if r.wal is Some {
                let bytes = r.wal.unwrap()@;
                assert(bytes =~= Seq::<u8>::empty());
                assert(crate::engine::codec::dec_log_entries(
                    crate::engine::codec::split_frames(bytes, 0).0,
                ).unwrap() =~= Seq::<Entry>::empty());
            }
        }
        r
    }

    /// A tree with the default options and nothing in it.
    pub fn new() -> (r: DbResult<Self>)
        ensures
            match r {
                Ok(t) => {
                    &&& t.wf()
                    &&& t.in_order()
                    &&& t.memtable_model() == Map::<Seq<char>, Option<Seq<char>>>::empty()
                    &&& t.entries() == 0
                    &&& t.levels().len() == 0
                    &&& t.log() == Some(Seq::<u8>::empty())
                    &&& t.next_id() == 0
                    &&& t.next_made() == 0
                    &&& t.flush_limit() == 1000
                    &&& t.file_limit() == 4
                    &&& t.multiplier() == 10
                    &&& t.background()
                    &&& !t.compaction_pending()
                },
                Err(_) => false,
            },
    {
        Ok(Self::empty(LSMConfig::default()))
    }

    /// The effect of a flush of the table in memory, which held `flushed`:
    /// a new table with those entries stands at the head of level 0, the
    /// deeper levels are as they were, the table in memory is empty, and so
    /// is the log.
    pub open spec fn flushed(pre: &LSMTree, post: &LSMTree, flushed: Layer) -> bool {
        let head = level_at(post.levels(), 0);
        &&& post.memtable_model() == Map::<Seq<char>, Option<Seq<char>>>::empty()
        &&& post.entries() == 0
        &&& post.log() == match pre.log() {
            Some(_) => Some(Seq::<u8>::empty()),
            None => None,
        }
        &&& post.next_id() == next_after(pre.next_id())
        &&& head.len() == level_at(pre.levels(), 0).len() + 1
        &&& head.drop_first() == level_at(pre.levels(), 0)
        &&& head[0].map() == flushed
        &&& head[0].valid()
        &&& head[0].level == 0
        &&& head[0].file_path == spec_flush_name(pre.next_id() as nat)
        &&& forall|l: nat| l >= 1 ==> #[trigger] level_at(post.levels(), l) == level_at(pre.levels(), l)
        &&& post.next_made() == pre.next_made()
        &&& post.compaction_pending() == (pre.compaction_pending() || pre.background())
        &&& pre.in_order() && pre.next_id() < u64::MAX ==> post.in_order()
    }

    /// Nothing that a contract speaks of has changed.
    pub open spec fn same(pre: &LSMTree, post: &LSMTree) -> bool {
        &&& post.memtable_model() == pre.memtable_model()
        &&& post.entries() == pre.entries()
        &&& post.levels() == pre.levels()
        &&& post.log() == pre.log()
        &&& post.next_id() == pre.next_id()
        &&& post.next_made() == pre.next_made()
        &&& Self::same_settings(pre, post)
        &&& post.in_order() == pre.in_order()
        &&& post.numbers_fresh() == pre.numbers_fresh()
    }

    /// Writes the table in memory to a new table at the head of level 0.
    fn flush_memtable(&mut self)
        requires
            old(self).wf(),
            old(self).entries() > 0,
        ensures
            final(self).wf(),
            Self::flushed(old(self), final(self), old(self).memtable_model()),
            Self::same_settings(old(self), final(self)),
            forall|k: Seq<char>| #[trigger] final(self).found(k) == old(self).found(k),
            Self::keeps_order(old(self), final(self)),
    {
        let id = self.next_sstable_id;
        self.next_sstable_id = if id == u64::MAX {
            self.steady = false;
            0
        } else {
            id + 1
        };
        self.flushed_count = Ghost(self.flushed_count@ + 1);
        let ghost mem = self.memtable@;
        let ghost run = self.memtable.run();
        let ghost before = self.level_manager@;
        let records = clone_records(self.memtable.data());
        proof {
            self.memtable.lemma_view();
            assert forall|i: int| 0 <= i < run.len() implies storable(#[trigger] run[i]) by {
                lemma_run_map_at(run, i);
                assert(mem.contains_key(run[i].key));
                assert(storable(Entry { key: run[i].key, value: mem[run[i].key] }));
            }
            self.level_manager.lemma_wf();
        }
        let table = SSTable::from_run(flush_name(id), records, 0);
        let ghost model = table@;
        proof {
            table.lemma_wf();
        }
        self.level_manager.add_sstable(table, 0);
        self.memtable = MemTable::new();
        let mut wal: Option<WAL> = None;
        std::mem::swap(&mut wal, &mut self.wal);
        match wal {
            Some(mut w) => {
                let _ = w.truncate();
                self.wal = Some(w);
            },
            None => {},
        }
        if self.config.background_compaction {
            self.compaction_requested = true;
        }
        proof {
            let after = self.level_manager@;
            let old_head = level_at(before, 0);
            let head = level_at(after, 0);
            assert(model == TableModel { level: 0, ..model });
            let p = lemma_placed(old_head, head, model, true);
            assert(head =~= seq![model] + old_head);
            assert(head.drop_first() =~= old_head);
            assert(replay(Seq::<Entry>::empty()) =~= Map::<Seq<char>, Option<Seq<char>>>::empty());
            assert forall|l: nat| l >= 1 implies #[trigger] level_at(after, l) == level_at(
                before,
                l,
            ) by {
                assert(self.level_manager.level_models(l) == old(self).level_manager.level_models(
                    l,
                ));
            }
            assert forall|l: int| 1 <= l < after.len() implies pairwise_apart(
                #[trigger] after[l],
            ) by {
                assert(level_at(after, l as nat) == level_at(before, l as nat));
                if l < before.len() {
                    assert(pairwise_apart(before[l]));
                }
            }
            assert forall|k: Seq<char>| #[trigger] self.found(k) == old(self).found(k) by {
                lemma_lookup_from_unfold(after, 0, k);
                lemma_lookup_from_unfold(before, 0, k);
                lemma_level_lookup_concat(seq![model], old_head, k);
                reveal_with_fuel(level_lookup, 2);
                assert(seq![model].drop_first() =~= Seq::<TableModel>::empty());
                assert(level_lookup(seq![model], k) == model.lookup(k));
                lemma_lookup_from_agree(after, before, 1, k);
            }
            if old(self).in_order() && self.numbers_fresh() {
                lemma_order_after_flush(
                    before,
                    after,
                    old(self).flushed_count@,
                    old(self).made_count@,
                );
            }
        }
    }

    /// The effect of a write of `value` under `key`. Where the write fills
    /// the table in memory up to its limit, the table is flushed at once.
    pub open spec fn written(
        pre: &LSMTree,
        post: &LSMTree,
        key: Seq<char>,
        value: Option<Seq<char>>,
    ) -> bool {
        let mem = pre.memtable_model().insert(key, value);
        let count = pre.entries() + if pre.memtable_model().contains_key(key) {
            0nat
        } else {
            1nat
        };
        &&& Self::same_settings(pre, post)
        &&& Self::keeps_order(pre, post)
        &&& forall|k: Seq<char>|
            #[trigger] post.found(k) == if k == key {
                Some(value)
            } else {
                pre.found(k)
            }
        &&& if count >= pre.flush_limit() {
            Self::flushed(pre, post, mem)
        } else {
            &&& post.memtable_model() == mem
            &&& post.entries() == count
            &&& post.levels() == pre.levels()
            &&& post.next_id() == pre.next_id()
            &&& post.next_made() == pre.next_made()
            &&& post.compaction_pending() == pre.compaction_pending()
            &&& post.in_order() == pre.in_order()
            &&& post.log() == match pre.log() {
                Some(bytes) => Some(
                    bytes + crate::engine::codec::frame(
                        crate::engine::codec::enc_log_entry(Entry { key, value }),
                    ),
                ),
                None => None,
            }
        }
    }

    /// Whether a write of `value` under `key` is accepted: the key is not
    /// empty, and key and value fit a frame of the log and of a table.
    pub open spec fn accepts(key: Seq<char>, value: Option<Seq<char>>) -> bool {
        key.len() > 0 && storable(Entry { key, value })
    }

    /// Logs a mutation, applies it to the table in memory, and flushes that
    /// table if it has reached its limit.
    fn write(&mut self, key: String, value: Value) -> (r: DbResult<()>)
        requires
            old(self).wf(),
        ensures
            final(self).wf(),
            match r {
                Ok(_) => Self::accepts(key@, value@) && Self::written(
                    old(self),
                    final(self),
                    key@,
                    value@,
                ),
                Err(DbError::InvalidArgument(_)) => !Self::accepts(key@, value@) && Self::same(
                    old(self),
                    final(self),
                ),
                Err(_) => false,
            },
    {
        if key.as_str().is_empty() {
            return Err(DbError::InvalidArgument("a key must not be empty".to_string()));
        }
        let fits = match &value {
            Value::Data(v) => can_store(key.as_str(), Some(v.as_str())),
            Value::Tombstone => can_store(key.as_str(), None),
        };
        if !fits {
            return Err(
                DbError::InvalidArgument("key and value are too large to store".to_string()),
            );
        }
        let ghost k = key@;
        let ghost v = value@;
        let ghost mem = self.memtable@;
        let mut wal: Option<WAL> = None;
        std::mem::swap(&mut wal, &mut self.wal);
        match wal {
            Some(mut w) => {
                let entry = match &value {
                    Value::Data(p) => WALEntry::Insert { key: key.clone(), value: p.clone() },
                    Value::Tombstone => WALEntry::Delete { key: key.clone() },
                };
                let _ = w.append(&entry);
                self.wal = Some(w);
            },
            None => {},
        }
        self.memtable.put(key, value);
        proof {
            old(self).memtable.lemma_view();
            if mem.contains_key(k) {
                assert(has_key(old(self).memtable.run(), k));
            }
            assert(self.memtable.run().len() > 0);
            assert forall|x: Seq<char>| self.memtable@.contains_key(x) implies storable(
                Entry { key: x, value: #[trigger] self.memtable@[x] },
            ) by {
                if x != k {
                    assert(mem.contains_key(x));
                }
            }
            if self.wal is Some {
                let es = old(self).wal.unwrap().entries().unwrap();
                assert(es.push(Entry { key: k, value: v }).drop_last() =~= es);
            }
        }
        if self.memtable.len() >= self.config.memtable_size_limit {
            let ghost mid = *self;
            self.flush_memtable();
            proof {
                assert forall|x: Seq<char>|
                    #[trigger] self.found(x) == if x == k {
                        Some(v)
                    } else {
                        old(self).found(x)
                    } by {
                    assert(self.found(x) == mid.found(x));
                }
                assert(forall|l: nat| #[trigger] level_at(mid.levels(), l) == level_at(old(self).levels(), l));
            }
        }
        Ok(())
    }

    /// Stores `value` under `key`.
    pub fn insert(&mut self, key: String, value: String) -> (r: DbResult<()>)
        requires
            old(self).wf(),
        ensures
            final(self).wf(),
            match r {
                Ok(_) => Self::accepts(key@, Some(value@)) && Self::written(
                    old(self),
                    final(self),
                    key@,
                    Some(value@),
                ),
                Err(DbError::InvalidArgument(_)) => !Self::accepts(key@, Some(value@))
                    && Self::same(old(self), final(self)),
                Err(_) => false,
            },
    {
        self.write(key, Value::Data(value))
    }

    /// Deletes `key`. Whether the key was there makes no difference.
    pub fn delete(&mut self, key: &str) -> (r: DbResult<bool>)
        requires
            old(self).wf(),
        ensures
            final(self).wf(),
            match r {
                Ok(done) => done && Self::accepts(key@, None) && Self::written(
                    old(self),
                    final(self),
                    key@,
                    None,
                ),
                Err(DbError::InvalidArgument(_)) => !Self::accepts(key@, None) && Self::same(
                    old(self),
                    final(self),
                ),
                Err(_) => false,
            },
    {
        match self.write(key.to_string(), Value::Tombstone) {
            Ok(_) => Ok(true),
            Err(e) => Err(e),
        }
    }

    /// The payload under `key`: the table in memory is asked first, then the
    /// levels from level 0 down. A deletion found on the way ends the search.
    pub fn get(&self, key: &str) -> (r: DbResult<Option<String>>)
        requires
            self.wf(),
        ensures
            match r {
                Ok(Some(s)) => self.logical(key@) == Some(s@),
                Ok(None) => self.logical(key@) is None,
                Err(_) => false,
            },
    {
        match self.memtable.lookup(key) {
            Some(Value::Data(s)) => Ok(Some(s.clone())),
            Some(Value::Tombstone) => Ok(None),
            None => match self.level_manager.find(key) {
                Some(Value::Data(s)) => Ok(Some(s.clone())),
                _ => Ok(None),
            },
        }
    }

    /// The effect of a flush: the table in memory is empty and so is the log;
    /// every key is answered as before. Where the table in memory held
    /// nothing, nothing has changed; else what it held stands in a new table
    /// at the head of level 0.
    pub open spec fn flush_effect(pre: &LSMTree, post: &LSMTree) -> bool {
        &&& Self::same_settings(pre, post)
        &&& Self::keeps_order(pre, post)
        &&& forall|k: Seq<char>| #[trigger] post.found(k) == pre.found(k)
        &&& post.entries() == 0
        &&& post.memtable_model() == Map::<Seq<char>, Option<Seq<char>>>::empty()
        &&& post.log() is Some ==> post.log() == Some(Seq::<u8>::empty())
        &&& pre.entries() == 0 ==> Self::same(pre, post) && post.compaction_pending()
            == pre.compaction_pending()
        &&& pre.entries() > 0 ==> Self::flushed(pre, post, pre.memtable_model())
    }

    /// Writes the table in memory, if it holds anything, to a new table at
    /// level 0 and empties the log.
    pub fn flush(&mut self) -> (r: DbResult<()>)
        requires
            old(self).wf(),
        ensures
            r is Ok,
            final(self).wf(),
            Self::flush_effect(old(self), final(self)),
    {
        if !self.memtable.is_empty() {
            self.flush_memtable();
        } else {
            proof {
                self.lemma_empty_memtable();
            }
        }
        Ok(())
    }

    /// A table in memory without keys is the empty map, and its log is empty.
    proof fn lemma_empty_memtable(&self)
        requires
            self.wf(),
            self.entries() == 0,
        ensures
            self.memtable_model() == Map::<Seq<char>, Option<Seq<char>>>::empty(),
            self.log() is Some ==> self.log() == Some(Seq::<u8>::empty()),
    {
        self.memtable.lemma_view();
        assert(self.memtable@ =~= Map::<Seq<char>, Option<Seq<char>>>::empty());
        if self.wal is Some {
            let w = self.wal.unwrap();
            let es = w.entries().unwrap();
            if es.len() > 0 {
                assert(replay(es).contains_key(es.last().key));
            }
            assert(es =~= Seq::<Entry>::empty());
            w.lemma_no_entries();
        }
    }

    /// The level manager, to look at.
    pub fn level_manager(&self) -> (r: &LevelManager)
        requires
            self.wf(),
        ensures
            r@ == self.levels(),
            r.wf(),
            r.apart(),
            r.file_limit() == self.file_limit(),
            r.multiplier() == self.multiplier(),
    {
        &self.level_manager
    }

    /// The options that the tree was opened with.
    pub fn config(&self) -> (r: &LSMConfig)
        ensures
            r.memtable_size_limit == self.flush_limit(),
            r.background_compaction == self.background(),
    {
        &self.config
    }

    /// The number of keys in the table in memory.
    pub fn memtable_size(&self) -> (r: usize)
        ensures
            r == self.entries(),
    {
        self.memtable.len()
    }

    /// The directory that holds the tables and the log.
    pub fn get_data_dir(&self) -> (r: &str)
        ensures
            r@ == self.spec_data_dir(),
    {
        self.config.data_dir.as_str()
    }

    pub closed spec fn spec_data_dir(&self) -> Seq<char> {
        self.config.data_dir@
    }

    /// The bytes of the log file, where the tree keeps a log.
    pub fn wal_bytes(&self) -> (r: Option<&Vec<u8>>)
        ensures
            match r {
                Some(b) => self.log() == Some(b@),
                None => self.log() is None,
            },
    {
        match &self.wal {
            Some(w) => Some(w.bytes()),
            None => None,
        }
    }

    /// Takes the request for a compaction check that a flush has left, if
    /// there is one.
    pub fn take_compaction_request(&mut self) -> (r: bool)
        requires
            old(self).wf(),
        ensures
            final(self).wf(),
            r == old(self).compaction_pending(),
            !final(self).compaction_pending(),
            Self::same(old(self), final(self)),
    {
        let r = self.compaction_requested;
        self.compaction_requested = false;
        r
    }

    /// Whether no sequence number has been used twice: neither the
    /// numbers of the flushed tables nor those of the compacted tables
    /// have passed the largest number and begun again at 0. While this
    /// holds, a tree whose names were in order has them in order.
    pub fn has_fresh_numbers(&self) -> (r: bool)
        requires
            self.wf(),
        ensures
            r == self.numbers_fresh(),
    {
        self.steady
    }

    /// The path and the file bytes of every table, level 0 first.
    pub fn table_files(&self) -> (r: Vec<(String, Vec<u8>)>)
        requires
            self.wf(),
        ensures
            Self::is_directory_of(self, r@),
            r@.len() == all_tables(self.levels()).len(),
            forall|i: int|
                0 <= i < r@.len() ==> (#[trigger] r@[i]).0@ == all_tables(self.levels())[i].file_path
                    && r@[i].1@ == crate::engine::codec::enc_run(
                    all_tables(self.levels())[i].records,
                ),
    {
        self.level_manager.files()
    }

    /// The figures of the tree: the keys in memory, the tables and their
    /// records, and the limit at which the table in memory is flushed.
    pub open spec fn figures(&self) -> LSMStats {
        LSMStats {
            memtable_entries: clamp_usize(self.entries()),
            sstable_count: clamp_usize(count_tables(self.levels())),
            total_sstable_entries: clamp_usize(count_records(self.levels())),
            next_flush_at: self.flush_limit(),
        }
    }

    /// Figures of the tree; counts that do not fit are capped.
    pub fn stats(&self) -> (r: LSMStats)
        requires
            self.wf(),
        ensures
            r == self.figures(),
            r.memtable_entries == self.entries(),
            r.next_flush_at == self.flush_limit(),
            r.sstable_count == clamp_usize(count_tables(self.levels())),
            r.total_sstable_entries == clamp_usize(count_records(self.levels())),
    {
        let depth = self.level_manager.depth();
        let ghost levels = self.level_manager@;
        let mut count: usize = 0;
        let mut total: usize = 0;
        let mut l: usize = 0;
        proof {
            assert(levels.take(0) =~= Seq::<Seq<TableModel>>::empty());
        }
        while l < depth
            invariant
                l <= depth,
                depth == levels.len(),
                levels == self.level_manager@,
                count == clamp_usize(count_tables(levels.take(l as int))),
                total == clamp_usize(count_records(levels.take(l as int))),
            decreases depth - l,
        {
            let files = self.level_manager.get_level_count(l);
            let size = self.level_manager.get_level_size(l);
            proof {
                assert(levels.take(l + 1).drop_last() =~= levels.take(l as int));
                assert(levels.take(l + 1).last() == levels[l as int]);
            }
            count = if files > usize::MAX - count {
                usize::MAX
            } else {
                count + files
            };
            total = if size > usize::MAX - total {
                usize::MAX
            } else {
                total + size
            };
            l += 1;
        }
        proof {
            assert(levels.take(l as int) =~= levels);
        }
        LSMStats {
            memtable_entries: self.memtable.len(),
            sstable_count: count,
            total_sstable_entries: total,
            next_flush_at: self.config.memtable_size_limit,
        }
    }

    /// Every key reads as it did.
    pub open spec fn reads_alike(pre: &LSMTree, post: &LSMTree) -> bool {
        forall|k: Seq<char>| #[trigger] post.logical(k) == pre.logical(k)
    }

    /// Compacts one level into the next, if a compaction of it has tables to take.
    fn compact_one(&mut self, level: usize)
        requires
            old(self).wf(),
        ensures
            final(self).wf(),
            Self::reads_alike(old(self), final(self)),
            final(self).memtable_model() == old(self).memtable_model(),
            final(self).entries() == old(self).entries(),
            final(self).log() == old(self).log(),
            final(self).next_id() == old(self).next_id(),
            Self::same_settings(old(self), final(self)),
            final(self).compaction_pending() == old(self).compaction_pending(),
            LeveledCompactor::takes(&old(self).level_manager, level as nat)
                ==> LeveledCompactor::compacted(
                &old(self).level_manager,
                &final(self).level_manager,
                level as nat,
            ),
            !LeveledCompactor::takes(&old(self).level_manager, level as nat) ==> final(self).levels()
                == old(self).levels() && final(self).next_made() == old(self).next_made(),
            Self::keeps_order(old(self), final(self)),
            Self::order_kept(old(self), final(self)),
    {
        let depth = self.level_manager.depth();
        let number_before = self.leveled_compactor.upcoming_id();
        let _ = self.leveled_compactor.compact_level(&mut self.level_manager, level);
        if self.leveled_compactor.upcoming_id() < number_before {
            self.steady = false;
        }
        let ghost first = old(self).leveled_compactor.next_id();
        let ghost count: nat = if LeveledCompactor::takes(&old(self).level_manager, level as nat) {
            choose|count: nat|
                count <= usize::MAX && self.leveled_compactor.next_id() == #[trigger] id_after(
                    first,
                    count,
                ) && named_by(
                    old(self).level_manager.level_models((level + 1) as nat),
                    self.level_manager.level_models((level + 1) as nat),
                    (level + 1) as nat,
                    first,
                    count,
                )
        } else {
            0
        };
        self.made_count = Ghost(self.made_count@ + count);
        proof {
            let made = old(self).made_count@;
            lemma_id_after_sum(first, count);
            assert((made % 0x1_0000_0000_0000_0000 + count) % 0x1_0000_0000_0000_0000 == (made
                + count) % 0x1_0000_0000_0000_0000) by (nonlinear_arith);
            if LeveledCompactor::takes(&old(self).level_manager, level as nat) {
                if old(self).in_order() && self.numbers_fresh() {
                    assert(first == made);
                    assert(level < depth);
                    assert forall|l: nat| l != level && l != level + 1 implies #[trigger] level_at(
                        self.level_manager@,
                        l,
                    ) == level_at(old(self).level_manager@, l) by {}
                    assert(level_at(self.level_manager@, level as nat)
                        == self.level_manager.level_models(level as nat));
                    lemma_order_after_compaction(
                        old(self).level_manager@,
                        self.level_manager@,
                        level as nat,
                        old(self).flushed_count@,
                        made,
                        count,
                    );
                }
            }
        }
    }

    /// Steps that keep the names in order, one after the other, keep them in order.
    pub proof fn lemma_keeps_order_twice(first: &LSMTree, second: &LSMTree, third: &LSMTree)
        requires
            Self::keeps_order(first, second),
            Self::keeps_order(second, third),
        ensures
            Self::keeps_order(first, third),
    {
    }

    /// Of the tables of `post`, each stood at level 1 of `pre`, or holds
    /// no deletion.
    pub open spec fn deletions_dropped(pre: &LSMTree, post: &LSMTree) -> bool {
        forall|l: nat, t: TableModel|
            #![trigger level_at(post.levels(), l).contains(t)]
            level_at(post.levels(), l).contains(t) ==> (l == 1 && level_at(pre.levels(), 1).contains(
                t,
            )) || all_live(t.records)
    }

    /// Flushes the table in memory, merges level 0 into level 1, and then
    /// compacts every deeper level that is over its capacity, from level 1
    /// down. Afterwards no level is due for compaction. Where the tree had
    /// no level below level 1, every compaction went into the deepest
    /// level, and the deletions are dropped: the tables hold none, but for
    /// tables of level 1 that no compaction touched.
    pub fn compact(&mut self) -> (r: DbResult<()>)
        requires
            old(self).wf(),
        ensures
            r is Ok,
            final(self).wf(),
            Self::reads_alike(old(self), final(self)),
            final(self).entries() == 0,
            final(self).log() is Some ==> final(self).log() == Some(Seq::<u8>::empty()),
            level_at(final(self).levels(), 0).len() == 0,
            forall|l: nat| !Self::level_due(final(self), l),
            Self::same_settings(old(self), final(self)),
            Self::keeps_order(old(self), final(self)),
            old(self).levels().len() <= 2 ==> Self::deletions_dropped(old(self), final(self)),
    {
        let _ = self.flush();
        let ghost flushed = *self;
        let ghost small = old(self).levels().len() <= 2;
        let mut level: usize = 0;
        proof {
            self.lemma_wf();
            old(self).lemma_wf();
            if small {
                if self.levels().len() > 2 {
                    let deepest = (self.levels().len() - 1) as nat;
                    assert(level_at(self.levels(), deepest) == level_at(old(self).levels(), deepest));
                }
                assert forall|l: nat, t: TableModel|
                    #![trigger level_at(self.levels(), l).contains(t)]
                    l >= 1 && level_at(self.levels(), l).contains(t) implies (l == 1 && level_at(
                    old(self).levels(),
                    1,
                ).contains(t)) || all_live(t.records) by {
                    assert(level_at(self.levels(), l) == level_at(old(self).levels(), l));
                }
            }
        }
        while level < self.level_manager.depth()
            invariant
                self.wf(),
                small == (old(self).levels().len() <= 2),
                small ==> self.levels().len() <= level + 2,
                small ==> forall|l: nat, t: TableModel|
                    #![trigger level_at(self.levels(), l).contains(t)]
                    l >= 1 && level_at(self.levels(), l).contains(t) ==> (l == 1 && level_at(
                        old(self).levels(),
                        1,
                    ).contains(t)) || all_live(t.records),
                Self::keeps_order(old(self), self),
                Self::reads_alike(&flushed, self),
                self.entries() == 0,
                self.log() == flushed.log(),
                Self::same_settings(&flushed, self),
                level > 0 ==> level_at(self.levels(), 0).len() == 0,
                forall|l: nat| l < level ==> !Self::level_due(self, l),
            decreases usize::MAX - level,
        {
            let ghost before = *self;
            self.compact_one(level);
            proof {
                assert forall|l: nat| l < level + 1 implies !Self::level_due(self, l) by {
                    if LeveledCompactor::takes(&before.level_manager, level as nat) {
                        if l < level {
                            assert(level_at(self.levels(), l) == level_at(before.levels(), l));
                            assert(!Self::level_due(&before, l));
                        } else {
                            assert(level_at(self.levels(), l).len() == 0);
                            assert(total_records(level_at(self.levels(), l)) == 0);
                        }
                    } else {
                        assert(level_at(self.levels(), l) == level_at(before.levels(), l));
                        if l < level {
                            assert(!Self::level_due(&before, l));
                        } else if level_at(before.levels(), l).len() == 0 {
                            assert(total_records(level_at(self.levels(), l)) == 0);
                        }
                    }
                }
            }
            proof {
                if small {
                    self.lemma_wf();
                    if LeveledCompactor::takes(&before.level_manager, level as nat) {
                        assert(merged_down(before.levels(), self.levels(), level as nat));
                        if self.levels().len() > level + 2 {
                            let deepest = (self.levels().len() - 1) as nat;
                            assert(level_at(self.levels(), deepest) == level_at(
                                before.levels(),
                                deepest,
                            ));
                        }
                        assert forall|l: nat, t: TableModel|
                            #![trigger level_at(self.levels(), l).contains(t)]
                            l >= 1 && level_at(self.levels(), l).contains(t) implies (l == 1
                            && level_at(old(self).levels(), 1).contains(t)) || all_live(
                            t.records,
                        ) by {
                            if l == level + 1 {
                                if level_at(before.levels(), l).contains(t) {
                                } else {
                                    assert(all_live(t.records));
                                }
                            } else if l != level {
                                assert(level_at(self.levels(), l) == level_at(before.levels(), l));
                            }
                        }
                    } else {
                        assert(self.levels() == before.levels());
                    }
                }
                Self::lemma_keeps_order_twice(old(self), &before, self);
                assert(self.level_manager.level_models(0) == level_at(self.levels(), 0));
                assert(before.level_manager.level_models(0) == level_at(before.levels(), 0));
                if !LeveledCompactor::takes(&before.level_manager, level as nat) {
                    assert(self.levels() == before.levels());
                } else if level > 0 {
                    assert(self.level_manager.level_models(0) == before.level_manager.level_models(
                        0,
                    ));
                }
                assert forall|k: Seq<char>| #[trigger] self.logical(k) == flushed.logical(k) by {
                    assert(self.logical(k) == before.logical(k));
                }
            }
            level += 1;
        }
        proof {
            assert forall|l: nat| !Self::level_due(self, l) by {
                if l >= level {
                    assert(self.level_manager.level_models(l).len() == 0);
                    assert(total_records(self.level_manager.level_models(l)) == 0);
                }
            }
            if small {
                assert(level_at(self.levels(), 0).len() == 0);
            }
        }
        Ok(())
    }

    /// Looks for the first level, from level 0 down, that is due for
    /// compaction, and compacts it into the next. Returns whether it found one.
    pub fn maybe_compact(&mut self) -> (r: DbResult<bool>)
        requires
            old(self).wf(),
        ensures
            final(self).wf(),
            Self::checked(old(self), final(self)),
            match r {
                Ok(found) => found == exists|l: nat| Self::level_due(old(self), l),
                Err(_) => false,
            },
            r == Ok::<bool, DbError>(false) ==> forall|l: nat| !Self::level_due(final(self), l),
    {
        let mut level: usize = 0;
        let depth = self.level_manager.depth();
        while level < depth
            invariant
                self.wf(),
                *self == *old(self),
                depth == self.levels().len(),
                level <= depth,
                forall|l: nat| l < level ==> !Self::level_due(self, l),
            decreases depth - level,
        {
            if self.level_manager.should_compact(level) {
                proof {
                    assert(Self::level_due(old(self), level as nat));
                    crate::engine::level::lemma_due_has_tables(
                        self.level_manager.level_models(level as nat),
                        level as nat,
                        self.level_manager.file_limit(),
                        self.level_manager.multiplier(),
                    );
                }
                self.compact_one(level);
                return Ok(true);
            }
            level += 1;
        }
        proof {
            assert forall|l: nat| !Self::level_due(old(self), l) by {
                if l >= depth && Self::level_due(old(self), l) {
                    crate::engine::level::lemma_due_has_tables(
                        self.level_manager.level_models(l),
                        l,
                        self.level_manager.file_limit(),
                        self.level_manager.multiplier(),
                    );
                }
            }
        }
        Ok(false)
    }

    /// The level `l` was compacted into the next: it is empty, the levels
    /// other than it and the next are as they were, and every key is
    /// answered as [`LeveledCompactor::compacted`] says.
    pub open spec fn compacted_level(pre: &LSMTree, post: &LSMTree, l: nat) -> bool {
        merged_down(pre.levels(), post.levels(), l)
    }

    /// Whether a level is due for compaction.
    pub open spec fn level_due(tree: &LSMTree, l: nat) -> bool {
        crate::engine::level::due(level_at(tree.levels(), l), l, tree.file_limit(), tree.multiplier())
    }

    /// What a check for compaction leaves behind. The table in memory,
    /// the log, the number of the next flushed table and the settings are
    /// as they were, and every key reads as before. Where no level was
    /// due, the levels are as they were; else the first level that was
    /// due has been compacted into the next. The names of the tables stay
    /// in order unless the numbers of the compacted tables have begun
    /// again at 0, which shows in a next number below the one before.
    pub open spec fn checked(pre: &LSMTree, post: &LSMTree) -> bool {
        &&& Self::reads_alike(pre, post)
        &&& post.memtable_model() == pre.memtable_model()
        &&& post.entries() == pre.entries()
        &&& post.log() == pre.log()
        &&& post.next_id() == pre.next_id()
        &&& post.compaction_pending() == pre.compaction_pending()
        &&& Self::same_settings(pre, post)
        &&& Self::keeps_order(pre, post)
        &&& Self::order_kept(pre, post)
        &&& (forall|l: nat| !Self::level_due(pre, l)) ==> post.levels() == pre.levels()
            && post.next_made() == pre.next_made()
        &&& forall|l: nat|
            #![trigger Self::level_due(pre, l)]
            Self::level_due(pre, l) && (forall|m: nat| m < l ==> !Self::level_due(pre, m))
                ==> Self::compacted_level(pre, post, l)
    }

    /// One step of the compaction worker: on `ShutDown` it does nothing and
    /// says that the worker is to stop; on `CheckCompaction`, and on a tick
    /// without a message, it compacts the first level that is due.
    pub fn handle_message(&mut self, message: Option<CompactionMessage>) -> (go_on: bool)
        requires
            old(self).wf(),
        ensures
            final(self).wf(),
            go_on == (message != Some(CompactionMessage::ShutDown)),
            !go_on ==> Self::same(old(self), final(self)) && final(self).compaction_pending()
                == old(self).compaction_pending(),
            go_on ==> Self::checked(old(self), final(self)),
    {
        match message {
            Some(CompactionMessage::ShutDown) => false,
            _ => {
                let _ = self.maybe_compact();
                true
            },
        }
    }

    /// Prepares the tree for being dropped: what the table in memory holds
    /// is flushed to a table.
    pub fn close(&mut self) -> (r: DbResult<()>)
        requires
            old(self).wf(),
        ensures
            r is Ok,
            final(self).wf(),
            Self::reads_alike(old(self), final(self)),
            final(self).entries() == 0,
            final(self).log() is Some ==> final(self).log() == Some(Seq::<u8>::empty()),
            Self::keeps_order(old(self), final(self)),
            Self::flush_effect(old(self), final(self)),
    {
        self.flush()
    }

    /// Replays the entries of a log into a table in memory.
    fn replay_wal(memtable: &mut MemTable, wal: &WAL) -> (r: DbResult<()>)
        requires
            old(memtable).wf(),
            old(memtable)@ == Map::<Seq<char>, Option<Seq<char>>>::empty(),
        ensures
            final(memtable).wf(),
            match r {
                Ok(_) => match wal.entries() {
                    Some(es) => final(memtable)@ == replay(es) && storable_map(final(memtable)@),
                    None => false,
                },
                Err(DbError::Corrupt(_)) => wal.entries() is None,
                Err(_) => false,
            },
    {
        let entries = match wal.read_all() {
            Ok(v) => v,
            Err(e) => {
                return Err(e);
            },
        };
        let ghost es = log_entries_of(entries@);
        proof {
            lemma_log_entries_storable(wal@);
            assert forall|x: int| 0 <= x < es.len() implies storable(#[trigger] es[x]) by {
                assert(es[x] == dec_log(wal@).unwrap()[x]);
            }
            assert(es.take(0) =~= Seq::<Entry>::empty());
        }
        let mut i: usize = 0;
        while i < entries.len()
            invariant
                i <= entries@.len(),
                es == log_entries_of(entries@),
                forall|x: int| 0 <= x < es.len() ==> storable(#[trigger] es[x]),
                memtable.wf(),
                memtable@ == replay(es.take(i as int)),
                storable_map(memtable@),
            decreases entries.len() - i,
        {
            let ghost mem = memtable@;
            proof {
                assert(es.take(i + 1).drop_last() =~= es.take(i as int));
                assert(es.take(i + 1).last() == es[i as int]);
                assert(storable(es[i as int]));
            }
            match &entries[i] {
                WALEntry::Insert { key, value } => {
                    memtable.put(key.clone(), Value::Data(value.clone()));
                },
                WALEntry::Delete { key } => {
                    memtable.put(key.clone(), Value::Tombstone);
                },
            }
            proof {
                assert forall|x: Seq<char>| memtable@.contains_key(x) implies storable(
                    Entry { key: x, value: #[trigger] memtable@[x] },
                ) by {
                    if x != es[i as int].key {
                        assert(mem.contains_key(x));
                    }
                }
            }
            i += 1;
        }
        proof {
            assert(es.take(i as int) =~= es);
        }
        Ok(())
    }

    /// Reads the table files among `files`: the tables they hold that have
    /// records, and the largest sequence number among all of them.
    fn load_existing_sstables(files: &Vec<(String, Vec<u8>)>) -> (r: DbResult<
        (Vec<SSTable>, Option<u64>, Ghost<Seq<int>>),
    >)
        ensures
            match r {
                Ok((tables, top, origin)) => {
                    &&& files_readable(files@)
                    &&& origin@.len() == tables@.len()
                    &&& forall|x: int|
                        0 <= x < tables@.len() ==> (#[trigger] tables@[x]).wf() && file_holds(
                            files@,
                            origin@[x],
                            tables@[x]@,
                        ) && tables@[x]@.records.len() > 0
                    &&& forall|x: int, y: int|
                        0 <= x < y < origin@.len() ==> origin@[x] < origin@[y]
                    &&& forall|i: int, t: TableModel|
                        file_holds(files@, i, t) && t.records.len() > 0 ==> exists|x: int|
                            0 <= x < origin@.len() && #[trigger] origin@[x] == i
                    &&& forall|i: int, t: TableModel|
                        #![trigger file_holds(files@, i, t)]
                        file_holds(files@, i, t) ==> match top {
                            Some(m) => seq_of(t) <= m,
                            None => false,
                        }
                    &&& top matches Some(m) ==> exists|i: int, t: TableModel|
                        #![trigger file_holds(files@, i, t)]
                        file_holds(files@, i, t) && seq_of(t) == m
                },
                Err(DbError::Corrupt(_)) => !files_readable(files@),
                Err(_) => false,
            },
    {
        let mut tables: Vec<SSTable> = Vec::new();
        let mut top: Option<u64> = None;
        let ghost origin: Seq<int> = Seq::empty();
        let mut i: usize = 0;
        while i < files.len()
            invariant
                i <= files@.len(),
                origin.len() == tables@.len(),
                forall|j: int|
                    0 <= j < i && is_table_name(encode_utf8(#[trigger] files@[j].0@))
                        ==> table_of_file(files@[j].0@, files@[j].1@) is Some,
                forall|x: int|
                    0 <= x < tables@.len() ==> (#[trigger] tables@[x]).wf() && file_holds(
                        files@,
                        origin[x],
                        tables@[x]@,
                    ) && tables@[x]@.records.len() > 0 && origin[x] < i,
                forall|x: int, y: int| 0 <= x < y < origin.len() ==> origin[x] < origin[y],
                forall|j: int, t: TableModel|
                    0 <= j < i && file_holds(files@, j, t) && t.records.len() > 0 ==> exists|x: int|
                        0 <= x < origin.len() && #[trigger] origin[x] == j,
                forall|j: int, t: TableModel|
                    #![trigger file_holds(files@, j, t)]
                    0 <= j < i && file_holds(files@, j, t) ==> match top {
                        Some(m) => seq_of(t) <= m,
                        None => false,
                    },
                top matches Some(m) ==> exists|j: int, t: TableModel|
                    #![trigger file_holds(files@, j, t)]
                    file_holds(files@, j, t) && seq_of(t) == m,
            decreases files.len() - i,
        {
            let name = files[i].0.as_str();
            if has_table_suffix(name) {
                let (level, seq) = match parse_name(name) {
                    Some(p) => p,
                    None => {
                        return Err(
                            DbError::Corrupt("the name of a table file spells no number".to_string()),
                        );
                    },
                };
                let table = match SSTable::open_at_level(name, files[i].1.as_slice(), level) {
                    Ok(t) => t,
                    Err(e) => {
                        return Err(e);
                    },
                };
                proof {
                    table.lemma_wf();
                    assert(file_holds(files@, i as int, table@));
                    assert(seq_of(table@) == seq);
                }
                let ghost old_top = top;
                top = match top {
                    Some(m) => if seq > m {
                        Some(seq)
                    } else {
                        Some(m)
                    },
                    None => Some(seq),
                };
                proof {
                    assert forall|j: int, t: TableModel|
                        #![trigger file_holds(files@, j, t)]
                        0 <= j < i + 1 && file_holds(files@, j, t) implies match top {
                            Some(m) => seq_of(t) <= m,
                            None => false,
                        } by {
                        if j < i {
                            assert(match old_top {
                                Some(m) => seq_of(t) <= m,
                                None => false,
                            });
                        }
                    }
                }
                if !table.is_empty() {
                    let ghost prev = origin;
                    let ghost prev_tables = tables@;
                    let ghost model = table@;
                    let ghost ok = table.wf();
                    tables.push(table);
                    proof {
                        origin = origin.push(i as int);
                        assert forall|x: int| 0 <= x < tables@.len() implies (
                        #[trigger] tables@[x]).wf() && file_holds(files@, origin[x], tables@[x]@)
                            && tables@[x]@.records.len() > 0 && origin[x] < i + 1 by {
                            if x < prev_tables.len() {
                                assert(tables@[x] == prev_tables[x]);
                                assert(origin[x] == prev[x]);
                            }
                        }
                        assert forall|x: int, y: int| 0 <= x < y < origin.len() implies origin[x]
                            < origin[y] by {
                            assert(origin[x] == prev[x]);
                            assert(prev_tables[x].wf());
                            if y < prev.len() {
                                assert(origin[y] == prev[y]);
                            }
                        }
                        assert forall|j: int, t: TableModel|
                            0 <= j < i + 1 && file_holds(files@, j, t) && t.records.len()
                                > 0 implies exists|x: int|
                            0 <= x < origin.len() && #[trigger] origin[x] == j by {
                            if j < i {
                                let x = choose|x: int| 0 <= x < prev.len() && #[trigger] prev[x] == j;
                                assert(origin[x] == j);
                            } else {
                                assert(origin[prev.len() as int] == j);
                            }
                        }
                    }
                }
            }
            i += 1;
        }
        Ok((tables, top, Ghost(origin)))
    }

    /// The position of the smallest number.
    fn position_of_min(seqs: &Vec<u64>) -> (m: usize)
        requires
            seqs@.len() > 0,
        ensures
            m < seqs@.len(),
            forall|x: int| 0 <= x < seqs@.len() ==> seqs@[m as int] <= #[trigger] seqs@[x],
    {
        let mut m: usize = 0;
        let mut i: usize = 1;
        while i < seqs.len()
            invariant
                1 <= i <= seqs@.len(),
                m < i,
                forall|x: int| 0 <= x < i ==> seqs@[m as int] <= #[trigger] seqs@[x],
            decreases seqs.len() - i,
        {
            if seqs[i] < seqs[m] {
                m = i;
            }
            i += 1;
        }
        m
    }

    /// Sorts the tables by the sequence numbers that their names spell, smallest first.
    #[verifier::rlimit(50)]
    fn sort_by_seq(
        tables: Vec<SSTable>,
        Ghost(files): Ghost<Seq<(String, Vec<u8>)>>,
        Ghost(initial): Ghost<Seq<int>>,
    ) -> (r: (Vec<SSTable>, Ghost<Seq<int>>))
        requires
            initial.len() == tables@.len(),
            forall|x: int|
                0 <= x < tables@.len() ==> (#[trigger] tables@[x]).wf() && file_holds(
                    files,
                    initial[x],
                    tables@[x]@,
                ) && tables@[x]@.records.len() > 0,
            distinct(initial),
        ensures
            r.0@.len() == tables@.len(),
            r.1@.len() == r.0@.len(),
            forall|x: int|
                0 <= x < r.0@.len() ==> (#[trigger] r.0@[x]).wf() && file_holds(
                    files,
                    r.1@[x],
                    r.0@[x]@,
                ) && r.0@[x]@.records.len() > 0,
            distinct(r.1@),
            forall|i: int| initial.contains(i) <==> r.1@.contains(i),
            forall|x: int, y: int|
                0 <= x < y < r.0@.len() ==> seq_of((#[trigger] r.0@[x])@) <= seq_of(
                    (#[trigger] r.0@[y])@,
                ),
    {
        let mut tables = tables;
        let mut seqs: Vec<u64> = Vec::new();
        let mut i: usize = 0;
        while i < tables.len()
            invariant
                i <= tables@.len(),
                seqs@.len() == i,
                initial.len() == tables@.len(),
                forall|x: int|
                    0 <= x < tables@.len() ==> file_holds(files, initial[x], (#[trigger] tables@[x])@),
                forall|x: int| 0 <= x < i ==> #[trigger] seqs@[x] == seq_of(tables@[x]@),
            decreases tables.len() - i,
        {
            proof {
                assert(file_holds(files, initial[i as int], tables@[i as int]@));
            }
            let seq = match parse_name(tables[i].file_path()) {
                Some((_, s)) => s,
                None => 0,
            };
            seqs.push(seq);
            i += 1;
        }
        let mut out: Vec<SSTable> = Vec::new();
        let ghost from = initial;
        let ghost to: Seq<int> = Seq::empty();
        proof {
            assert(to + from =~= initial);
        }
        while tables.len() > 0
            invariant
                from.len() == tables@.len(),
                seqs@.len() == tables@.len(),
                to.len() == out@.len(),
                out@.len() + tables@.len() == initial.len(),
                forall|x: int|
                    0 <= x < tables@.len() ==> (#[trigger] tables@[x]).wf() && file_holds(
                        files,
                        from[x],
                        tables@[x]@,
                    ) && tables@[x]@.records.len() > 0,
                forall|x: int| 0 <= x < seqs@.len() ==> #[trigger] seqs@[x] == seq_of(tables@[x]@),
                forall|x: int|
                    0 <= x < out@.len() ==> (#[trigger] out@[x]).wf() && file_holds(
                        files,
                        to[x],
                        out@[x]@,
                    ) && out@[x]@.records.len() > 0,
                distinct(to + from),
                forall|i: int| initial.contains(i) <==> (to + from).contains(i),
                forall|x: int, y: int|
                    0 <= x < y < out@.len() ==> seq_of((#[trigger] out@[x])@) <= seq_of(
                        (#[trigger] out@[y])@,
                    ),
                forall|x: int, y: int|
                    0 <= x < out@.len() && 0 <= y < seqs@.len() ==> seq_of((#[trigger] out@[x])@)
                        <= #[trigger] seqs@[y],
            decreases tables@.len(),
        {
            let m = Self::position_of_min(&seqs);
            let ghost prev_tables = tables@;
            let ghost prev_seqs = seqs@;
            let ghost prev_out = out@;
            let ghost prev_from = from;
            let ghost prev_to = to;
            let table = tables.remove(m);
            let _ = seqs.remove(m);
            out.push(table);
            proof {
                from = prev_from.remove(m as int);
                to = prev_to.push(prev_from[m as int]);
                lemma_move(prev_to, prev_from, m as int);
                assert forall|x: int| 0 <= x < tables@.len() implies (#[trigger] tables@[x]).wf()
                    && file_holds(files, from[x], tables@[x]@) && tables@[x]@.records.len() > 0
                    && seqs@[x] == seq_of(tables@[x]@) && prev_seqs[m as int] <= seqs@[x] by {
                    let y = if x < m { x } else { x + 1 };
                    assert(tables@[x] == prev_tables[y]);
                    assert(seqs@[x] == prev_seqs[y]);
                    assert(from[x] == prev_from[y]);
                }
                assert forall|x: int| 0 <= x < out@.len() implies (#[trigger] out@[x]).wf()
                    && file_holds(files, to[x], out@[x]@) && out@[x]@.records.len() > 0 && seq_of(
                    out@[x]@,
                ) <= prev_seqs[m as int] by {
                    if x < prev_out.len() {
                        assert(out@[x] == prev_out[x]);
                        assert(to[x] == prev_to[x]);
                    } else {
                        assert(out@[x] == prev_tables[m as int]);
                    }
                }
                assert forall|i: int| initial.contains(i) <==> (to + from).contains(i) by {
                    assert(initial.contains(i) <==> (prev_to + prev_from).contains(i));
                }
            }
        }
        proof {
            assert(to + from =~= to);
        }
        (out, Ghost(to))
    }

    /// Registers tables that come sorted by sequence number, oldest first,
    /// so that level 0 comes to stand newest first. Tables of one level
    /// below level 0 must be apart.
    #[verifier::rlimit(50)]
    fn register_sorted(
        level_manager: &mut LevelManager,
        sorted: Vec<SSTable>,
        Ghost(files): Ghost<Seq<(String, Vec<u8>)>>,
        Ghost(origin): Ghost<Seq<int>>,
    ) -> (r: DbResult<()>)
        requires
            old(level_manager).wf(),
            old(level_manager)@.len() == 0,
            origin.len() == sorted@.len(),
            forall|x: int|
                0 <= x < sorted@.len() ==> (#[trigger] sorted@[x]).wf() && file_holds(
                    files,
                    origin[x],
                    sorted@[x]@,
                ) && sorted@[x]@.records.len() > 0,
            distinct(origin),
            forall|x: int, y: int|
                0 <= x < y < sorted@.len() ==> seq_of((#[trigger] sorted@[x])@) <= seq_of(
                    (#[trigger] sorted@[y])@,
                ),
        ensures
            final(level_manager).file_limit() == old(level_manager).file_limit(),
            final(level_manager).multiplier() == old(level_manager).multiplier(),
            final(level_manager).wf(),
            match r {
                Ok(_) => {
                    &&& final(level_manager).apart()
                    &&& told_apart(crate::engine::level::models_of(sorted@), sorted@.len() as int)
                    &&& falling(level_at(final(level_manager)@, 0))
                    &&& forall|l: nat, t: TableModel|
                        #![trigger level_at(final(level_manager)@, l).contains(t)]
                        level_at(final(level_manager)@, l).contains(t) <==> t.level == l
                            && exists|x: int| 0 <= x < sorted@.len() && (#[trigger] sorted@[x])@ == t
                },
                Err(DbError::Corrupt(_)) => files_overlap(files) || numbers_repeat(files),
                Err(_) => false,
            },
    {
        let ghost all = sorted@;
        let mut sorted = sorted;
        let ghost n: int = 0;
        let mut newest: Option<u64> = None;
        proof {
            assert forall|l: nat| #[trigger] level_at(level_manager@, l) == Seq::<
                TableModel,
            >::empty() by {
                assert(level_at(level_manager@, l) =~= Seq::<TableModel>::empty());
            }
        }
        while sorted.len() > 0
            invariant
                level_manager.wf(),
                level_manager.apart(),
                level_manager.file_limit() == old(level_manager).file_limit(),
                level_manager.multiplier() == old(level_manager).multiplier(),
                0 <= n <= all.len(),
                sorted@ =~= all.skip(n),
                origin.len() == all.len(),
                forall|x: int|
                    0 <= x < all.len() ==> (#[trigger] all[x]).wf() && file_holds(
                        files,
                        origin[x],
                        all[x]@,
                    ) && all[x]@.records.len() > 0,
                distinct(origin),
                forall|x: int, y: int|
                    0 <= x < y < all.len() ==> seq_of((#[trigger] all[x])@) <= seq_of(
                        (#[trigger] all[y])@,
                    ),
                falling(level_at(level_manager@, 0)),
                told_apart(crate::engine::level::models_of(all), n),
                match newest {
                    Some(s) => level_at(level_manager@, 0).len() > 0 && seq_of(
                        level_at(level_manager@, 0)[0],
                    ) == s,
                    None => level_at(level_manager@, 0).len() == 0,
                },
                forall|l: nat, t: TableModel|
                    #![trigger level_at(level_manager@, l).contains(t)]
                    level_at(level_manager@, l).contains(t) <==> t.level == l && exists|x: int|
                        0 <= x < n && (#[trigger] all[x])@ == t,
            decreases sorted@.len(),
        {
            let ghost before = *level_manager;
            let table = sorted.remove(0);
            let ghost model = table@;
            let level = table.level();
            let seq: u64 = match parse_name(table.file_path()) {
                Some((_, s)) => s,
                None => 0,
            };
            proof {
                assert(table == all[n]);
                assert(file_holds(files, origin[n], model));
                assert(seq == seq_of(model));
            }
            if level == 0 && newest == Some(seq) {
                proof {
                    let other = level_at(level_manager@, 0)[0];
                    assert(level_at(level_manager@, 0).contains(other));
                    let y = choose|y: int| 0 <= y < n && (#[trigger] all[y])@ == other;
                    assert(origin[y] != origin[n]);
                    assert(file_holds(files, origin[y], other));
                    assert(other.level == 0 && model.level == 0);
                }
                return Err(
                    DbError::Corrupt("two tables of level 0 carry one number".to_string()),
                );
            }
            let ghost level_before = level_manager.level_models(level as nat);
            proof {
                assert(table == all[n]);
                table.lemma_wf();
                level_manager.lemma_wf();
                assert(level_before == level_at(level_manager@, level as nat));
            }
            if level >= 1 && level_manager.overlaps_any(level, table.min_key(), table.max_key()) {
                proof {
                    let p = choose|p: int|
                        0 <= p < level_before.len() && (#[trigger] level_before[p]).overlaps(
                            model.min_key(),
                            model.max_key(),
                        );
                    let other = level_before[p];
                    assert(level_at(level_manager@, level as nat).contains(other));
                    let y = choose|y: int| 0 <= y < n && (#[trigger] all[y])@ == other;
                    assert(origin[y] != origin[n]);
                    assert(file_holds(files, origin[y], other));
                    assert(file_holds(files, origin[n], model));
                    assert(ranges_meet(other, model));
                }
                return Err(
                    DbError::Corrupt("two tables of one level hold the same keys".to_string()),
                );
            }
            proof {
                if level >= 1 {
                    assert(pairwise_apart(level_before)) by {
                        if level < level_manager@.len() {
                            assert(pairwise_apart(level_manager@[level as int]));
                        }
                    }
                }
            }
            level_manager.add_sstable(table, level);
            proof {
                let after = level_manager@;
                let level_after = level_manager.level_models(level as nat);
                assert(model == TableModel { level: level as nat, ..model });
                let p = lemma_placed(level_before, level_after, model, level == 0);
                lemma_insert_contains(level_before, p, model);
                assert forall|l: nat| l != level implies #[trigger] level_at(after, l) == level_at(
                    before@,
                    l,
                ) by {
                    assert(level_manager.level_models(l) == before.level_models(l));
                }
                if level >= 1 {
                    assert forall|q: int| 0 <= q < level_before.len() implies !ranges_meet(
                        #[trigger] level_before[q],
                        model,
                    ) && !ranges_meet(model, level_before[q]) by {
                        assert(!level_before[q].overlaps(model.min_key(), model.max_key()));
                    }
                    lemma_insert_apart(level_before, p, model);
                }
                assert forall|l: int| 1 <= l < after.len() implies pairwise_apart(
                    #[trigger] after[l],
                ) by {
                    if l != level {
                        assert(level_at(after, l as nat) == level_at(before@, l as nat));
                        if l < before@.len() {
                            assert(pairwise_apart(before@[l]));
                        }
                    } else {
                        assert(after[l] == level_after);
                    }
                }
                assert forall|l: nat, t: TableModel|
                    #![trigger level_at(after, l).contains(t)]
                    level_at(after, l).contains(t) <==> t.level == l && exists|x: int|
                        0 <= x < n + 1 && (#[trigger] all[x])@ == t by {
                    let was = level_at(before@, l).contains(t);
                    assert(was <==> t.level == l && exists|x: int|
                        0 <= x < n && (#[trigger] all[x])@ == t);
                    if l == level {
                        assert(level_at(after, l) == level_after);
                        assert(level_after.contains(t) <==> was || t == model);
                    } else {
                        assert(level_at(after, l) == level_at(before@, l));
                    }
                    if t.level == l && exists|x: int| 0 <= x < n + 1 && (#[trigger] all[x])@ == t {
                        let x = choose|x: int| 0 <= x < n + 1 && (#[trigger] all[x])@ == t;
                        if x < n {
                            assert(was);
                        }
                    }
                    if was {
                        let x = choose|x: int| 0 <= x < n && (#[trigger] all[x])@ == t;
                        assert(0 <= x < n + 1 && all[x]@ == t);
                    }
                    if l == level && t == model {
                        assert(all[n]@ == t);
                    }
                }
                let head = level_at(after, 0);
                let old_head = level_at(before@, 0);
                if level == 0 {
                    assert(head == level_after);
                    assert(head =~= seq![model] + old_head);
                    if old_head.len() > 0 {
                        assert(old_head.contains(old_head[0]));
                        let x = choose|x: int| 0 <= x < n && (#[trigger] all[x])@ == old_head[0];
                        assert(seq_of(all[x]@) <= seq_of(all[n]@));
                        assert(seq_of(old_head[0]) < seq_of(model));
                    }
                    assert forall|a: int, b: int| 0 <= a < b < head.len() implies seq_of(
                        #[trigger] head[a],
                    ) > seq_of(#[trigger] head[b]) by {
                        assert(head[b] == old_head[b - 1]);
                        if a == 0 {
                            if b > 1 {
                                assert(seq_of(old_head[0]) > seq_of(old_head[b - 1]));
                            }
                        } else {
                            assert(head[a] == old_head[a - 1]);
                        }
                    }
                } else {
                    assert(head == old_head);
                }
                let ms = crate::engine::level::models_of(all);
                assert forall|x: int, y: int|
                    0 <= x < y < n + 1 && (#[trigger] ms[x]).level == (#[trigger] ms[y]).level implies if ms[x].level
                    == 0 {
                    seq_of(ms[x]) < seq_of(ms[y])
                } else {
                    !ranges_meet(ms[x], ms[y])
                } by {
                    if y == n {
                        assert(ms[y] == model);
                        assert(all[x]@ == ms[x]);
                        assert(level_at(before@, level as nat).contains(ms[x]));
                        let q = choose|q: int| 0 <= q < level_before.len() && level_before[q] == ms[x];
                        if level == 0 {
                            assert(old_head == level_before);
                            if q > 0 {
                                assert(seq_of(old_head[0]) > seq_of(old_head[q]));
                            }
                        } else {
                            assert(!level_before[q].overlaps(model.min_key(), model.max_key()));
                        }
                    }
                }
                assert(sorted@ =~= all.skip(n + 1));
                n = n + 1;
            }
            if level == 0 {
                newest = Some(seq);
            }
        }
        proof {
            assert(n == all.len());
        }
        Ok(())
    }

    /// What a tree that was opened over a directory holds: every table
    /// file holds a table, and the levels hold those tables, each at the
    /// level that its name spells, level 0 newest first; the next sequence
    /// number is above all that the names spell; the table in memory holds
    /// what the log spells.
    pub open spec fn opened(
        tree: &LSMTree,
        config: &LSMConfig,
        files: Seq<(String, Vec<u8>)>,
        log: Seq<u8>,
    ) -> bool {
        &&& tree.flush_limit() == config.memtable_size_limit
        &&& tree.file_limit() == config.l0_file_limit
        &&& tree.multiplier() == config.level_size_multiplier
        &&& tree.background() == config.background_compaction
        &&& !tree.compaction_pending()
        &&& files_readable(files)
        &&& holds_files(tree.levels(), files)
        &&& falling(level_at(tree.levels(), 0))
        &&& forall|i: int, m: TableModel|
            #![trigger file_holds(files, i, m)]
            file_holds(files, i, m) ==> seq_of(m) < tree.next_id()
        &&& tree.next_id() == 0 || exists|i: int, m: TableModel|
            #![trigger file_holds(files, i, m)]
            file_holds(files, i, m) && seq_of(m) + 1 == tree.next_id()
        &&& tree.next_made() == tree.next_id()
        &&& tree.memtable_model().dom().finite()
        &&& tree.entries() == tree.memtable_model().dom().len()
        &&& if config.enable_wal {
            &&& dec_log(log) is Some
            &&& tree.memtable_model() == replay(dec_log(log).unwrap())
            &&& tree.log() is Some
            &&& dec_log(tree.log().unwrap()) == dec_log(log)
        } else {
            &&& tree.memtable_model() == Map::<Seq<char>, Option<Seq<char>>>::empty()
            &&& tree.log() is None
        }
    }

    /// Opens a tree over what the data directory holds: `files` are its
    /// files by name, of which those that end in `.sst` are table files, and
    /// `wal_bytes` are the bytes of its log, if there is a log file. Each
    /// table is registered at the level that its name spells; the log is
    /// replayed into the table in memory. A configuration whose levels
    /// would not grow, with a multiplier below 2, is refused.
    #[verifier::rlimit(60)]
    pub fn with_config(
        config: LSMConfig,
        files: &Vec<(String, Vec<u8>)>,
        wal_bytes: Option<Vec<u8>>,
    ) -> (r: DbResult<Self>)
        ensures
            match r {
                Ok(t) => config.level_size_multiplier >= 2 && t.wf() && t.in_order()
                    && Self::opened(&t, &config, files@, given_log(wal_bytes)) && !files_overlap(
                    files@,
                ) && !numbers_repeat(files@) && !numbers_exhausted(files@),
                Err(DbError::InvalidArgument(_)) => config.level_size_multiplier < 2,
                Err(DbError::Corrupt(_)) => config.level_size_multiplier >= 2 && (!files_readable(
                    files@,
                ) || files_overlap(files@) || numbers_repeat(files@) || numbers_exhausted(files@)
                    || (config.enable_wal && dec_log(given_log(wal_bytes)) is None)),
                Err(_) => false,
            },
    {
        if config.level_size_multiplier < 2 {
            return Err(
                DbError::InvalidArgument("the level size multiplier must be 2 at least".to_string()),
            );
        }
        let (tables, top, origin) = match Self::load_existing_sstables(files) {
            Ok(loaded) => loaded,
            Err(e) => {
                return Err(e);
            },
        };
        let next: u64 = match top {
            Some(m) => {
                if m == u64::MAX {
                    return Err(DbError::Corrupt("no sequence number is left".to_string()));
                }
                m + 1
            },
            None => 0,
        };
        let mut level_manager = LevelManager::with_config(
            config.l0_file_limit,
            config.level_size_multiplier,
        );
        proof {
            assert(distinct(origin@)) by {
                assert forall|x: int, y: int|
                    0 <= x < origin@.len() && 0 <= y < origin@.len() && x != y implies origin@[x]
                    != origin@[y] by {
                    if x < y {
                        assert(origin@[x] < origin@[y]);
                    } else {
                        assert(origin@[y] < origin@[x]);
                    }
                }
            }
        }
        let (sorted, sorted_origin) = Self::sort_by_seq(tables, Ghost(files@), origin);
        let ghost arranged = sorted@;
        match Self::register_sorted(&mut level_manager, sorted, Ghost(files@), sorted_origin) {
            Ok(_) => {},
            Err(e) => {
                return Err(e);
            },
        }
        let mut memtable = MemTable::new();
        let wal = if config.enable_wal {
            let bytes = match wal_bytes {
                Some(b) => b,
                None => Vec::new(),
            };
            let w = match WAL::new("wal.log".to_string(), bytes) {
                Ok(w) => w,
                Err(e) => {
                    return Err(DbError::Corrupt(e.to_string()));
                },
            };
            match Self::replay_wal(&mut memtable, &w) {
                Ok(_) => {},
                Err(e) => {
                    return Err(e);
                },
            }
            Some(w)
        } else {
            None
        };
        let leveled_compactor = LeveledCompactor::new(
            config.data_dir.clone(),
            next,
        ).with_max_sst_bytes(config.max_sst_bytes);
        proof {
            assert forall|l: nat, t: TableModel|
                #![trigger level_at(level_manager@, l).contains(t)]
                level_at(level_manager@, l).contains(t) <==> t.level == l && t.records.len() > 0
                    && exists|i: int| file_holds(files@, i, t) by {
                if level_at(level_manager@, l).contains(t) {
                    let x = choose|x: int| 0 <= x < arranged.len() && (#[trigger] arranged[x])@ == t;
                    assert(file_holds(files@, sorted_origin@[x], t));
                }
                if t.level == l && t.records.len() > 0 && exists|i: int| file_holds(files@, i, t) {
                    let i = choose|i: int| file_holds(files@, i, t);
                    let x0 = choose|x: int| 0 <= x < origin@.len() && #[trigger] origin@[x] == i;
                    assert(origin@.contains(i));
                    assert(sorted_origin@.contains(i));
                    let x = choose|x: int| 0 <= x < sorted_origin@.len() && sorted_origin@[x] == i;
                    assert(file_holds(files@, sorted_origin@[x], arranged[x]@));
                    assert(arranged[x]@ == t);
                }
            }
            assert forall|l: nat, t: TableModel|
                #![trigger level_at(level_manager@, l).contains(t)]
                level_at(level_manager@, l).contains(t) implies well_named(t, l) && seq_of(t)
                < next by {
                let x = choose|x: int| 0 <= x < arranged.len() && (#[trigger] arranged[x])@ == t;
                assert(file_holds(files@, sorted_origin@[x], t));
            }
            let ms = crate::engine::level::models_of(arranged);
            // where two files hold tables, the tables stand at two places of the sorted list
            assert forall|i: int, j: int, a: TableModel, b: TableModel|
                #![trigger file_holds(files@, i, a), file_holds(files@, j, b)]
                i != j && file_holds(files@, i, a) && file_holds(files@, j, b) && a.level
                    == b.level && a.records.len() > 0 && b.records.len() > 0 implies if a.level
                == 0 {
                seq_of(a) != seq_of(b)
            } else {
                !ranges_meet(a, b)
            } by {
                assert(origin@.contains(i) && origin@.contains(j));
                assert(sorted_origin@.contains(i) && sorted_origin@.contains(j));
                let x = choose|x: int| 0 <= x < sorted_origin@.len() && sorted_origin@[x] == i;
                let y = choose|y: int| 0 <= y < sorted_origin@.len() && sorted_origin@[y] == j;
                assert(file_holds(files@, sorted_origin@[x], arranged[x]@));
                assert(file_holds(files@, sorted_origin@[y], arranged[y]@));
                assert(ms[x] == a && ms[y] == b);
                if x < y {
                    assert(ms[x].level == ms[y].level);
                } else {
                    assert(ms[y].level == ms[x].level);
                }
            }
        }
        let tree = LSMTree {
            memtable,
            level_manager,
            config,
            next_sstable_id: next,
            wal,
            leveled_compactor,
            compaction_requested: false,
            steady: true,
            flushed_count: Ghost(next as nat),
            made_count: Ghost(next as nat),
        };
        proof {
            tree.memtable.lemma_len();
            match top {
                Some(m) => {
                    let (i, t) = choose|i: int, t: TableModel|
                        #![trigger file_holds(files@, i, t)]
                        file_holds(files@, i, t) && seq_of(t) == m;
                    assert(file_holds(files@, i, t) && seq_of(t) + 1 == tree.next_id());
                },
                None => {},
            }
        }
        Ok(tree)
    }

    /// The files are the table files of the tree: one for each table, under
    /// its name, with its records in their frames.
    pub open spec fn is_directory_of(tree: &LSMTree, files: Seq<(String, Vec<u8>)>) -> bool {
        &&& files.len() == all_tables(tree.levels()).len()
        &&& forall|i: int|
            0 <= i < files.len() ==> (#[trigger] files[i]).0@ == all_tables(tree.levels())[i].file_path
                && files[i].1@ == crate::engine::codec::enc_run(
                all_tables(tree.levels())[i].records,
            )
    }

    /// The bytes of the tree's log; none where it keeps no log.
    pub open spec fn log_bytes(tree: &LSMTree) -> Seq<u8> {
        match tree.log() {
            Some(b) => b,
            None => Seq::empty(),
        }
    }

    /// Each file of the tree's directory holds the table that it was
    /// written from, and stands for the level and the place of that table.
    pub proof fn lemma_file_holds_table(&self, files: Seq<(String, Vec<u8>)>, i: int) -> (place: (
        int,
        int,
    ))
        requires
            self.wf(),
            self.in_order(),
            Self::is_directory_of(self, files),
            0 <= i < files.len(),
        ensures
            file_holds(files, i, all_tables(self.levels())[i]),
            forall|t: TableModel| file_holds(files, i, t) ==> t == all_tables(self.levels())[i],
            0 <= place.0 < self.levels().len(),
            0 <= place.1 < self.levels()[place.0].len(),
            self.levels()[place.0][place.1] == all_tables(self.levels())[i],
            i == level_offset(self.levels(), place.0) + place.1,
            all_tables(self.levels())[i].level == place.0,
            all_tables(self.levels())[i].records.len() > 0,
            all_tables(self.levels())[i].valid(),
            seq_of(all_tables(self.levels())[i]) < u64::MAX,
    {
        let levels = self.level_manager@;
        let l = lemma_level_of_index(levels, i);
        let p = i - level_offset(levels, l);
        lemma_level_is_stretch(levels, l);
        let t = levels[l][p];
        self.level_manager.lemma_wf();
        assert(t.valid() && t.records.len() > 0 && t.level == l);
        assert(level_at(levels, l as nat).contains(t));
        assert(well_named(t, l as nat));
        crate::engine::codec::lemma_run_round_trip(t.records);
        let name = files[i].0@;
        let b = encode_utf8(name);
        assert(parse_name_bytes(b) is Some);
        assert(is_table_name(b));
        assert(table_of_file(name, files[i].1@) == Some(t));
        (l, p)
    }

    /// The directory of a tree whose names are in order can be opened:
    /// every table file holds a table, no two deep tables of a level
    /// overlap, no two tables of level 0 carry one number, a number is left
    /// for the next table, and the log can be read.
    pub proof fn lemma_directory_opens(&self, files: Seq<(String, Vec<u8>)>)
        requires
            self.wf(),
            self.in_order(),
            Self::is_directory_of(self, files),
        ensures
            files_readable(files),
            !files_overlap(files),
            !numbers_repeat(files),
            !numbers_exhausted(files),
            dec_log(Self::log_bytes(self)) is Some,
    {
        let levels = self.level_manager@;
        let all = all_tables(levels);
        assert forall|i: int|
            0 <= i < files.len() && is_table_name(encode_utf8(#[trigger] files[i].0@)) implies table_of_file(
            files[i].0@,
            files[i].1@,
        ) is Some by {
            self.lemma_file_holds_table(files, i);
        }
        if files_overlap(files) {
            let (i, j, a, b) = choose|i: int, j: int, a: TableModel, b: TableModel|
                #![trigger file_holds(files, i, a), file_holds(files, j, b)]
                i != j && file_holds(files, i, a) && file_holds(files, j, b) && a.level == b.level
                    && a.level >= 1 && a.records.len() > 0 && b.records.len() > 0 && ranges_meet(
                    a,
                    b,
                );
            let (li, pi) = self.lemma_file_holds_table(files, i);
            let (lj, pj) = self.lemma_file_holds_table(files, j);
            assert(a == all[i] && b == all[j]);
            assert(li == lj && pi != pj);
            assert(pairwise_apart(levels[li]));
            if pi < pj {
                assert(!ranges_meet(levels[li][pi], levels[li][pj]));
            } else {
                assert(!ranges_meet(levels[li][pj], levels[li][pi]));
            }
            assert(false);
        }
        if numbers_repeat(files) {
            let (i, j, a, b) = choose|i: int, j: int, a: TableModel, b: TableModel|
                #![trigger file_holds(files, i, a), file_holds(files, j, b)]
                i != j && file_holds(files, i, a) && file_holds(files, j, b) && a.level == 0
                    && b.level == 0 && a.records.len() > 0 && b.records.len() > 0 && seq_of(a)
                    == seq_of(b);
            let (li, pi) = self.lemma_file_holds_table(files, i);
            let (lj, pj) = self.lemma_file_holds_table(files, j);
            assert(a == all[i] && b == all[j]);
            assert(li == 0 && lj == 0 && pi != pj);
            assert(level_at(levels, 0) == levels[0]);
            if pi < pj {
                assert(seq_of(levels[0][pi]) > seq_of(levels[0][pj]));
            } else {
                assert(seq_of(levels[0][pj]) > seq_of(levels[0][pi]));
            }
            assert(false);
        }
        if numbers_exhausted(files) {
            let (i, t) = choose|i: int, t: TableModel|
                #![trigger file_holds(files, i, t)]
                file_holds(files, i, t) && seq_of(t) == u64::MAX;
            self.lemma_file_holds_table(files, i);
            assert(false);
        }
        if self.wal is None {
            assert(crate::engine::codec::dec_log_entries(
                crate::engine::codec::split_frames(Seq::<u8>::empty(), 0).0,
            ) is Some);
        }
    }

    /// A level of a tree that was opened over the directory of another
    /// holds the tables that the level of the other holds.
    pub proof fn lemma_reopened_level(
        &self,
        reopened: &LSMTree,
        files: Seq<(String, Vec<u8>)>,
        l: nat,
        t: TableModel,
    )
        requires
            self.wf(),
            self.in_order(),
            Self::is_directory_of(self, files),
            holds_files(reopened.levels(), files),
        ensures
            level_at(reopened.levels(), l).contains(t) <==> level_at(self.levels(), l).contains(t),
    {
        let levels = self.level_manager@;
        let all = all_tables(levels);
        if level_at(reopened.levels(), l).contains(t) {
            let i = choose|i: int| file_holds(files, i, t);
            let (li, pi) = self.lemma_file_holds_table(files, i);
            assert(t == all[i]);
            assert(li == l);
            assert(levels[li][pi] == t);
            assert(level_at(levels, l).contains(t));
        }
        if level_at(levels, l).contains(t) {
            let p = choose|p: int| 0 <= p < level_at(levels, l).len() && level_at(levels, l)[p] == t;
            assert(l < levels.len());
            lemma_level_is_stretch(levels, l as int);
            let i = level_offset(levels, l as int) + p;
            assert(all[i] == levels[l as int][p]);
            self.lemma_file_holds_table(files, i);
            assert(file_holds(files, i, t));
        }
    }

    /// A tree that is opened over the directory of a tree whose names are
    /// in order reads every key as that tree does.
    pub proof fn lemma_reopen(
        &self,
        reopened: &LSMTree,
        config: &LSMConfig,
        files: Seq<(String, Vec<u8>)>,
    )
        requires
            self.wf(),
            self.in_order(),
            Self::is_directory_of(self, files),
            config.enable_wal == (self.log() is Some),
            self.log() is Some || self.entries() == 0,
            reopened.wf(),
            Self::opened(reopened, config, files, Self::log_bytes(self)),
        ensures
            Self::reads_alike(self, reopened),
            forall|k: Seq<char>| #[trigger] reopened.found(k) == self.found(k),
            reopened.memtable_model() == self.memtable_model(),
    {
        let a = reopened.level_manager@;
        let b = self.level_manager@;
        if self.wal is None {
            self.lemma_empty_memtable();
        }
        assert(reopened.memtable@ == self.memtable@);
        self.level_manager.lemma_wf();
        reopened.level_manager.lemma_wf();
        assert forall|l: nat, t: TableModel|
            #![trigger level_at(a, l).contains(t)]
            level_at(a, l).contains(t) <==> level_at(b, l).contains(t) by {
            self.lemma_reopened_level(reopened, files, l, t);
        }
        assert forall|k: Seq<char>| #[trigger] reopened.found(k) == self.found(k) by {
            assert forall|l: nat|
                level_lookup(#[trigger] level_at(a, l), k) == level_lookup(level_at(b, l), k) by {
                let x = level_at(a, l);
                let y = level_at(b, l);
                assert forall|t: TableModel| #[trigger] x.contains(t) <==> y.contains(t) by {
                    assert(level_at(a, l).contains(t) <==> level_at(b, l).contains(t));
                }
                if l == 0 {
                    lemma_falling_lookup(x, y, k);
                } else {
                    if l < a.len() {
                        assert(pairwise_apart(a[l as int]));
                    }
                    if l < b.len() {
                        assert(pairwise_apart(b[l as int]));
                    }
                    lemma_same_tables_lookup(x, y, k);
                }
            }
            lemma_lookup_from_levels(a, b, 0, k);
        }
    }
}

} // verus!
