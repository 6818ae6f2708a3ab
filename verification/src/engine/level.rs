//! The level manager: the live tables, grouped by level. Level 0 holds
//! freshly flushed tables, newest first; each deeper level is kept in the
//! order of its tables' smallest keys.

use vstd::prelude::*;
use vstd::string::StringExecFns;
use crate::engine::naming::{append_decimal, decimal};
use crate::engine::lookup::{level_lookup, levels_apart, lookup_from};
use crate::engine::codec::enc_run;
use crate::types::Value;
use crate::engine::sstable::{SSTable, TableModel};
use crate::keys::{
    compare_keys, key_le, key_lt, lemma_key_lt_asymmetric, lemma_key_lt_irreflexive,
    lemma_key_lt_total, lemma_key_lt_transitive, KeyOrder,
};

verus! {

/// The models of a sequence of tables.
pub open spec fn models_of(tables: Seq<SSTable>) -> Seq<TableModel> {
    Seq::new(tables.len(), |i: int| tables[i]@)
}

/// Every table is well formed.
pub open spec fn all_wf(tables: Seq<SSTable>) -> bool {
    forall|i: int| 0 <= i < tables.len() ==> (#[trigger] tables[i]).wf()
}

/// The tables come in the order of their smallest keys.
pub open spec fn sorted_by_min(ts: Seq<TableModel>) -> bool {
    forall|i: int, j: int|
        0 <= i < j < ts.len() ==> key_le((#[trigger] ts[i]).min_key(), (#[trigger] ts[j]).min_key())
}

/// What a level must satisfy: its tables are well formed, hold records, know
/// their level, and below level 0 come in the order of their smallest keys.
pub open spec fn level_ok(tables: Seq<SSTable>, level: nat) -> bool {
    &&& forall|i: int|
        0 <= i < tables.len() ==> (#[trigger] tables[i]).wf() && tables[i]@.level == level
            && tables[i]@.records.len() > 0
    &&& level >= 1 ==> sorted_by_min(models_of(tables))
}

/// The table entered the level at some place; at the head, if `head` says so.
pub open spec fn placed(
    before: Seq<TableModel>,
    after: Seq<TableModel>,
    t: TableModel,
    head: bool,
) -> bool {
    exists|p: int|
        0 <= p <= before.len() && (head ==> p == 0) && after == #[trigger] before.insert(p, t)
}

/// The place at which a table entered a level.
pub proof fn lemma_placed(
    before: Seq<TableModel>,
    after: Seq<TableModel>,
    t: TableModel,
    head: bool,
) -> (p: int)
    requires
        placed(before, after, t, head),
    ensures
        0 <= p <= before.len(),
        head ==> p == 0,
        after == before.insert(p, t),
{
    choose|p: int|
        0 <= p <= before.len() && (head ==> p == 0) && after == #[trigger] before.insert(p, t)
}

/// The number of records in the tables.
pub open spec fn total_records(ts: Seq<TableModel>) -> nat
    decreases ts.len(),
{
    if ts.len() == 0 {
        0
    } else {
        total_records(ts.drop_last()) + ts.last().records.len()
    }
}

/// `base` raised to `exp`.
pub open spec fn power(base: nat, exp: nat) -> nat
    decreases exp,
{
    if exp == 0 {
        1
    } else {
        base * power(base, (exp - 1) as nat)
    }
}

/// The capacity of level 1, in records: ten times 2^20.
pub const LEVEL_1_CAPACITY: u64 = 10_485_760;

/// The capacity of a level: the file limit at level 0, and from level 1 on
/// a number of records that grows by the multiplier with each level.
pub open spec fn capacity(level: nat, file_limit: nat, multiplier: nat) -> nat {
    if level == 0 {
        file_limit
    } else {
        LEVEL_1_CAPACITY as nat * power(multiplier, (level - 1) as nat)
    }
}

/// The smaller of a number and the largest `usize`.
pub open spec fn clamp_usize(n: nat) -> usize {
    if n > usize::MAX {
        usize::MAX
    } else {
        n as usize
    }
}

/// Whether a level is due for compaction: level 0 when it holds at least
/// `file_limit` tables, a deeper level when it holds more records than its
/// capacity.
pub open spec fn due(tables: Seq<TableModel>, level: nat, file_limit: nat, multiplier: nat) -> bool {
    if level == 0 {
        tables.len() > 0 && tables.len() >= file_limit
    } else {
        total_records(tables) > capacity(level, file_limit, multiplier)
    }
}

/// The smaller of a number and the largest `u128`.
pub open spec fn clamp_u128(n: nat) -> u128 {
    if n > u128::MAX {
        u128::MAX
    } else {
        n as u128
    }
}

/// The test for a table whose key range meets the range from `min` to `max`.
pub open spec fn overlapping(min: Seq<char>, max: Seq<char>) -> spec_fn(TableModel) -> bool {
    |t: TableModel| t.overlaps(min, max)
}

/// The test for a table whose key range misses the range from `min` to `max`.
pub open spec fn apart(min: Seq<char>, max: Seq<char>) -> spec_fn(TableModel) -> bool {
    |t: TableModel| !t.overlaps(min, max)
}

/// Some table of `listed` has this path and this level.
pub open spec fn is_listed(listed: Seq<TableModel>, t: TableModel) -> bool {
    exists|i: int|
        0 <= i < listed.len() && (#[trigger] listed[i]).file_path == t.file_path && listed[i].level
            == t.level
}

/// The test for a table that is not among `listed`.
pub open spec fn unlisted(listed: Seq<TableModel>) -> spec_fn(TableModel) -> bool {
    |t: TableModel| !is_listed(listed, t)
}

/// The tables of all levels in one sequence: level 0 first, each level in its order.
pub open spec fn all_tables(levels: Seq<Seq<TableModel>>) -> Seq<TableModel>
    decreases levels.len(),
{
    if levels.len() == 0 {
        Seq::empty()
    } else {
        all_tables(levels.drop_last()) + levels.last()
    }
}

/// Figures of one level.
#[derive(Debug, Clone, Copy)]
pub struct LevelStats {
    pub file_count: usize,
    pub total_size: usize,
    pub max_size: usize,
    pub should_compact: bool,
}

/// Figures of all levels, from level 0 to the deepest.
#[derive(Debug)]
pub struct LevelManagerStats {
    pub max_level: usize,
    pub level_stats: Vec<LevelStats>,
}

/// The figures of one level as a line of text.
pub open spec fn level_line(level: nat, stats: LevelStats) -> Seq<char> {
    "  Level "@ + decimal(level) + ": "@ + decimal(stats.file_count as nat) + " files, "@
        + decimal(stats.total_size as nat) + " entries, max: "@ + decimal(stats.max_size as nat)
        + " (compact: "@ + (if stats.should_compact {
        "true"@
    } else {
        "false"@
    }) + ")\n"@
}

/// The lines of the levels, from level 0 on.
pub open spec fn level_lines(stats: Seq<LevelStats>) -> Seq<char>
    decreases stats.len(),
{
    if stats.len() == 0 {
        Seq::empty()
    } else {
        level_lines(stats.drop_last()) + level_line((stats.len() - 1) as nat, stats.last())
    }
}

/// The figures of all levels as text: a heading, the deepest level, and a
/// line for each level.
pub open spec fn manager_stats_text(stats: LevelManagerStats) -> Seq<char> {
    "Level Manager Stats:\n Max level: "@ + decimal(stats.max_level as nat) + "\n"@ + level_lines(
        stats.level_stats@,
    )
}

impl LevelManagerStats {
    /// The figures as text.
    pub fn to_string(&self) -> (r: String)
        ensures
            r@ == manager_stats_text(*self),
    {
        let mut out = String::from_str("Level Manager Stats:\n Max level: ");
        append_decimal(&mut out, self.max_level as u64);
        out.append("\n");
        let ghost head = out@;
        let ghost all = self.level_stats@;
        let mut i: usize = 0;
        proof {
            assert(all.take(0) =~= Seq::<LevelStats>::empty());
            assert(out@ =~= head + level_lines(all.take(0)));
        }
        while i < self.level_stats.len()
            invariant
                i <= all.len(),
                all == self.level_stats@,
                out@ == head + level_lines(all.take(i as int)),
            decreases self.level_stats.len() - i,
        {
            let stats = self.level_stats[i];
            let ghost before = out@;
            out.append("  Level ");
            append_decimal(&mut out, i as u64);
            out.append(": ");
            append_decimal(&mut out, stats.file_count as u64);
            out.append(" files, ");
            append_decimal(&mut out, stats.total_size as u64);
            out.append(" entries, max: ");
            append_decimal(&mut out, stats.max_size as u64);
            out.append(" (compact: ");
            if stats.should_compact {
                out.append("true");
            } else {
                out.append("false");
            }
            out.append(")\n");
            proof {
                assert(all.take(i + 1).drop_last() =~= all.take(i as int));
                assert(all.take(i + 1).last() == all[i as int]);
                assert(out@ =~= before + level_line(i as nat, stats));
                assert(out@ =~= head + level_lines(all.take(i + 1)));
            }
            i += 1;
        }
        proof {
            assert(all.take(i as int) =~= all);
        }
        out
    }
}

/// The level manager.
#[derive(Debug)]
pub struct LevelManager {
    levels: Vec<Vec<SSTable>>,
    max_level: usize,
    level_size_multiplier: usize,
    level_0_file_limit: usize,
}

impl View for LevelManager {
    type V = Seq<Seq<TableModel>>;

    /// The tables of each level, from level 0 to the deepest that holds any.
    closed spec fn view(&self) -> Seq<Seq<TableModel>> {
        Seq::new(self.levels@.len(), |l: int| models_of(self.levels@[l]@))
    }
}

pub proof fn lemma_total_records_push(ts: Seq<TableModel>, t: TableModel)
    ensures
        total_records(ts.push(t)) == total_records(ts) + t.records.len(),
{
    assert(ts.push(t).drop_last() =~= ts);
}

impl LevelManager {
    /// The invariant: each level is in order, the deepest level holds a
    /// table, and the cached depth is right.
    pub closed spec fn wf(&self) -> bool {
        &&& forall|l: int|
            0 <= l < self.levels@.len() ==> level_ok((#[trigger] self.levels@[l])@, l as nat)
        &&& self.levels@.len() > 0 ==> self.levels@[self.levels@.len() - 1]@.len() > 0
        &&& self.max_level == if self.levels@.len() == 0 {
            0
        } else {
            self.levels@.len() - 1
        }
    }

    /// The tables of a level; none for a level that does not exist.
    pub open spec fn level_models(&self, level: nat) -> Seq<TableModel> {
        if level < self@.len() {
            self@[level as int]
        } else {
            Seq::empty()
        }
    }

    /// From level 1 on, no two tables of a level have a key of their ranges
    /// in common.
    pub open spec fn apart(&self) -> bool {
        levels_apart(self@)
    }

    pub closed spec fn file_limit(&self) -> nat {
        self.level_0_file_limit as nat
    }

    pub closed spec fn multiplier(&self) -> nat {
        self.level_size_multiplier as nat
    }

    /// What well-formedness says of the model.
    pub proof fn lemma_wf(&self)
        requires
            self.wf(),
        ensures
            forall|l: int, i: int|
                0 <= l < self@.len() && 0 <= i < self@[l].len() ==> (#[trigger] self@[l][i]).valid()
                    && self@[l][i].records.len() > 0 && self@[l][i].level == l,
            forall|l: int| 1 <= l < self@.len() ==> sorted_by_min(#[trigger] self@[l]),
            self@.len() > 0 ==> self@[self@.len() - 1].len() > 0,
    {
        assert forall|l: int, i: int|
            0 <= l < self@.len() && 0 <= i < self@[l].len() implies (#[trigger] self@[l][i]).valid()
            && self@[l][i].records.len() > 0 && self@[l][i].level == l by {
            assert(level_ok(self.levels@[l]@, l as nat));
            self.levels@[l]@[i].lemma_wf();
        }
        assert forall|l: int| 1 <= l < self@.len() implies sorted_by_min(#[trigger] self@[l]) by {
            assert(level_ok(self.levels@[l]@, l as nat));
        }
    }

    pub fn new() -> (r: Self)
        ensures
            r.wf(),
            r@.len() == 0,
            r.file_limit() == 4,
            r.multiplier() == 10,
    {
        LevelManager {
            levels: Vec::new(),
            max_level: 0,
            level_size_multiplier: 10,
            level_0_file_limit: 4,
        }
    }

    pub fn with_config(level_0_file_limit: usize, level_size_multiplier: usize) -> (r: Self)
        ensures
            r.wf(),
            r@.len() == 0,
            r.file_limit() == level_0_file_limit,
            r.multiplier() == level_size_multiplier,
    {
        LevelManager { levels: Vec::new(), max_level: 0, level_size_multiplier, level_0_file_limit }
    }

    /// The position at which a table with smallest key `min` enters a level
    /// below level 0: behind every table whose smallest key is not larger.
    fn position_for(tables: &Vec<SSTable>, min: &str) -> (p: usize)
        requires
            all_wf(tables@),
            sorted_by_min(models_of(tables@)),
        ensures
            p <= tables@.len(),
            forall|j: int| 0 <= j < p ==> key_le((#[trigger] tables@[j])@.min_key(), min@),
            forall|j: int| p <= j < tables@.len() ==> key_lt(min@, (#[trigger] tables@[j])@.min_key()),
    {
        let ghost ms = models_of(tables@);
        let mut p: usize = 0;
        while p < tables.len()
            invariant
                p <= tables@.len(),
                all_wf(tables@),
                ms == models_of(tables@),
                sorted_by_min(ms),
                forall|j: int| 0 <= j < p ==> key_le((#[trigger] tables@[j])@.min_key(), min@),
            decreases tables.len() - p,
        {
            match compare_keys(min, tables[p].min_key()) {
                KeyOrder::Less => {
                    proof {
                        assert forall|j: int| p <= j < tables@.len() implies key_lt(
                            min@,
                            (#[trigger] tables@[j])@.min_key(),
                        ) by {
                            if j > p {
                                assert(key_le(ms[p as int].min_key(), ms[j].min_key()));
                                if ms[p as int].min_key() != ms[j].min_key() {
                                    lemma_key_lt_transitive(
                                        min@,
                                        ms[p as int].min_key(),
                                        ms[j].min_key(),
                                    );
                                }
                            }
                        }
                    }
                    return p;
                },
                _ => {
                    proof {
                        lemma_key_lt_total(min@, tables@[p as int]@.min_key());
                    }
                },
            }
            p += 1;
        }
        p
    }

    /// Registers a table at `level`: at the head of level 0, or in a deeper
    /// level at the place that the order of smallest keys gives it. A table
    /// without records is not registered.
    pub fn add_sstable(&mut self, sstable: SSTable, level: usize)
        requires
            old(self).wf(),
            sstable.wf(),
        ensures
            final(self).wf(),
            final(self).file_limit() == old(self).file_limit(),
            final(self).multiplier() == old(self).multiplier(),
            sstable@.records.len() == 0 ==> final(self)@ == old(self)@,
            sstable@.records.len() > 0 ==> {
                &&& final(self)@.len() == if level < old(self)@.len() {
                    old(self)@.len()
                } else {
                    (level + 1) as nat
                }
                &&& forall|l: nat|
                    l != level ==> #[trigger] final(self).level_models(l) == old(self).level_models(l)
                &&& placed(
                    old(self).level_models(level as nat),
                    final(self).level_models(level as nat),
                    TableModel { level: level as nat, ..sstable@ },
                    level == 0,
                )
            },
    {
        if sstable.is_empty() {
            return;
        }
        let ghost model = TableModel { level: level as nat, ..sstable@ };
        let ghost before = self.levels@;
        let sstable = sstable.with_level(level);
        while self.levels.len() <= level
            invariant
                level < before.len() ==> self.levels@ == before,
                before.len() <= self.levels@.len(),
                level >= before.len() ==> self.levels@.len() <= level + 1,
                self.level_0_file_limit == old(self).level_0_file_limit,
                self.level_size_multiplier == old(self).level_size_multiplier,
                forall|l: int| 0 <= l < before.len() ==> self.levels@[l] == before[l],
                forall|l: int| before.len() <= l < self.levels@.len() ==> (#[trigger] self.levels@[l])@.len() == 0,
            decreases level + 1 - self.levels@.len(),
        {
            self.levels.push(Vec::new());
        }
        let ghost padded = self.levels@;
        let mut tables = self.levels.remove(level);
        let ghost old_tables = tables@;
        let p: usize = if level == 0 {
            0
        } else {
            proof {
                if level < before.len() {
                    assert(level_ok(before[level as int]@, level as nat));
                }
            }
            Self::position_for(&tables, sstable.min_key())
        };
        tables.insert(p, sstable);
        proof {
            assert(models_of(tables@) =~= models_of(old_tables).insert(p as int, model));
            if level >= 1 {
                lemma_insert_sorted(models_of(old_tables), p as int, model);
            }
            assert(level_ok(tables@, level as nat));
        }
        self.levels.insert(level, tables);
        self.max_level = self.levels.len() - 1;
        proof {
            assert forall|l: int| 0 <= l < self.levels@.len() implies level_ok(
                (#[trigger] self.levels@[l])@,
                l as nat,
            ) by {
                if l != level {
                    assert(self.levels@[l] == padded[l]);
                    if l < before.len() {
                        assert(level_ok(before[l]@, l as nat));
                    }
                }
            }
            assert forall|l: nat| l != level implies #[trigger] self.level_models(l) == old(
                self,
            ).level_models(l) by {
                if l < self@.len() {
                    assert(self.levels@[l as int] == padded[l as int]);
                    if l >= before.len() {
                        assert(self@[l as int] =~= Seq::<TableModel>::empty());
                    }
                }
            }
            assert(old(self).level_models(level as nat) =~= models_of(old_tables));
            assert(self.level_models(level as nat) == old(self).level_models(level as nat).insert(
                p as int,
                model,
            ));
        }
    }

    /// Copies of the tables of a level, in their order.
    pub fn get_sstables_at_level(&self, level: usize) -> (r: Vec<SSTable>)
        requires
            self.wf(),
        ensures
            models_of(r@) == self.level_models(level as nat),
            all_wf(r@),
    {
        let mut out: Vec<SSTable> = Vec::new();
        if level < self.levels.len() {
            let tables = &self.levels[level];
            proof {
                assert(level_ok(tables@, level as nat));
            }
            let mut i: usize = 0;
            while i < tables.len()
                invariant
                    i <= tables@.len(),
                    out@.len() == i,
                    level_ok(tables@, level as nat),
                    forall|j: int| 0 <= j < i ==> (#[trigger] out@[j])@ == tables@[j]@ && out@[j].wf(),
                decreases tables.len() - i,
            {
                out.push(tables[i].clone());
                i += 1;
            }
            proof {
                assert(models_of(out@) =~= self.level_models(level as nat));
            }
        } else {
            proof {
                assert(models_of(out@) =~= self.level_models(level as nat));
            }
        }
        out
    }

    /// The number of tables at a level.
    pub fn get_level_count(&self, level: usize) -> (r: usize)
        ensures
            r == self.level_models(level as nat).len(),
    {
        if level < self.levels.len() {
            self.levels[level].len()
        } else {
            0
        }
    }

    /// The deepest level that holds a table; 0 when there is none.
    pub fn get_max_level(&self) -> (r: usize)
        requires
            self.wf(),
        ensures
            r == if self@.len() == 0 {
                0
            } else {
                self@.len() - 1
            },
    {
        self.max_level
    }

    pub fn is_empty(&self) -> (r: bool)
        ensures
            r == (self@.len() == 0),
    {
        self.levels.len() == 0
    }

    /// The number of levels, from level 0 to the deepest that holds a table.
    pub fn depth(&self) -> (r: usize)
        ensures
            r == self@.len(),
    {
        self.levels.len()
    }

    /// Copies of all tables: level 0 first, each level in its order.
    pub fn get_all_sstables(&self) -> (r: Vec<SSTable>)
        requires
            self.wf(),
        ensures
            models_of(r@) == all_tables(self@),
            all_wf(r@),
    {
        let mut out: Vec<SSTable> = Vec::new();
        let mut l: usize = 0;
        while l < self.levels.len()
            invariant
                self.wf(),
                l <= self.levels@.len(),
                models_of(out@) == all_tables(self@.take(l as int)),
                all_wf(out@),
            decreases self.levels.len() - l,
        {
            let tables = &self.levels[l];
            let ghost start = models_of(out@);
            proof {
                assert(level_ok(tables@, l as nat));
            }
            let mut i: usize = 0;
            while i < tables.len()
                invariant
                    i <= tables@.len(),
                    level_ok(tables@, l as nat),
                    models_of(out@) == start + models_of(tables@).take(i as int),
                    all_wf(out@),
                decreases tables.len() - i,
            {
                let ghost prev = models_of(out@);
                out.push(tables[i].clone());
                proof {
                    assert(models_of(out@) =~= prev.push(tables@[i as int]@));
                    assert(models_of(tables@).take(i + 1) =~= models_of(tables@).take(i as int).push(
                        tables@[i as int]@,
                    ));
                    assert(models_of(out@) =~= start + models_of(tables@).take(i + 1));
                }
                i += 1;
            }
            proof {
                assert(models_of(tables@).take(i as int) =~= models_of(tables@));
                assert(self@.take(l + 1).drop_last() =~= self@.take(l as int));
                assert(self@.take(l + 1).last() == models_of(tables@));
            }
            l += 1;
        }
        proof {
            assert(self@.take(l as int) =~= self@);
        }
        out
    }

    /// The number of records at a level, as a wide number that cannot overflow.
    fn level_total(&self, level: usize) -> (r: u128)
        ensures
            r == total_records(self.level_models(level as nat)),
    {
        if level >= self.levels.len() {
            return 0;
        }
        let tables = &self.levels[level];
        let ghost ms = models_of(tables@);
        let mut total: u128 = 0;
        let mut i: usize = 0;
        while i < tables.len()
            invariant
                i <= tables@.len(),
                ms == models_of(tables@),
                total == total_records(ms.take(i as int)),
                total <= i * 0xffff_ffff_ffff_ffff,
            decreases tables.len() - i,
        {
            let n: usize = tables[i].records().len();
            proof {
                assert(ms.take(i + 1) =~= ms.take(i as int).push(ms[i as int]));
                lemma_total_records_push(ms.take(i as int), ms[i as int]);
                assert((i + 1) * 0xffff_ffff_ffff_ffff == i * 0xffff_ffff_ffff_ffff
                    + 0xffff_ffff_ffff_ffff) by (nonlinear_arith);
                assert(i * 0xffff_ffff_ffff_ffff <= 0xffff_ffff_ffff_ffff * 0xffff_ffff_ffff_ffff)
                    by (nonlinear_arith)
                    requires
                        i <= 0xffff_ffff_ffff_ffff,
                ;
            }
            total = total + n as u128;
            i += 1;
        }
        proof {
            assert(ms.take(i as int) =~= ms);
        }
        total
    }

    /// The capacity of a level, capped at the largest wide number.
    fn level_capacity(&self, level: usize) -> (r: u128)
        ensures
            r == clamp_u128(capacity(level as nat, self.file_limit(), self.multiplier())),
    {
        if level == 0 {
            return self.level_0_file_limit as u128;
        }
        let m: u128 = self.level_size_multiplier as u128;
        let mut acc: u128 = LEVEL_1_CAPACITY as u128;
        let mut i: usize = 1;
        proof {
            assert(power(m as nat, 0) == 1);
        }
        while i < level
            invariant_except_break
                acc == clamp_u128(LEVEL_1_CAPACITY as nat * power(m as nat, (i - 1) as nat)),
            invariant
                1 <= i <= level,
                m == self.level_size_multiplier,
            ensures
                acc == clamp_u128(LEVEL_1_CAPACITY as nat * power(m as nat, (level - 1) as nat)),
            decreases level - i,
        {
            let ghost p = power(m as nat, (i - 1) as nat);
            let ghost exact = LEVEL_1_CAPACITY as nat * p;
            proof {
                assert(power(m as nat, i as nat) == m * p);
                assert(LEVEL_1_CAPACITY as nat * (m * p) == exact * m) by (nonlinear_arith)
                    requires
                        exact == LEVEL_1_CAPACITY as nat * p,
                ;
            }
            if m == 0 {
                proof {
                    lemma_power_zero((level - 1) as nat);
                }
                acc = 0;
                break;
            }
            if acc == u128::MAX || acc > u128::MAX / m {
                proof {
                    assert(exact >= acc);
                    assert(exact * m >= u128::MAX) by (nonlinear_arith)
                        requires
                            exact >= acc,
                            acc == u128::MAX || acc > u128::MAX / m,
                            m > 0,
                    ;
                    lemma_power_monotone(m as nat, i as nat, (level - 1) as nat);
                    assert(LEVEL_1_CAPACITY as nat * power(m as nat, (level - 1) as nat)
                        >= LEVEL_1_CAPACITY as nat * power(m as nat, i as nat)) by (nonlinear_arith)
                        requires
                            power(m as nat, (level - 1) as nat) >= power(m as nat, i as nat),
                    ;
                }
                acc = u128::MAX;
                break;
            }
            proof {
                assert(acc * m <= u128::MAX) by (nonlinear_arith)
                    requires
                        acc <= u128::MAX / m,
                        m > 0,
                ;
                assert(acc == exact);
            }
            acc = acc * m;
            i += 1;
        }
        acc
    }

    /// The number of records at a level, capped at the largest `usize`.
    pub fn get_level_size(&self, level: usize) -> (r: usize)
        ensures
            r == clamp_usize(total_records(self.level_models(level as nat))),
    {
        let total = self.level_total(level);
        if total > usize::MAX as u128 {
            usize::MAX
        } else {
            total as usize
        }
    }

    /// The capacity of a level, capped at the largest `usize`.
    pub fn get_max_level_size(&self, level: usize) -> (r: usize)
        ensures
            r == clamp_usize(capacity(level as nat, self.file_limit(), self.multiplier())),
    {
        let cap = self.level_capacity(level);
        if cap > usize::MAX as u128 {
            usize::MAX
        } else {
            cap as usize
        }
    }

    /// Whether a level is due for compaction.
    pub fn should_compact(&self, level: usize) -> (r: bool)
        ensures
            r == due(
                self.level_models(level as nat),
                level as nat,
                self.file_limit(),
                self.multiplier(),
            ),
    {
        if level == 0 {
            let count = self.get_level_count(0);
            count > 0 && count >= self.level_0_file_limit
        } else {
            let total = self.level_total(level);
            let cap = self.level_capacity(level);
            total > cap
        }
    }

    /// The tables that a compaction of `level` takes: all of the level when
    /// it is level 0 or over its capacity, and none otherwise.
    pub fn get_compaction_candidates(&self, level: usize) -> (r: Vec<SSTable>)
        requires
            self.wf(),
        ensures
            all_wf(r@),
            models_of(r@) == if level == 0 || due(
                self.level_models(level as nat),
                level as nat,
                self.file_limit(),
                self.multiplier(),
            ) {
                self.level_models(level as nat)
            } else {
                Seq::empty()
            },
    {
        if level == 0 || self.should_compact(level) {
            self.get_sstables_at_level(level)
        } else {
            let out: Vec<SSTable> = Vec::new();
            proof {
                assert(models_of(out@) =~= Seq::<TableModel>::empty());
            }
            out
        }
    }

    /// Whether the key range of a table meets the range from `min` to `max`.
    fn table_overlaps(table: &SSTable, min: &str, max: &str) -> (r: bool)
        requires
            table.wf(),
        ensures
            r == table@.overlaps(min@, max@),
    {
        let high = compare_keys(min, table.max_key());
        let low = compare_keys(table.min_key(), max);
        proof {
            lemma_key_lt_irreflexive(min@);
            lemma_key_lt_irreflexive(max@);
            if high == KeyOrder::Greater {
                lemma_key_lt_asymmetric(table@.max_key(), min@);
            }
            if low == KeyOrder::Greater {
                lemma_key_lt_asymmetric(max@, table@.min_key());
            }
        }
        high != KeyOrder::Greater && low != KeyOrder::Greater
    }

    /// Copies of the tables of a level whose key range meets the range from
    /// `min_key` to `max_key`, in their order.
    pub fn get_overlapping_sstables(&self, level: usize, min_key: &str, max_key: &str) -> (r: Vec<
        SSTable,
    >)
        requires
            self.wf(),
        ensures
            all_wf(r@),
            models_of(r@) == self.level_models(level as nat).filter(
                overlapping(min_key@, max_key@),
            ),
    {
        let mut out: Vec<SSTable> = Vec::new();
        let ghost pred = overlapping(min_key@, max_key@);
        if level >= self.levels.len() {
            proof {
                assert(models_of(out@) =~= Seq::<TableModel>::empty());
                assert(Seq::<TableModel>::empty().filter(pred) =~= Seq::<TableModel>::empty());
            }
            return out;
        }
        let tables = &self.levels[level];
        let ghost ms = models_of(tables@);
        proof {
            assert(level_ok(tables@, level as nat));
            assert(ms.take(0).filter(pred) =~= Seq::<TableModel>::empty());
            assert(models_of(out@) =~= Seq::<TableModel>::empty());
        }
        let mut i: usize = 0;
        while i < tables.len()
            invariant
                i <= tables@.len(),
                level_ok(tables@, level as nat),
                ms == models_of(tables@),
                pred == overlapping(min_key@, max_key@),
                all_wf(out@),
                models_of(out@) == ms.take(i as int).filter(pred),
            decreases tables.len() - i,
        {
            let ghost prev = models_of(out@);
            proof {
                assert(ms.take(i + 1) =~= ms.take(i as int).push(ms[i as int]));
                ms.take(i as int).lemma_filter_push(ms[i as int], pred);
            }
            if Self::table_overlaps(&tables[i], min_key, max_key) {
                out.push(tables[i].clone());
                proof {
                    assert(models_of(out@) =~= prev.push(ms[i as int]));
                }
            }
            i += 1;
        }
        proof {
            assert(ms.take(i as int) =~= ms);
        }
        out
    }

    /// What the tables of one level say of a key: the answer of the first
    /// table that knows it.
    fn find_in_level<'a>(tables: &'a Vec<SSTable>, key: &str) -> (r: Option<&'a Value>)
        requires
            all_wf(tables@),
        ensures
            match r {
                Some(v) => level_lookup(models_of(tables@), key@) == Some(v@),
                None => level_lookup(models_of(tables@), key@) is None,
            },
    {
        let ghost ms = models_of(tables@);
        let mut i: usize = 0;
        proof {
            assert(ms.skip(0) =~= ms);
        }
        while i < tables.len()
            invariant
                i <= tables@.len(),
                all_wf(tables@),
                ms == models_of(tables@),
                level_lookup(ms, key@) == level_lookup(ms.skip(i as int), key@),
            decreases tables.len() - i,
        {
            proof {
                assert(ms.skip(i as int)[0] == tables@[i as int]@);
                assert(ms.skip(i as int).drop_first() =~= ms.skip(i + 1));
            }
            match tables[i].lookup(key) {
                Some(v) => {
                    return Some(v);
                },
                None => {},
            }
            i += 1;
        }
        None
    }

    /// What the tables say of a key: the answer of the first level that
    /// knows it, level 0 first.
    pub fn find(&self, key: &str) -> (r: Option<&Value>)
        requires
            self.wf(),
        ensures
            match r {
                Some(v) => lookup_from(self@, 0, key@) == Some(v@),
                None => lookup_from(self@, 0, key@) is None,
            },
    {
        let mut l: usize = 0;
        while l < self.levels.len()
            invariant
                l <= self.levels@.len(),
                self.wf(),
                lookup_from(self@, 0, key@) == lookup_from(self@, l as nat, key@),
            decreases self.levels.len() - l,
        {
            proof {
                assert(level_ok(self.levels@[l as int]@, l as nat));
            }
            match Self::find_in_level(&self.levels[l], key) {
                Some(v) => {
                    return Some(v);
                },
                None => {},
            }
            l += 1;
        }
        None
    }

    /// Whether the key range of some table of a level meets the range from
    /// `min_key` to `max_key`.
    pub fn overlaps_any(&self, level: usize, min_key: &str, max_key: &str) -> (r: bool)
        requires
            self.wf(),
        ensures
            r == exists|i: int|
                0 <= i < self.level_models(level as nat).len() && (#[trigger] self.level_models(
                    level as nat,
                )[i]).overlaps(min_key@, max_key@),
    {
        if level >= self.levels.len() {
            return false;
        }
        let tables = &self.levels[level];
        proof {
            assert(level_ok(tables@, level as nat));
        }
        let mut i: usize = 0;
        while i < tables.len()
            invariant
                i <= tables@.len(),
                level_ok(tables@, level as nat),
                models_of(tables@) == self.level_models(level as nat),
                forall|j: int| 0 <= j < i ==> !(#[trigger] tables@[j])@.overlaps(min_key@, max_key@),
            decreases tables.len() - i,
        {
            if Self::table_overlaps(&tables[i], min_key, max_key) {
                proof {
                    assert(self.level_models(level as nat)[i as int].overlaps(min_key@, max_key@));
                }
                return true;
            }
            i += 1;
        }
        proof {
            assert forall|j: int| 0 <= j < self.level_models(level as nat).len() implies !(
            #[trigger] self.level_models(level as nat)[j]).overlaps(min_key@, max_key@) by {
                assert(!tables@[j]@.overlaps(min_key@, max_key@));
            }
        }
        false
    }

    /// Figures of every level from level 0 to the deepest.
    pub fn stats(&self) -> (r: LevelManagerStats)
        requires
            self.wf(),
        ensures
            r.max_level == if self@.len() == 0 {
                0
            } else {
                self@.len() - 1
            },
            r.level_stats@.len() == r.max_level + 1,
            forall|l: int|
                0 <= l < r.level_stats@.len() ==> {
                    let s = #[trigger] r.level_stats@[l];
                    &&& s.file_count == self.level_models(l as nat).len()
                    &&& s.total_size == clamp_usize(total_records(self.level_models(l as nat)))
                    &&& s.max_size == clamp_usize(
                        capacity(l as nat, self.file_limit(), self.multiplier()),
                    )
                    &&& s.should_compact == due(
                        self.level_models(l as nat),
                        l as nat,
                        self.file_limit(),
                        self.multiplier(),
                    )
                },
    {
        let mut level_stats: Vec<LevelStats> = Vec::new();
        let mut l: usize = 0;
        let last: usize = self.max_level;
        loop
            invariant_except_break
                level_stats@.len() == l,
            invariant
                self.wf(),
                last == self.max_level,
                l <= last,
                forall|x: int|
                    0 <= x < level_stats@.len() ==> {
                        let s = #[trigger] level_stats@[x];
                        &&& s.file_count == self.level_models(x as nat).len()
                        &&& s.total_size == clamp_usize(total_records(self.level_models(x as nat)))
                        &&& s.max_size == clamp_usize(
                            capacity(x as nat, self.file_limit(), self.multiplier()),
                        )
                        &&& s.should_compact == due(
                            self.level_models(x as nat),
                            x as nat,
                            self.file_limit(),
                            self.multiplier(),
                        )
                    },
            ensures
                level_stats@.len() == last + 1,
                forall|x: int|
                    0 <= x < level_stats@.len() ==> {
                        let s = #[trigger] level_stats@[x];
                        &&& s.file_count == self.level_models(x as nat).len()
                        &&& s.total_size == clamp_usize(total_records(self.level_models(x as nat)))
                        &&& s.max_size == clamp_usize(
                            capacity(x as nat, self.file_limit(), self.multiplier()),
                        )
                        &&& s.should_compact == due(
                            self.level_models(x as nat),
                            x as nat,
                            self.file_limit(),
                            self.multiplier(),
                        )
                    },
            decreases last - l,
        {
            let stats = LevelStats {
                file_count: self.get_level_count(l),
                total_size: self.get_level_size(l),
                max_size: self.get_max_level_size(l),
                should_compact: self.should_compact(l),
            };
            level_stats.push(stats);
            if l == last {
                break;
            }
            l += 1;
        }
        LevelManagerStats { max_level: self.max_level, level_stats }
    }

    /// Whether a table with this path and this level is among `listed`.
    fn listed(listed: &[SSTable], path: &str, level: usize) -> (r: bool)
        ensures
            r == exists|i: int|
                0 <= i < listed@.len() && (#[trigger] listed@[i])@.file_path == path@
                    && listed@[i]@.level == level,
    {
        let mut i: usize = 0;
        while i < listed.len()
            invariant
                i <= listed@.len(),
                forall|j: int|
                    0 <= j < i ==> !((#[trigger] listed@[j])@.file_path == path@ && listed@[j]@.level
                        == level),
            decreases listed.len() - i,
        {
            if listed[i].level() == level && compare_keys(listed[i].file_path(), path)
                == KeyOrder::Equal {
                return true;
            }
            i += 1;
        }
        false
    }

    /// Unregisters every table whose path and level are those of a table of
    /// `sstables_to_remove`. The other tables stay, in their order.
    pub fn remove_sstables(&mut self, sstables_to_remove: &[SSTable])
        requires
            old(self).wf(),
        ensures
            final(self).wf(),
            final(self).file_limit() == old(self).file_limit(),
            final(self).multiplier() == old(self).multiplier(),
            forall|l: nat|
                #[trigger] final(self).level_models(l) == old(self).level_models(l).filter(
                    unlisted(models_of(sstables_to_remove@)),
                ),
    {
        let ghost gone = models_of(sstables_to_remove@);
        let ghost keep = unlisted(gone);
        let ghost before = self.levels@;
        let mut l: usize = 0;
        while l < self.levels.len()
            invariant
                l <= self.levels@.len(),
                self.levels@.len() == before.len(),
                self.level_0_file_limit == old(self).level_0_file_limit,
                self.level_size_multiplier == old(self).level_size_multiplier,
                gone == models_of(sstables_to_remove@),
                keep == unlisted(gone),
                forall|x: int| 0 <= x < before.len() ==> level_ok((#[trigger] before[x])@, x as nat),
                forall|x: int| l <= x < before.len() ==> self.levels@[x] == before[x],
                forall|x: int|
                    0 <= x < l ==> level_ok((#[trigger] self.levels@[x])@, x as nat) && models_of(
                        self.levels@[x]@,
                    ) == models_of(before[x]@).filter(keep),
            decreases self.levels.len() - l,
        {
            let mut tables = self.levels.remove(l);
            let ghost all = tables@;
            let ghost ms = models_of(all);
            let mut rest: Vec<SSTable> = Vec::new();
            let ghost done: int = 0;
            proof {
                assert(all == before[l as int]@);
                assert(level_ok(all, l as nat));
                assert(ms.take(0).filter(keep) =~= Seq::<TableModel>::empty());
                assert(models_of(rest@) =~= Seq::<TableModel>::empty());
            }
            while tables.len() > 0
                invariant
                    0 <= done <= all.len(),
                    tables@ =~= all.skip(done),
                    level_ok(all, l as nat),
                    ms == models_of(all),
                    gone == models_of(sstables_to_remove@),
                    keep == unlisted(gone),
                    all_wf(rest@),
                    models_of(rest@) == ms.take(done).filter(keep),
                    forall|i: int|
                        0 <= i < rest@.len() ==> (#[trigger] rest@[i])@.level == l
                            && rest@[i]@.records.len() > 0,
                decreases tables@.len(),
            {
                let table = tables.remove(0);
                let ghost prev = models_of(rest@);
                proof {
                    assert(table == all[done]);
                    assert(ms.take(done + 1) =~= ms.take(done).push(ms[done]));
                    ms.take(done).lemma_filter_push(ms[done], keep);
                }
                let drop_it = Self::listed(sstables_to_remove, table.file_path(), table.level());
                proof {
                    if drop_it {
                        let i = choose|i: int|
                            0 <= i < sstables_to_remove@.len() && (
                            #[trigger] sstables_to_remove@[i])@.file_path == table@.file_path
                                && sstables_to_remove@[i]@.level == table@.level;
                        assert(gone[i].file_path == ms[done].file_path);
                        assert(is_listed(gone, ms[done]));
                    } else {
                        if is_listed(gone, ms[done]) {
                            let i = choose|i: int|
                                0 <= i < gone.len() && (#[trigger] gone[i]).file_path
                                    == ms[done].file_path && gone[i].level == ms[done].level;
                            assert(sstables_to_remove@[i]@.file_path == table@.file_path);
                        }
                    }
                }
                if !drop_it {
                    rest.push(table);
                    proof {
                        assert(models_of(rest@) =~= prev.push(ms[done]));
                    }
                }
                proof {
                    done = done + 1;
                }
            }
            proof {
                assert(ms.take(done) =~= ms);
                if l >= 1 {
                    lemma_filter_sorted(ms, keep);
                }
                assert(level_ok(rest@, l as nat));
            }
            let ghost mid = self.levels@;
            self.levels.insert(l, rest);
            proof {
                assert forall|x: int| l + 1 <= x < before.len() implies self.levels@[x]
                    == before[x] by {
                    assert(self.levels@[x] == mid[x - 1]);
                }
                assert forall|x: int| 0 <= x < l + 1 implies level_ok(
                    (#[trigger] self.levels@[x])@,
                    x as nat,
                ) && models_of(self.levels@[x]@) == models_of(before[x]@).filter(keep) by {
                    if x < l {
                        assert(self.levels@[x] == mid[x]);
                    }
                }
            }
            l += 1;
        }
        let ghost mid = *self;
        self.trim();
        proof {
            assert forall|x: nat| #[trigger] self.level_models(x) == old(self).level_models(
                x,
            ).filter(keep) by {
                assert(self.level_models(x) == mid.level_models(x));
                if x < before.len() {
                    assert(mid@[x as int] == models_of(before[x as int]@).filter(keep));
                } else {
                    assert(Seq::<TableModel>::empty().filter(keep) =~= Seq::<TableModel>::empty());
                }
            }
        }
    }

    /// The path and the file bytes of every table: level 0 first, each level
    /// in its order.
    pub fn files(&self) -> (r: Vec<(String, Vec<u8>)>)
        requires
            self.wf(),
        ensures
            r@.len() == all_tables(self@).len(),
            forall|i: int|
                0 <= i < r@.len() ==> (#[trigger] r@[i]).0@ == all_tables(self@)[i].file_path
                    && r@[i].1@ == enc_run(all_tables(self@)[i].records),
    {
        let mut out: Vec<(String, Vec<u8>)> = Vec::new();
        let mut l: usize = 0;
        while l < self.levels.len()
            invariant
                self.wf(),
                l <= self.levels@.len(),
                out@.len() == all_tables(self@.take(l as int)).len(),
                forall|i: int|
                    0 <= i < out@.len() ==> (#[trigger] out@[i]).0@ == all_tables(
                        self@.take(l as int),
                    )[i].file_path && out@[i].1@ == enc_run(
                        all_tables(self@.take(l as int))[i].records,
                    ),
            decreases self.levels.len() - l,
        {
            let tables = &self.levels[l];
            let ghost start = all_tables(self@.take(l as int));
            let ghost ms = models_of(tables@);
            proof {
                assert(level_ok(tables@, l as nat));
                assert(self@.take(l + 1).drop_last() =~= self@.take(l as int));
                assert(self@.take(l + 1).last() == ms);
                assert(all_tables(self@.take(l + 1)) == start + ms);
            }
            let mut i: usize = 0;
            while i < tables.len()
                invariant
                    i <= tables@.len(),
                    level_ok(tables@, l as nat),
                    ms == models_of(tables@),
                    out@.len() == start.len() + i,
                    forall|j: int|
                        0 <= j < out@.len() ==> (#[trigger] out@[j]).0@ == (start + ms)[j].file_path
                            && out@[j].1@ == enc_run((start + ms)[j].records),
                decreases tables.len() - i,
            {
                let bytes = tables[i].to_bytes();
                out.push((tables[i].file_path().to_string(), bytes));
                i += 1;
            }
            l += 1;
        }
        proof {
            assert(self@.take(l as int) =~= self@);
        }
        out
    }

    /// The path of every table: level 0 first, each level in its order.
    pub fn file_names(&self) -> (r: Vec<String>)
        requires
            self.wf(),
        ensures
            r@.len() == all_tables(self@).len(),
            forall|i: int| 0 <= i < r@.len() ==> (#[trigger] r@[i])@ == all_tables(self@)[i].file_path,
    {
        let mut out: Vec<String> = Vec::new();
        let mut l: usize = 0;
        while l < self.levels.len()
            invariant
                self.wf(),
                l <= self.levels@.len(),
                out@.len() == all_tables(self@.take(l as int)).len(),
                forall|i: int|
                    0 <= i < out@.len() ==> (#[trigger] out@[i])@ == all_tables(
                        self@.take(l as int),
                    )[i].file_path,
            decreases self.levels.len() - l,
        {
            let tables = &self.levels[l];
            let ghost start = all_tables(self@.take(l as int));
            let ghost ms = models_of(tables@);
            proof {
                assert(self@.take(l + 1).drop_last() =~= self@.take(l as int));
                assert(self@.take(l + 1).last() == ms);
            }
            let mut i: usize = 0;
            while i < tables.len()
                invariant
                    i <= tables@.len(),
                    ms == models_of(tables@),
                    out@.len() == start.len() + i,
                    forall|j: int|
                        0 <= j < out@.len() ==> (#[trigger] out@[j])@ == (start + ms)[j].file_path,
                decreases tables.len() - i,
            {
                out.push(tables[i].file_path().to_string());
                i += 1;
            }
            l += 1;
        }
        proof {
            assert(self@.take(l as int) =~= self@);
        }
        out
    }

    /// The file bytes of the first table with this path, if there is one.
    pub fn file_bytes(&self, path: &str) -> (r: Option<Vec<u8>>)
        requires
            self.wf(),
        ensures
            match r {
                Some(bytes) => exists|l: int, i: int|
                    0 <= l < self@.len() && 0 <= i < self@[l].len() && (#[trigger] self@[l][i]).file_path
                        == path@ && bytes@ == enc_run(self@[l][i].records),
                None => forall|l: int, i: int|
                    0 <= l < self@.len() && 0 <= i < self@[l].len() ==> (#[trigger] self@[l][i]).file_path
                        != path@,
            },
    {
        let mut l: usize = 0;
        while l < self.levels.len()
            invariant
                self.wf(),
                l <= self.levels@.len(),
                forall|x: int, i: int|
                    0 <= x < l && 0 <= i < self@[x].len() ==> (#[trigger] self@[x][i]).file_path
                        != path@,
            decreases self.levels.len() - l,
        {
            let tables = &self.levels[l];
            proof {
                assert(level_ok(tables@, l as nat));
            }
            let mut i: usize = 0;
            while i < tables.len()
                invariant
                    i <= tables@.len(),
                    l < self.levels@.len(),
                    level_ok(tables@, l as nat),
                    models_of(tables@) == self@[l as int],
                    forall|j: int| 0 <= j < i ==> (#[trigger] self@[l as int][j]).file_path != path@,
                decreases tables.len() - i,
            {
                if compare_keys(tables[i].file_path(), path) == KeyOrder::Equal {
                    let bytes = tables[i].to_bytes();
                    proof {
                        assert(self@[l as int][i as int].file_path == path@);
                    }
                    return Some(bytes);
                }
                i += 1;
            }
            l += 1;
        }
        None
    }

    /// Drops the levels at the deep end that hold no table, and sets the depth.
    fn trim(&mut self)
        requires
            forall|l: int|
                0 <= l < old(self).levels@.len() ==> level_ok(
                    (#[trigger] old(self).levels@[l])@,
                    l as nat,
                ),
        ensures
            final(self).wf(),
            final(self).file_limit() == old(self).file_limit(),
            final(self).multiplier() == old(self).multiplier(),
            forall|l: nat| #[trigger] final(self).level_models(l) == old(self).level_models(l),
            final(self)@.len() <= old(self)@.len(),
    {
        while self.levels.len() > 0 && self.levels[self.levels.len() - 1].len() == 0
            invariant
                self.level_0_file_limit == old(self).level_0_file_limit,
                self.level_size_multiplier == old(self).level_size_multiplier,
                self.levels@.len() <= old(self).levels@.len(),
                forall|l: int| 0 <= l < self.levels@.len() ==> self.levels@[l] == old(self).levels@[l],
                forall|l: int|
                    self.levels@.len() <= l < old(self).levels@.len() ==> (#[trigger] old(
                        self,
                    ).levels@[l])@.len() == 0,
            decreases self.levels@.len(),
        {
            self.levels.pop();
        }
        self.max_level = if self.levels.len() == 0 {
            0
        } else {
            self.levels.len() - 1
        };
        proof {
            assert forall|l: nat| #[trigger] self.level_models(l) == old(self).level_models(l) by {
                if l < old(self)@.len() {
                    if l >= self@.len() {
                        assert(old(self).levels@[l as int]@.len() == 0);
                        assert(old(self)@[l as int] =~= Seq::<TableModel>::empty());
                    } else {
                        assert(self.levels@[l as int] == old(self).levels@[l as int]);
                    }
                }
            }
        }
    }

    /// Unregisters and hands out all tables of a level, in their order.
    pub fn take_level(&mut self, level: usize) -> (r: Vec<SSTable>)
        requires
            old(self).wf(),
        ensures
            final(self).wf(),
            final(self).file_limit() == old(self).file_limit(),
            final(self).multiplier() == old(self).multiplier(),
            all_wf(r@),
            models_of(r@) == old(self).level_models(level as nat),
            final(self).level_models(level as nat) == Seq::<TableModel>::empty(),
            forall|l: nat|
                l != level ==> #[trigger] final(self).level_models(l) == old(self).level_models(l),
    {
        if level >= self.levels.len() {
            let out: Vec<SSTable> = Vec::new();
            proof {
                assert(models_of(out@) =~= Seq::<TableModel>::empty());
            }
            return out;
        }
        let ghost before = self.levels@;
        let tables = self.levels.remove(level);
        self.levels.insert(level, Vec::new());
        proof {
            assert(level_ok(tables@, level as nat));
            assert forall|l: int| 0 <= l < self.levels@.len() implies level_ok(
                (#[trigger] self.levels@[l])@,
                l as nat,
            ) by {
                if l != level {
                    assert(self.levels@[l] == before[l]);
                    assert(level_ok(before[l]@, l as nat));
                }
            }
        }
        let ghost mid = *self;
        self.trim();
        proof {
            assert(mid.level_models(level as nat) =~= Seq::<TableModel>::empty());
            assert forall|l: nat| l != level implies #[trigger] self.level_models(l) == old(
                self,
            ).level_models(l) by {
                assert(self.level_models(l) == mid.level_models(l));
                if l < mid@.len() {
                    assert(mid.levels@[l as int] == before[l as int]);
                }
            }
            assert(self.level_models(level as nat) == mid.level_models(level as nat));
        }
        tables
    }

    /// Unregisters and hands out the tables of a level whose key range meets
    /// the range from `min_key` to `max_key`; the others stay, in their order.
    pub fn take_overlapping(&mut self, level: usize, min_key: &str, max_key: &str) -> (r: Vec<
        SSTable,
    >)
        requires
            old(self).wf(),
        ensures
            final(self).wf(),
            final(self).file_limit() == old(self).file_limit(),
            final(self).multiplier() == old(self).multiplier(),
            all_wf(r@),
            models_of(r@) == old(self).level_models(level as nat).filter(
                overlapping(min_key@, max_key@),
            ),
            final(self).level_models(level as nat) == old(self).level_models(level as nat).filter(
                apart(min_key@, max_key@),
            ),
            forall|l: nat|
                l != level ==> #[trigger] final(self).level_models(l) == old(self).level_models(l),
    {
        let mut hit: Vec<SSTable> = Vec::new();
        let ghost yes = overlapping(min_key@, max_key@);
        let ghost no = apart(min_key@, max_key@);
        if level >= self.levels.len() {
            proof {
                assert(models_of(hit@) =~= Seq::<TableModel>::empty());
                assert(Seq::<TableModel>::empty().filter(yes) =~= Seq::<TableModel>::empty());
                assert(Seq::<TableModel>::empty().filter(no) =~= Seq::<TableModel>::empty());
            }
            return hit;
        }
        let ghost before = self.levels@;
        let mut tables = self.levels.remove(level);
        let ghost ms = models_of(tables@);
        let ghost all = tables@;
        let mut rest: Vec<SSTable> = Vec::new();
        proof {
            assert(level_ok(tables@, level as nat));
            assert(ms.take(0).filter(yes) =~= Seq::<TableModel>::empty());
            assert(ms.take(0).filter(no) =~= Seq::<TableModel>::empty());
            assert(models_of(hit@) =~= Seq::<TableModel>::empty());
            assert(models_of(rest@) =~= Seq::<TableModel>::empty());
        }
        let ghost done: int = 0;
        while tables.len() > 0
            invariant
                0 <= done <= all.len(),
                tables@ =~= all.skip(done),
                level_ok(all, level as nat),
                ms == models_of(all),
                yes == overlapping(min_key@, max_key@),
                no == apart(min_key@, max_key@),
                all_wf(hit@),
                all_wf(rest@),
                models_of(hit@) == ms.take(done).filter(yes),
                models_of(rest@) == ms.take(done).filter(no),
                forall|i: int|
                    0 <= i < rest@.len() ==> (#[trigger] rest@[i])@.level == level
                        && rest@[i]@.records.len() > 0,
            decreases tables@.len(),
        {
            let table = tables.remove(0);
            let ghost prev_hit = models_of(hit@);
            let ghost prev_rest = models_of(rest@);
            proof {
                assert(table == all[done]);
                assert(ms.take(done + 1) =~= ms.take(done).push(ms[done]));
                ms.take(done).lemma_filter_push(ms[done], yes);
                ms.take(done).lemma_filter_push(ms[done], no);
            }
            if Self::table_overlaps(&table, min_key, max_key) {
                hit.push(table);
                proof {
                    assert(models_of(hit@) =~= prev_hit.push(ms[done]));
                }
            } else {
                rest.push(table);
                proof {
                    assert(models_of(rest@) =~= prev_rest.push(ms[done]));
                }
            }
            proof {
                done = done + 1;
            }
        }
        proof {
            assert(ms.take(done) =~= ms);
            if level >= 1 {
                lemma_filter_sorted(ms, no);
            }
            assert(level_ok(rest@, level as nat));
        }
        self.levels.insert(level, rest);
        proof {
            assert forall|l: int| 0 <= l < self.levels@.len() implies level_ok(
                (#[trigger] self.levels@[l])@,
                l as nat,
            ) by {
                if l != level {
                    assert(self.levels@[l] == before[l]);
                    assert(level_ok(before[l]@, l as nat));
                }
            }
        }
        let ghost mid = *self;
        self.trim();
        proof {
            assert(old(self).level_models(level as nat) == ms);
            assert(mid.level_models(level as nat) == ms.filter(no));
            assert forall|l: nat| l != level implies #[trigger] self.level_models(l) == old(
                self,
            ).level_models(l) by {
                assert(self.level_models(l) == mid.level_models(l));
                if l < mid@.len() {
                    assert(mid.levels@[l as int] == before[l as int]);
                }
            }
            assert(self.level_models(level as nat) == mid.level_models(level as nat));
        }
        hit
    }
}

/// A table that enters a sorted level at its place leaves the level sorted.
pub proof fn lemma_insert_sorted(ts: Seq<TableModel>, p: int, t: TableModel)
    requires
        sorted_by_min(ts),
        0 <= p <= ts.len(),
        forall|j: int| 0 <= j < p ==> key_le((#[trigger] ts[j]).min_key(), t.min_key()),
        forall|j: int| p <= j < ts.len() ==> key_lt(t.min_key(), (#[trigger] ts[j]).min_key()),
    ensures
        sorted_by_min(ts.insert(p, t)),
{
    let us = ts.insert(p, t);
    assert forall|i: int, j: int| 0 <= i < j < us.len() implies key_le(
        (#[trigger] us[i]).min_key(),
        (#[trigger] us[j]).min_key(),
    ) by {
        if j < p {
            assert(key_le(ts[i].min_key(), ts[j].min_key()));
        } else if j == p {
            assert(key_le(ts[i].min_key(), t.min_key()));
        } else if i == p {
            assert(key_lt(t.min_key(), ts[j - 1].min_key()));
        } else if i < p {
            assert(key_le(ts[i].min_key(), ts[j - 1].min_key()));
        } else {
            assert(key_le(ts[i - 1].min_key(), ts[j - 1].min_key()));
        }
    }
}

/// A level that is due for compaction holds a table.
pub proof fn lemma_due_has_tables(ts: Seq<TableModel>, level: nat, file_limit: nat, multiplier: nat)
    requires
        due(ts, level, file_limit, multiplier),
    ensures
        ts.len() > 0,
{
}

pub proof fn lemma_power_zero(exp: nat)
    ensures
        exp > 0 ==> power(0, exp) == 0,
{
}

pub proof fn lemma_power_positive(base: nat, exp: nat)
    requires
        base >= 1,
    ensures
        power(base, exp) >= 1,
    decreases exp,
{
    if exp > 0 {
        lemma_power_positive(base, (exp - 1) as nat);
        assert(base * power(base, (exp - 1) as nat) >= 1) by (nonlinear_arith)
            requires
                base >= 1,
                power(base, (exp - 1) as nat) >= 1,
        ;
    }
}

pub proof fn lemma_power_monotone(base: nat, a: nat, b: nat)
    requires
        base >= 1,
        a <= b,
    ensures
        power(base, a) <= power(base, b),
    decreases b,
{
    if a < b {
        lemma_power_monotone(base, a, (b - 1) as nat);
        lemma_power_positive(base, (b - 1) as nat);
        assert(base * power(base, (b - 1) as nat) >= power(base, (b - 1) as nat))
            by (nonlinear_arith)
            requires
                base >= 1,
        ;
    }
}

/// Tables picked from a sorted level, in their order, are sorted.
pub proof fn lemma_filter_sorted(ts: Seq<TableModel>, pred: spec_fn(TableModel) -> bool)
    requires
        sorted_by_min(ts),
    ensures
        sorted_by_min(ts.filter(pred)),
    decreases ts.len(),
{
    reveal(Seq::filter);
    if ts.len() > 0 {
        let head = ts.drop_last();
        assert forall|i: int, j: int| 0 <= i < j < head.len() implies key_le(
            (#[trigger] head[i]).min_key(),
            (#[trigger] head[j]).min_key(),
        ) by {
            assert(key_le(ts[i].min_key(), ts[j].min_key()));
        }
        lemma_filter_sorted(head, pred);
        let fs = head.filter(pred);
        if pred(ts.last()) {
            let gs = fs.push(ts.last());
            assert forall|i: int, j: int| 0 <= i < j < gs.len() implies key_le(
                (#[trigger] gs[i]).min_key(),
                (#[trigger] gs[j]).min_key(),
            ) by {
                if j < fs.len() {
                    assert(key_le(fs[i].min_key(), fs[j].min_key()));
                } else {
                    head.lemma_filter_contains_rev(pred, fs[i]);
                    assert(fs.contains(fs[i]));
                    let k = choose|k: int| 0 <= k < head.len() && head[k] == fs[i];
                    assert(key_le(ts[k].min_key(), ts[ts.len() - 1].min_key()));
                }
            }
        }
    }
}

} // verus!
