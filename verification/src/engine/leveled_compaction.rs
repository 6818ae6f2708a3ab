//! Leveled compaction: the tables of one level are merged with the tables of
//! the next level that they overlap, and the result replaces them there.

use vstd::prelude::*;
use vstd::string::StringSliceAdditionalSpecFns;
use vstd::utf8::encode_utf8;
use crate::engine::codec::storable;
use crate::engine::level::{
    apart, due, lemma_placed, models_of, overlapping, LevelManager,
};
use crate::engine::lookup::{
    all_valid, level_at, level_lookup, levels_apart, lookup_from, or_else, pairwise_apart,
    ranges_meet, read,
};
use crate::engine::merge_laws::{
    chunk_start, lemma_chunk_is_stretch, lemma_chunks_of_run, lemma_compaction_step, lemma_filter_level,
    lemma_insert_apart, lemma_live_run, lemma_made_apart_from_rest, made_of, within,
};
use crate::engine::naming::{level_name, spec_level_name};
use crate::engine::sstable::{all_storable, SSTable, TableModel};
use crate::types::DbResult;
use crate::keys::{
    compare_keys, key_le, key_lt, lemma_key_le_or_gt, lemma_key_le_transitive,
    lemma_key_lt_transitive, KeyOrder,
};
use crate::model::{
    ascending, entries_of, has_key, lemma_run_map_empty, lemma_run_map_push, lemma_run_map_take,
    run_map, Layer,
};
use crate::types::{Entry, Record, Value};

verus! {

/// The map that a stack of tables denotes, the first table on top: a key maps
/// to what the first table that holds it says.
pub open spec fn overlay(ts: Seq<TableModel>) -> Layer
    decreases ts.len(),
{
    if ts.len() == 0 {
        Map::empty()
    } else {
        overlay(ts.drop_first()).union_prefer_right(ts[0].map())
    }
}

/// Every key of the run is below `bound`, where there is a bound.
pub open spec fn all_below(s: Seq<Entry>, bound: Option<Seq<char>>) -> bool {
    match bound {
        Some(b) => forall|i: int| 0 <= i < s.len() ==> key_lt(#[trigger] s[i].key, b),
        None => true,
    }
}

/// The key at `i`, if the run reaches that far.
pub open spec fn key_at(s: Seq<Entry>, i: int) -> Option<Seq<char>> {
    if 0 <= i < s.len() {
        Some(s[i].key)
    } else {
        None
    }
}

/// After an entry with key `k` is appended, the run stays below a bound above `k`.
proof fn lemma_below_after_push(s: Seq<Entry>, e: Entry, old_bound: Seq<char>, bound: Option<Seq<char>>)
    requires
        forall|i: int| 0 <= i < s.len() ==> key_lt(#[trigger] s[i].key, old_bound),
        e.key == old_bound || key_lt(e.key, old_bound),
        match bound {
            Some(b) => key_lt(e.key, b) && (b == old_bound || key_lt(old_bound, b)),
            None => true,
        },
    ensures
        all_below(s.push(e), bound),
{
    match bound {
        Some(b) => {
            let t = s.push(e);
            assert forall|i: int| 0 <= i < t.len() implies key_lt(#[trigger] t[i].key, b) by {
                if i < s.len() {
                    assert(key_lt(s[i].key, old_bound));
                    if b != old_bound {
                        lemma_key_lt_transitive(s[i].key, old_bound, b);
                    }
                }
            }
        },
        None => {},
    }
}

/// Merges two ascending runs into one. Where both hold a key, the entry of
/// `newer` is kept.
pub fn merge_runs(newer: &Vec<Record>, older: &Vec<Record>) -> (out: Vec<Record>)
    requires
        ascending(entries_of(newer@)),
        ascending(entries_of(older@)),
        all_storable(entries_of(newer@)),
        all_storable(entries_of(older@)),
    ensures
        ascending(entries_of(out@)),
        all_storable(entries_of(out@)),
        run_map(entries_of(out@)) == run_map(entries_of(older@)).union_prefer_right(
            run_map(entries_of(newer@)),
        ),
{
    let ghost a = entries_of(newer@);
    let ghost b = entries_of(older@);
    let mut out: Vec<Record> = Vec::new();
    let mut i: usize = 0;
    let mut j: usize = 0;
    proof {
        lemma_run_map_empty();
        assert(a.take(0) =~= Seq::<Entry>::empty());
        assert(b.take(0) =~= Seq::<Entry>::empty());
        assert(entries_of(out@) =~= Seq::<Entry>::empty());
        assert(run_map(b.take(0)).union_prefer_right(run_map(a.take(0))) =~= run_map(
            entries_of(out@),
        ));
    }
    while i < newer.len() || j < older.len()
        invariant
            a == entries_of(newer@),
            b == entries_of(older@),
            ascending(a),
            ascending(b),
            all_storable(a),
            all_storable(b),
            i <= newer@.len(),
            j <= older@.len(),
            ascending(entries_of(out@)),
            all_storable(entries_of(out@)),
            all_below(entries_of(out@), key_at(a, i as int)),
            all_below(entries_of(out@), key_at(b, j as int)),
            run_map(entries_of(out@)) == run_map(b.take(j as int)).union_prefer_right(
                run_map(a.take(i as int)),
            ),
        decreases (newer@.len() - i) + (older@.len() - j),
    {
        let ghost o = entries_of(out@);
        let ghost ma = run_map(a.take(i as int));
        let ghost mb = run_map(b.take(j as int));
        let order = if i >= newer.len() {
            KeyOrder::Greater
        } else if j >= older.len() {
            KeyOrder::Less
        } else {
            compare_keys(newer[i].key.as_str(), older[j].key.as_str())
        };
        match order {
            KeyOrder::Less => {
                let ghost e = a[i as int];
                out.push(newer[i].clone());
                proof {
                    assert(entries_of(out@) =~= o.push(e));
                    lemma_run_map_push(o, e);
                    lemma_run_map_take(a, i as int);
                    if i + 1 < a.len() {
                        assert(key_lt(a[i as int].key, a[i + 1].key));
                    }
                    lemma_below_after_push(o, e, e.key, key_at(a, i + 1));
                    if j < b.len() {
                        lemma_below_after_push(o, e, e.key, key_at(b, j as int));
                    }
                    assert(storable(a[i as int]));
                    assert(run_map(o).insert(e.key, e.value) =~= mb.union_prefer_right(
                        ma.insert(e.key, e.value),
                    ));
                }
                i += 1;
            },
            KeyOrder::Greater => {
                let ghost e = b[j as int];
                out.push(older[j].clone());
                proof {
                    assert(entries_of(out@) =~= o.push(e));
                    lemma_run_map_push(o, e);
                    lemma_run_map_take(b, j as int);
                    if j + 1 < b.len() {
                        assert(key_lt(b[j as int].key, b[j + 1].key));
                    }
                    lemma_below_after_push(o, e, e.key, key_at(b, j + 1));
                    if i < a.len() {
                        lemma_below_after_push(o, e, e.key, key_at(a, i as int));
                    }
                    assert(storable(b[j as int]));
                    assert(!ma.contains_key(e.key));
                    assert(run_map(o).insert(e.key, e.value) =~= mb.insert(
                        e.key,
                        e.value,
                    ).union_prefer_right(ma));
                }
                j += 1;
            },
            KeyOrder::Equal => {
                let ghost e = a[i as int];
                out.push(newer[i].clone());
                proof {
                    assert(entries_of(out@) =~= o.push(e));
                    lemma_run_map_push(o, e);
                    lemma_run_map_take(a, i as int);
                    lemma_run_map_take(b, j as int);
                    if i + 1 < a.len() {
                        assert(key_lt(a[i as int].key, a[i + 1].key));
                    }
                    if j + 1 < b.len() {
                        assert(key_lt(b[j as int].key, b[j + 1].key));
                    }
                    lemma_below_after_push(o, e, e.key, key_at(a, i + 1));
                    lemma_below_after_push(o, e, e.key, key_at(b, j + 1));
                    assert(storable(a[i as int]));
                    assert(run_map(o).insert(e.key, e.value) =~= mb.insert(
                        b[j as int].key,
                        b[j as int].value,
                    ).union_prefer_right(ma.insert(e.key, e.value)));
                }
                i += 1;
                j += 1;
            },
        }
    }
    proof {
        assert(a.take(i as int) =~= a);
        assert(b.take(j as int) =~= b);
    }
    out
}

/// Merges the records of tables into one run. Where several tables hold a
/// key, the entry of the table that comes first is kept.
pub fn merge_tables(inputs: &Vec<SSTable>) -> (out: Vec<Record>)
    requires
        forall|i: int| 0 <= i < inputs@.len() ==> (#[trigger] inputs@[i]).wf(),
    ensures
        ascending(entries_of(out@)),
        all_storable(entries_of(out@)),
        run_map(entries_of(out@)) == overlay(Seq::new(inputs@.len(), |i: int| inputs@[i]@)),
{
    let ghost ts = Seq::new(inputs@.len(), |i: int| inputs@[i]@);
    let mut out: Vec<Record> = Vec::new();
    let mut t: usize = inputs.len();
    proof {
        lemma_run_map_empty();
        assert(entries_of(out@) =~= Seq::<Entry>::empty());
        assert(ts.skip(t as int) =~= Seq::<TableModel>::empty());
    }
    while t > 0
        invariant
            t <= inputs@.len(),
            ts == Seq::new(inputs@.len(), |i: int| inputs@[i]@),
            forall|i: int| 0 <= i < inputs@.len() ==> (#[trigger] inputs@[i]).wf(),
            ascending(entries_of(out@)),
            all_storable(entries_of(out@)),
            run_map(entries_of(out@)) == overlay(ts.skip(t as int)),
        decreases t,
    {
        t -= 1;
        proof {
            inputs@[t as int].lemma_wf();
            assert(ts.skip(t as int).drop_first() =~= ts.skip(t + 1));
            assert(ts.skip(t as int)[0] == inputs@[t as int]@);
        }
        out = merge_runs(inputs[t].records(), &out);
    }
    proof {
        assert(ts.skip(0) =~= ts);
    }
    out
}

/// The test for an entry that carries data.
pub open spec fn is_live() -> spec_fn(Entry) -> bool {
    |e: Entry| e.value is Some
}

/// No entry of the run stands for a deletion.
pub open spec fn all_live(s: Seq<Entry>) -> bool {
    forall|i: int| 0 <= i < s.len() ==> (#[trigger] s[i]).value is Some
}

/// Entries picked from an ascending run, in their order, ascend; and each
/// comes from the run.
pub proof fn lemma_filter_ascending(s: Seq<Entry>, pred: spec_fn(Entry) -> bool)
    requires
        ascending(s),
    ensures
        ascending(s.filter(pred)),
        forall|i: int| 0 <= i < s.filter(pred).len() ==> s.contains(#[trigger] s.filter(pred)[i]),
        forall|i: int| 0 <= i < s.len() && pred(s[i]) ==> s.filter(pred).contains(#[trigger] s[i]),
    decreases s.len(),
{
    reveal(Seq::filter);
    if s.len() > 0 {
        let head = s.drop_last();
        let last = s.last();
        assert forall|i: int, j: int| 0 <= i < j < head.len() implies key_lt(
            #[trigger] head[i].key,
            #[trigger] head[j].key,
        ) by {
            assert(key_lt(s[i].key, s[j].key));
        }
        lemma_filter_ascending(head, pred);
        let fs = head.filter(pred);
        let gs = s.filter(pred);
        assert forall|i: int| 0 <= i < fs.len() implies s.contains(#[trigger] fs[i]) && key_lt(
            fs[i].key,
            last.key,
        ) by {
            assert(head.contains(fs[i]));
            let k = choose|k: int| 0 <= k < head.len() && head[k] == fs[i];
            assert(s[k] == fs[i]);
            assert(key_lt(s[k].key, s[s.len() - 1].key));
        }
        if pred(last) {
            assert(gs =~= fs.push(last));
            assert forall|i: int, j: int| 0 <= i < j < gs.len() implies key_lt(
                #[trigger] gs[i].key,
                #[trigger] gs[j].key,
            ) by {
                if j < fs.len() {
                    assert(key_lt(fs[i].key, fs[j].key));
                }
            }
            assert(s[s.len() - 1] == last);
            assert(gs[gs.len() - 1] == last);
        } else {
            assert(gs =~= fs);
        }
        assert forall|i: int| 0 <= i < s.len() && pred(s[i]) implies gs.contains(
            #[trigger] s[i],
        ) by {
            if i < head.len() {
                assert(head[i] == s[i]);
                assert(fs.contains(head[i]));
                let k = choose|k: int| 0 <= k < fs.len() && fs[k] == head[i];
                assert(gs[k] == s[i]);
            }
        }
    }
}

/// Removes the tombstones from a run.
pub fn drop_tombstones(run: &Vec<Record>) -> (out: Vec<Record>)
    requires
        ascending(entries_of(run@)),
        all_storable(entries_of(run@)),
    ensures
        entries_of(out@) == entries_of(run@).filter(is_live()),
        ascending(entries_of(out@)),
        all_storable(entries_of(out@)),
{
    let ghost s = entries_of(run@);
    let ghost live = is_live();
    let mut out: Vec<Record> = Vec::new();
    let mut i: usize = 0;
    proof {
        assert(s.take(0).filter(live) =~= Seq::<Entry>::empty());
        assert(entries_of(out@) =~= Seq::<Entry>::empty());
    }
    while i < run.len()
        invariant
            i <= run@.len(),
            s == entries_of(run@),
            live == is_live(),
            all_storable(s),
            all_storable(entries_of(out@)),
            entries_of(out@) == s.take(i as int).filter(live),
        decreases run.len() - i,
    {
        let ghost o = entries_of(out@);
        proof {
            assert(s.take(i + 1) =~= s.take(i as int).push(s[i as int]));
            s.take(i as int).lemma_filter_push(s[i as int], live);
        }
        if !run[i].value.is_tombstone() {
            out.push(run[i].clone());
            proof {
                assert(entries_of(out@) =~= o.push(s[i as int]));
                assert(storable(s[i as int]));
            }
        }
        i += 1;
    }
    proof {
        assert(s.take(i as int) =~= s);
        lemma_filter_ascending(s, live);
    }
    out
}

/// The estimated size of an entry in bytes: its key and its payload.
pub open spec fn estimated_size(e: Entry) -> nat {
    encode_utf8(e.key).len() + match e.value {
        Some(v) => encode_utf8(v).len(),
        None => 0,
    }
}

/// The estimated size of a run.
pub open spec fn run_size(s: Seq<Entry>) -> nat
    decreases s.len(),
{
    if s.len() == 0 {
        0
    } else {
        run_size(s.drop_last()) + estimated_size(s.last())
    }
}

/// Runs laid end to end.
pub open spec fn concat(chunks: Seq<Seq<Entry>>) -> Seq<Entry>
    decreases chunks.len(),
{
    if chunks.len() == 0 {
        Seq::empty()
    } else {
        concat(chunks.drop_last()) + chunks.last()
    }
}

/// The models of a sequence of runs.
pub open spec fn chunks_of(chunks: Seq<Vec<Record>>) -> Seq<Seq<Entry>> {
    Seq::new(chunks.len(), |i: int| entries_of(chunks[i]@))
}

/// What a split into chunks must satisfy: no chunk is empty; a chunk of more
/// than one entry is within the limit; and no chunk could have taken the
/// first entry of the next within the limit.
pub open spec fn split_ok(chunks: Seq<Seq<Entry>>, limit: nat) -> bool {
    &&& forall|c: int| 0 <= c < chunks.len() ==> (#[trigger] chunks[c]).len() > 0
    &&& forall|c: int|
        0 <= c < chunks.len() ==> (#[trigger] chunks[c]).len() == 1 || run_size(chunks[c]) <= limit
    &&& forall|c: int|
        0 <= c < chunks.len() - 1 ==> run_size(#[trigger] chunks[c]) + estimated_size(
            chunks[c + 1][0],
        ) > limit
}

/// The estimated size of a record.
fn record_size(record: &Record) -> (r: u64)
    requires
        storable(record@),
    ensures
        r == estimated_size(record@),
        r <= 2 * 0xffff_ffff,
{
    let k: usize = record.key.as_str().as_bytes().len();
    match &record.value {
        Value::Data(v) => {
            let n: usize = v.as_str().as_bytes().len();
            k as u64 + n as u64
        },
        Value::Tombstone => k as u64,
    }
}

/// A run with one more entry is larger by the size of that entry.
pub proof fn lemma_run_size_push(s: Seq<Entry>, e: Entry)
    ensures
        run_size(s.push(e)) == run_size(s) + estimated_size(e),
{
    assert(s.push(e).drop_last() =~= s);
}

/// A chunk that is within the limit, and that the chunk before it could not
/// have begun within the limit, can follow a good split.
pub proof fn lemma_split_push(chunks: Seq<Seq<Entry>>, chunk: Seq<Entry>, limit: nat)
    requires
        split_ok(chunks, limit),
        chunk.len() > 0,
        chunk.len() == 1 || run_size(chunk) <= limit,
        chunks.len() > 0 ==> run_size(chunks.last()) + estimated_size(chunk[0]) > limit,
    ensures
        split_ok(chunks.push(chunk), limit),
        concat(chunks.push(chunk)) == concat(chunks) + chunk,
{
    let next = chunks.push(chunk);
    assert(next.drop_last() =~= chunks);
    assert forall|c: int| 0 <= c < next.len() implies (#[trigger] next[c]).len() > 0 && (
    next[c].len() == 1 || run_size(next[c]) <= limit) by {
        if c < chunks.len() {
            assert(next[c] == chunks[c]);
        }
    }
    assert forall|c: int| 0 <= c < next.len() - 1 implies run_size(#[trigger] next[c])
        + estimated_size(next[c + 1][0]) > limit by {
        assert(next[c] == chunks[c]);
        if c < chunks.len() - 1 {
            assert(next[c + 1] == chunks[c + 1]);
        }
    }
}

/// Cuts a run into chunks, in order: a chunk ends where the next entry would
/// take its estimated size over `limit`.
#[verifier::rlimit(50)]
pub fn split_run(run: &Vec<Record>, limit: u64) -> (chunks: Vec<Vec<Record>>)
    requires
        all_storable(entries_of(run@)),
    ensures
        concat(chunks_of(chunks@)) == entries_of(run@),
        split_ok(chunks_of(chunks@), limit as nat),
{
    let ghost s = entries_of(run@);
    let mut chunks: Vec<Vec<Record>> = Vec::new();
    let mut current: Vec<Record> = Vec::new();
    let mut current_size: u64 = 0;
    let mut i: usize = 0;
    let ghost cs: Seq<Seq<Entry>> = Seq::empty();
    let ghost cur: Seq<Entry> = Seq::empty();
    proof {
        assert(chunks_of(chunks@) =~= cs);
        assert(entries_of(current@) =~= cur);
        assert(concat(cs) + cur =~= s.take(0));
    }
    while i < run.len()
        invariant
            i <= run@.len(),
            s == entries_of(run@),
            all_storable(s),
            cs == chunks_of(chunks@),
            cur == entries_of(current@),
            concat(cs) + cur == s.take(i as int),
            split_ok(cs, limit as nat),
            current_size == run_size(cur),
            cur.len() <= 1 || current_size <= limit,
            cur.len() == 0 ==> cs.len() == 0,
            cs.len() > 0 ==> run_size(cs.last()) + estimated_size(cur[0]) > limit,
        decreases run.len() - i,
    {
        let ghost e = s[i as int];
        proof {
            assert(storable(e));
        }
        let size = record_size(&run[i]);
        let over = current_size > limit || size > limit - current_size;
        if over && current.len() > 0 {
            let mut full: Vec<Record> = Vec::new();
            std::mem::swap(&mut full, &mut current);
            chunks.push(full);
            current_size = 0;
            proof {
                lemma_split_push(cs, cur, limit as nat);
                assert(chunks_of(chunks@) =~= cs.push(cur));
                cs = cs.push(cur);
                cur = Seq::empty();
                assert(entries_of(current@) =~= cur);
                assert(concat(cs) + cur =~= s.take(i as int));
            }
        }
        current.push(run[i].clone());
        proof {
            lemma_run_size_push(cur, e);
            assert(entries_of(current@) =~= cur.push(e));
            assert(s.take(i + 1) =~= s.take(i as int).push(e));
            assert(concat(cs) + cur.push(e) =~= s.take(i + 1));
            if cs.len() > 0 && cur.len() == 0 {
                assert(cur.push(e)[0] == e);
                assert(run_size(cs.last()) + estimated_size(e) > limit);
            }
            cur = cur.push(e);
        }
        current_size = current_size + size;
        i += 1;
    }
    if current.len() > 0 {
        chunks.push(current);
        proof {
            lemma_split_push(cs, cur, limit as nat);
            assert(chunks_of(chunks@) =~= cs.push(cur));
            assert(s.take(i as int) =~= s);
        }
    } else {
        proof {
            assert(s.take(i as int) =~= s);
            assert(concat(cs) + cur =~= concat(cs));
        }
    }
    chunks
}

/// The sequence number that comes `steps` numbers after `id`; after the
/// largest number comes 0.
pub open spec fn id_after(id: u64, steps: nat) -> u64
    decreases steps,
{
    if steps == 0 {
        id
    } else {
        let prev = id_after(id, (steps - 1) as nat);
        if prev == u64::MAX {
            0
        } else {
            (prev + 1) as u64
        }
    }
}

/// The number after `steps` steps is the sum, taken from 0 again behind the largest.
pub proof fn lemma_id_after_sum(id: u64, steps: nat)
    ensures
        id_after(id, steps) == (id + steps) % 0x1_0000_0000_0000_0000,
    decreases steps,
{
    if steps > 0 {
        lemma_id_after_sum(id, (steps - 1) as nat);
    }
}

/// Every table of `after` is a table of `before`, or carries the name of a
/// table made for `target` under one of the `count` numbers from `first` on.
pub open spec fn named_by(
    before: Seq<TableModel>,
    after: Seq<TableModel>,
    target: nat,
    first: u64,
    count: nat,
) -> bool {
    forall|t: TableModel|
        #[trigger] after.contains(t) ==> before.contains(t) || made_name(t, target, first, count)
}

/// The table carries the name of a table made for `target` under one of
/// the `count` numbers from `first` on.
pub open spec fn made_name(t: TableModel, target: nat, first: u64, count: nat) -> bool {
    exists|c: nat|
        c < count && t.file_path == #[trigger] spec_level_name(target, id_after(first, c) as nat)
}

pub proof fn lemma_id_after_step(id: u64, steps: nat)
    ensures
        id_after(id, steps + 1) == if id_after(id, steps) == u64::MAX {
            0
        } else {
            (id_after(id, steps) + 1) as u64
        },
{
}

/// The size in bytes beyond which a compaction starts another table: 64 times 2^20.
pub const DEFAULT_MAX_SST_BYTES: u64 = 67_108_864;

/// The compactor: it names the tables it makes by its own sequence numbers.
#[derive(Debug)]
pub struct LeveledCompactor {
    data_dir: String,
    next_sstable_id: u64,
    max_sst_bytes: u64,
}

/// What the levels answer that is the same before and after a compaction
/// of `level` into the next: the level is empty, the levels other than it
/// and the next are as they were, tables below level 0 stay apart, and
/// every key reads as before. The next level answers every key as the
/// level over the next level did, where a caller reads the answer; and
/// unless the next level was the deepest, every answer is as before,
/// deletions included, so that a deletion which the level held stands in
/// the next level. Where the next level was the deepest, the tables that
/// the compaction has put there hold no deletion.
pub open spec fn merged_down(
    before: Seq<Seq<TableModel>>,
    after: Seq<Seq<TableModel>>,
    level: nat,
) -> bool {
    &&& levels_apart(after)
    &&& level_at(after, level).len() == 0
    &&& forall|l: nat|
        l != level && l != level + 1 ==> #[trigger] level_at(after, l) == level_at(before, l)
    &&& forall|k: Seq<char>|
        read(#[trigger] lookup_from(after, 0, k)) == read(lookup_from(before, 0, k))
    &&& forall|k: Seq<char>|
        read(#[trigger] level_lookup(level_at(after, level + 1), k)) == read(
            or_else(
                level_lookup(level_at(before, level), k),
                level_lookup(level_at(before, level + 1), k),
            ),
        )
    &&& before.len() > level + 2 ==> forall|k: Seq<char>|
        #[trigger] lookup_from(after, 0, k) == lookup_from(before, 0, k)
    &&& before.len() > level + 2 ==> forall|k: Seq<char>|
        #[trigger] level_lookup(level_at(after, level + 1), k) == or_else(
            level_lookup(level_at(before, level), k),
            level_lookup(level_at(before, level + 1), k),
        )
    &&& before.len() <= level + 2 ==> forall|t: TableModel|
        #[trigger] level_at(after, level + 1).contains(t) ==> level_at(before, level + 1).contains(
            t,
        ) || all_live(t.records)
}

/// A merge of level `l` with the tables of level `l + 1` that it overlaps,
/// put into level `l + 1` in place of both, leaves the levels as
/// [`merged_down`] says.
pub proof fn lemma_merged_down(
    before: Seq<Seq<TableModel>>,
    after: Seq<Seq<TableModel>>,
    l: nat,
    min: Seq<char>,
    max: Seq<char>,
    merged: Seq<Entry>,
    dropped: bool,
    chunks: Seq<Seq<Entry>>,
    made: Seq<TableModel>,
)
    requires
        all_valid(level_at(before, l)),
        all_valid(level_at(before, l + 1)),
        pairwise_apart(level_at(before, l + 1)),
        within(level_at(before, l), min, max),
        ascending(merged),
        run_map(merged) == overlay(
            level_at(before, l) + level_at(before, l + 1).filter(overlapping(min, max)),
        ),
        concat(chunks) == if dropped {
            merged.filter(is_live())
        } else {
            merged
        },
        forall|c: int| 0 <= c < chunks.len() ==> (#[trigger] chunks[c]).len() > 0,
        made.len() == chunks.len(),
        forall|c: int| 0 <= c < made.len() ==> (#[trigger] made[c]).records == chunks[c],
        all_valid(level_at(after, l + 1)),
        pairwise_apart(level_at(after, l + 1)),
        made_of(level_at(after, l + 1), level_at(before, l + 1).filter(apart(min, max)), made),
        level_at(after, l).len() == 0,
        forall|x: nat| x != l && x != l + 1 ==> #[trigger] level_at(after, x) == level_at(before, x),
        dropped == (before.len() <= l + 2),
        levels_apart(after),
        dropped ==> forall|t: TableModel|
            #[trigger] level_at(after, l + 1).contains(t) ==> level_at(before, l + 1).contains(t)
                || all_live(t.records),
    ensures
        merged_down(before, after, l),
{
    if dropped {
        assert forall|x: nat| x > l + 1 implies (#[trigger] level_at(before, x)).len() == 0 by {}
    }
    assert forall|k: Seq<char>|
        read(#[trigger] lookup_from(after, 0, k)) == read(lookup_from(before, 0, k)) && (!dropped
            ==> lookup_from(after, 0, k) == lookup_from(before, 0, k)) by {
        lemma_compaction_step(before, after, l, min, max, merged, dropped, chunks, made, k);
    }
    assert forall|k: Seq<char>|
        read(#[trigger] level_lookup(level_at(after, l + 1), k)) == read(
            or_else(level_lookup(level_at(before, l), k), level_lookup(level_at(before, l + 1), k)),
        ) && (!dropped ==> level_lookup(level_at(after, l + 1), k) == or_else(
            level_lookup(level_at(before, l), k),
            level_lookup(level_at(before, l + 1), k),
        )) by {
        lemma_compaction_step(before, after, l, min, max, merged, dropped, chunks, made, k);
    }
}

/// The tables in the opposite order: of tables that come oldest first,
/// the newest comes first.
pub fn newest_first(tables: Vec<SSTable>) -> (r: Vec<SSTable>)
    ensures
        r@ == tables@.reverse(),
{
    let mut rest = tables;
    let ghost all = rest@;
    let mut out: Vec<SSTable> = Vec::new();
    while rest.len() > 0
        invariant
            rest@.len() + out@.len() == all.len(),
            rest@ == all.take(rest@.len() as int),
            forall|i: int| 0 <= i < out@.len() ==> out@[i] == all[all.len() - 1 - i],
        decreases rest@.len(),
    {
        let ghost before = rest@;
        let last = rest.pop();
        match last {
            Some(table) => {
                out.push(table);
            },
            None => {},
        }
        proof {
            assert(rest@ =~= all.take(rest@.len() as int));
        }
    }
    proof {
        assert(out@ =~= all.reverse());
    }
    out
}

/// The smallest key range that holds the ranges of all the tables.
pub fn union_range(tables: &Vec<SSTable>) -> (r: (String, String))
    requires
        tables@.len() > 0,
        forall|i: int| 0 <= i < tables@.len() ==> (#[trigger] tables@[i]).wf(),
    ensures
        within(models_of(tables@), r.0@, r.1@),
        exists|i: int| 0 <= i < tables@.len() && r.0@ == (#[trigger] tables@[i])@.min_key(),
        exists|i: int| 0 <= i < tables@.len() && r.1@ == (#[trigger] tables@[i])@.max_key(),
{
    let ghost ms = models_of(tables@);
    let mut lo: usize = 0;
    let mut hi: usize = 0;
    let mut i: usize = 1;
    proof {
        lemma_key_le_or_gt(ms[0].min_key(), ms[0].min_key());
    }
    while i < tables.len()
        invariant
            1 <= i <= tables@.len(),
            lo < i,
            hi < i,
            ms == models_of(tables@),
            forall|j: int| 0 <= j < tables@.len() ==> (#[trigger] tables@[j]).wf(),
            forall|j: int| 0 <= j < i ==> key_le(ms[lo as int].min_key(), (#[trigger] ms[j]).min_key()),
            forall|j: int| 0 <= j < i ==> key_le((#[trigger] ms[j]).max_key(), ms[hi as int].max_key()),
        decreases tables.len() - i,
    {
        match compare_keys(tables[i].min_key(), tables[lo].min_key()) {
            KeyOrder::Less => {
                proof {
                    assert forall|j: int| 0 <= j < i + 1 implies key_le(
                        ms[i as int].min_key(),
                        (#[trigger] ms[j]).min_key(),
                    ) by {
                        if j < i {
                            lemma_key_le_transitive(
                                ms[i as int].min_key(),
                                ms[lo as int].min_key(),
                                ms[j].min_key(),
                            );
                        }
                    }
                }
                lo = i;
            },
            _ => {
                proof {
                    lemma_key_le_or_gt(ms[lo as int].min_key(), ms[i as int].min_key());
                }
            },
        }
        match compare_keys(tables[hi].max_key(), tables[i].max_key()) {
            KeyOrder::Less => {
                proof {
                    assert forall|j: int| 0 <= j < i + 1 implies key_le(
                        (#[trigger] ms[j]).max_key(),
                        ms[i as int].max_key(),
                    ) by {
                        if j < i {
                            lemma_key_le_transitive(
                                ms[j].max_key(),
                                ms[hi as int].max_key(),
                                ms[i as int].max_key(),
                            );
                        }
                    }
                }
                hi = i;
            },
            _ => {
                proof {
                    lemma_key_le_or_gt(ms[i as int].max_key(), ms[hi as int].max_key());
                }
            },
        }
        i += 1;
    }
    (tables[lo].min_key().to_string(), tables[hi].max_key().to_string())
}

impl LeveledCompactor {
    pub closed spec fn next_id(&self) -> u64 {
        self.next_sstable_id
    }

    pub closed spec fn size_limit(&self) -> u64 {
        self.max_sst_bytes
    }

    pub closed spec fn spec_data_dir(&self) -> Seq<char> {
        self.data_dir@
    }

    /// A compactor for the tables under `data_dir`, whose first table will
    /// carry the number `next_sstable_id`.
    pub fn new(data_dir: String, next_sstable_id: u64) -> (r: Self)
        ensures
            r.next_id() == next_sstable_id,
            r.size_limit() == DEFAULT_MAX_SST_BYTES,
            r.spec_data_dir() == data_dir@,
    {
        LeveledCompactor { data_dir, next_sstable_id, max_sst_bytes: DEFAULT_MAX_SST_BYTES }
    }

    /// The same compactor with another size limit for the tables it makes.
    pub fn with_max_sst_bytes(self, max_sst_bytes: u64) -> (r: Self)
        ensures
            r.next_id() == self.next_id(),
            r.size_limit() == max_sst_bytes,
            r.spec_data_dir() == self.spec_data_dir(),
    {
        LeveledCompactor {
            data_dir: self.data_dir,
            next_sstable_id: self.next_sstable_id,
            max_sst_bytes,
        }
    }

    pub fn data_dir(&self) -> (r: &str)
        ensures
            r@ == self.spec_data_dir(),
    {
        self.data_dir.as_str()
    }

    /// The sequence number that the next table will carry.
    pub fn upcoming_id(&self) -> (id: u64)
        ensures
            id == self.next_id(),
    {
        self.next_sstable_id
    }

    /// Hands out the next sequence number; after the largest comes 0.
    pub fn next_sstable_id(&mut self) -> (id: u64)
        ensures
            id == old(self).next_id(),
            final(self).next_id() == if id == u64::MAX {
                0
            } else {
                (id + 1) as u64
            },
            final(self).size_limit() == old(self).size_limit(),
            final(self).spec_data_dir() == old(self).spec_data_dir(),
    {
        let id = self.next_sstable_id;
        self.next_sstable_id = if id == u64::MAX {
            0
        } else {
            id + 1
        };
        id
    }

    /// Makes one table of each chunk and registers it at `target`.
    fn install(
        &mut self,
        level_manager: &mut LevelManager,
        chunks: Vec<Vec<Record>>,
        target: usize,
        Ghost(sources): Ghost<Seq<TableModel>>,
        Ghost(old_target): Ghost<Seq<TableModel>>,
        Ghost(min): Ghost<Seq<char>>,
        Ghost(max): Ghost<Seq<char>>,
    ) -> (made: Ghost<Seq<TableModel>>)
        requires
            old(level_manager).wf(),
            target >= 1,
            old(level_manager).level_models(target as nat) == old_target.filter(apart(min, max)),
            all_valid(sources),
            all_valid(old_target),
            pairwise_apart(old_target),
            within(sources, min, max),
            ascending(concat(chunks_of(chunks@))),
            all_storable(concat(chunks_of(chunks@))),
            forall|c: int| 0 <= c < chunks@.len() ==> (#[trigger] chunks_of(chunks@)[c]).len() > 0,
            forall|k: Seq<char>|
                has_key(concat(chunks_of(chunks@)), k) ==> #[trigger] overlay(
                    sources + old_target.filter(overlapping(min, max)),
                ).contains_key(k),
        ensures
            final(level_manager).wf(),
            final(level_manager).file_limit() == old(level_manager).file_limit(),
            final(level_manager).multiplier() == old(level_manager).multiplier(),
            final(self).size_limit() == old(self).size_limit(),
            final(self).spec_data_dir() == old(self).spec_data_dir(),
            forall|l: nat|
                l != target ==> #[trigger] final(level_manager).level_models(l) == old(
                    level_manager,
                ).level_models(l),
            made@.len() == chunks@.len(),
            made@.len() <= usize::MAX,
            forall|c: int| 0 <= c < made@.len() ==> (#[trigger] made@[c]).records == chunks_of(chunks@)[c],
            forall|c: int|
                0 <= c < made@.len() ==> (#[trigger] made@[c]).file_path == spec_level_name(
                    target as nat,
                    id_after(old(self).next_id(), c as nat) as nat,
                ),
            final(self).next_id() == id_after(old(self).next_id(), made@.len()),
            made_of(
                final(level_manager).level_models(target as nat),
                old_target.filter(apart(min, max)),
                made@,
            ),
            all_valid(final(level_manager).level_models(target as nat)),
            pairwise_apart(final(level_manager).level_models(target as nat)),
    {
        let ghost cs = chunks_of(chunks@);
        let ghost rest = old_target.filter(apart(min, max));
        let ghost made: Seq<TableModel> = Seq::empty();
        let ghost first = self.next_sstable_id;
        let mut chunks = chunks;
        let total: usize = chunks.len();
        let ghost done: int = 0;
        proof {
            lemma_filter_level(old_target, apart(min, max));
            assert(chunks_of(chunks@).skip(0) =~= cs);
        }
        while chunks.len() > 0
            invariant
                0 <= done <= cs.len(),
                cs.len() == total,
                first == old(self).next_id(),
                self.next_id() == id_after(first, done as nat),
                forall|c: int|
                    0 <= c < made.len() ==> (#[trigger] made[c]).file_path == spec_level_name(
                        target as nat,
                        id_after(first, c as nat) as nat,
                    ),
                chunks_of(chunks@) =~= cs.skip(done),
                level_manager.wf(),
                level_manager.file_limit() == old(level_manager).file_limit(),
                level_manager.multiplier() == old(level_manager).multiplier(),
                self.size_limit() == old(self).size_limit(),
                self.spec_data_dir() == old(self).spec_data_dir(),
                target >= 1,
                rest == old_target.filter(apart(min, max)),
                all_valid(rest),
                pairwise_apart(rest),
                all_valid(sources),
                all_valid(old_target),
                pairwise_apart(old_target),
                within(sources, min, max),
                ascending(concat(cs)),
                all_storable(concat(cs)),
                forall|c: int| 0 <= c < cs.len() ==> (#[trigger] cs[c]).len() > 0,
                forall|k: Seq<char>|
                    has_key(concat(cs), k) ==> #[trigger] overlay(
                        sources + old_target.filter(overlapping(min, max)),
                    ).contains_key(k),
                forall|l: nat|
                    l != target ==> #[trigger] level_manager.level_models(l) == old(
                        level_manager,
                    ).level_models(l),
                made.len() == done,
                forall|c: int|
                    0 <= c < made.len() ==> (#[trigger] made[c]).records == cs[c] && made[c].valid(),
                made_of(level_manager.level_models(target as nat), rest, made),
                all_valid(level_manager.level_models(target as nat)),
                pairwise_apart(level_manager.level_models(target as nat)),
            decreases chunks@.len(),
        {
            let ghost prev = chunks@;
            let chunk = chunks.remove(0);
            let ghost run = entries_of(chunk@);
            let ghost level_before = level_manager.level_models(target as nat);
            proof {
                lemma_filter_level(old_target, apart(min, max));
                assert(chunks_of(prev).len() == cs.skip(done).len());
                assert(done < cs.len());
                assert(run == chunks_of(prev)[0]);
                assert(run == cs.skip(done)[0]);
                assert(run == cs[done]);
                assert forall|i: int| 0 <= i < chunks@.len() implies chunks_of(chunks@)[i]
                    == cs.skip(done + 1)[i] by {
                    assert(chunks@[i] == prev[i + 1]);
                    assert(chunks_of(prev)[i + 1] == cs.skip(done)[i + 1]);
                }
                assert(chunks_of(chunks@) =~= cs.skip(done + 1));
                lemma_chunks_of_run(cs, done);
                lemma_chunk_is_stretch(cs, done);
                assert forall|x: int| 0 <= x < run.len() implies storable(#[trigger] run[x]) by {
                    assert(run[x] == concat(cs)[crate::engine::merge_laws::chunk_start(cs, done) + x]);
                }
            }
            proof {
                lemma_id_after_step(first, done as nat);
            }
            let id = self.next_sstable_id();
            let table = SSTable::from_run(level_name(target, id), chunk, target);
            let ghost model = table@;
            proof {
                table.lemma_wf();
                assert(model.level == target);
                assert(model == TableModel { level: target as nat, ..model });
                // the new table is apart from every table of the level
                assert forall|i: int| 0 <= i < level_before.len() implies !ranges_meet(
                    #[trigger] level_before[i],
                    model,
                ) && !ranges_meet(model, level_before[i]) by {
                    let t = level_before[i];
                    assert(level_before.contains(t));
                    if rest.contains(t) {
                        let j = choose|j: int| 0 <= j < rest.len() && rest[j] == t;
                        assert(old_target.contains(rest[j]));
                        assert(!t.overlaps(min, max));
                        lemma_made_apart_from_rest(sources, old_target, min, max, t, model);
                    } else {
                        assert(made.contains(t));
                        let c = choose|c: int| 0 <= c < made.len() && made[c] == t;
                        assert(t.records == cs[c]);
                        lemma_chunks_of_run(cs, c);
                        assert(key_lt(t.max_key(), model.min_key()));
                        lemma_key_le_or_gt(model.min_key(), t.max_key());
                    }
                }
            }
            level_manager.add_sstable(table, target);
            proof {
                let level_after = level_manager.level_models(target as nat);
                let p = lemma_placed(level_before, level_after, model, false);
                lemma_insert_apart(level_before, p, model);
                let made_next = made.push(model);
                assert forall|t: TableModel|
                    #![trigger level_after.contains(t)]
                    #![trigger rest.contains(t)]
                    #![trigger made_next.contains(t)]
                    level_after.contains(t) <==> rest.contains(t) || made_next.contains(t) by {
                    assert(level_before.contains(t) <==> rest.contains(t) || made.contains(t));
                    if made.contains(t) {
                        let c = choose|c: int| 0 <= c < made.len() && made[c] == t;
                        assert(made_next[c] == t);
                    }
                    if made_next.contains(t) {
                        let c = choose|c: int| 0 <= c < made_next.len() && made_next[c] == t;
                        if c < made.len() {
                            assert(made[c] == t);
                        }
                    }
                    assert(made_next[made.len() as int] == model);
                }
                made = made_next;
                done = done + 1;
            }
        }
        Ghost(made)
    }

    /// Merges tables into new tables for `target_level`. The tables come
    /// oldest first: where several tables hold a key, the entry of the
    /// table that comes last counts.
    /// Deletions are dropped if `bottom` says that no older data lies below
    /// the target, and kept otherwise. The merged run is cut into tables of
    /// at most the size limit, each named by a fresh sequence number.
    pub fn merge_sstables(
        &mut self,
        sstables: Vec<SSTable>,
        target_level: usize,
        bottom: bool,
    ) -> (r: DbResult<Vec<SSTable>>)
        requires
            forall|i: int| 0 <= i < sstables@.len() ==> (#[trigger] sstables@[i]).wf(),
        ensures
            final(self).size_limit() == old(self).size_limit(),
            final(self).spec_data_dir() == old(self).spec_data_dir(),
            match r {
                Ok(made) => exists|merged: Seq<Entry>, chunks: Seq<Seq<Entry>>|
                    #![trigger run_map(merged), concat(chunks)]
                    {
                        &&& ascending(merged)
                        &&& run_map(merged) == overlay(models_of(sstables@).reverse())
                        &&& concat(chunks) == if bottom {
                            merged.filter(is_live())
                        } else {
                            merged
                        }
                        &&& split_ok(chunks, old(self).size_limit() as nat)
                        &&& made@.len() == chunks.len()
                        &&& forall|c: int|
                            0 <= c < made@.len() ==> (#[trigger] made@[c]).wf() && made@[c]@
                                == (TableModel {
                                file_path: spec_level_name(
                                    target_level as nat,
                                    id_after(old(self).next_id(), c as nat) as nat,
                                ),
                                level: target_level as nat,
                                records: chunks[c],
                            })
                        &&& final(self).next_id() == id_after(old(self).next_id(), made@.len())
                    },
                Err(_) => false,
            },
    {
        let ghost given = sstables@;
        let sstables = newest_first(sstables);
        proof {
            assert(models_of(sstables@) =~= models_of(given).reverse());
        }
        let merged = merge_tables(&sstables);
        let ghost merged_e = entries_of(merged@);
        let output = if bottom {
            drop_tombstones(&merged)
        } else {
            merged
        };
        let mut chunks = split_run(&output, self.max_sst_bytes);
        let ghost cs = chunks_of(chunks@);
        let ghost first = self.next_sstable_id;
        let mut made: Vec<SSTable> = Vec::new();
        let ghost done: int = 0;
        proof {
            assert(Seq::new(sstables@.len(), |i: int| sstables@[i]@) =~= models_of(sstables@));
            if bottom {
                lemma_filter_ascending(merged_e, is_live());
            }
        }
        while chunks.len() > 0
            invariant
                0 <= done <= cs.len(),
                chunks_of(chunks@) =~= cs.skip(done),
                made@.len() == done,
                ascending(concat(cs)),
                all_storable(concat(cs)),
                split_ok(cs, self.size_limit() as nat),
                self.size_limit() == old(self).size_limit(),
                self.spec_data_dir() == old(self).spec_data_dir(),
                first == old(self).next_id(),
                self.next_id() == id_after(first, done as nat),
                forall|c: int|
                    0 <= c < made@.len() ==> (#[trigger] made@[c]).wf() && made@[c]@
                        == (TableModel {
                        file_path: spec_level_name(
                            target_level as nat,
                            id_after(first, c as nat) as nat,
                        ),
                        level: target_level as nat,
                        records: cs[c],
                    }),
            decreases chunks@.len(),
        {
            let ghost prev = chunks@;
            let ghost prev_made = made@;
            let chunk = chunks.remove(0);
            let ghost run = entries_of(chunk@);
            proof {
                assert(chunks_of(prev).len() == cs.skip(done).len());
                assert(run == chunks_of(prev)[0]);
                assert(run == cs[done]);
                assert forall|i: int| 0 <= i < chunks@.len() implies chunks_of(chunks@)[i]
                    == cs.skip(done + 1)[i] by {
                    assert(chunks@[i] == prev[i + 1]);
                    assert(chunks_of(prev)[i + 1] == cs.skip(done)[i + 1]);
                }
                assert(chunks_of(chunks@) =~= cs.skip(done + 1));
                lemma_chunks_of_run(cs, done);
                lemma_chunk_is_stretch(cs, done);
                assert forall|x: int| 0 <= x < run.len() implies storable(#[trigger] run[x]) by {
                    assert(run[x] == concat(cs)[crate::engine::merge_laws::chunk_start(cs, done) + x]);
                }
                lemma_id_after_step(first, done as nat);
            }
            let id = self.next_sstable_id();
            let table = SSTable::from_run(level_name(target_level, id), chunk, target_level);
            made.push(table);
            proof {
                assert forall|c: int| 0 <= c < made@.len() implies (#[trigger] made@[c]).wf()
                    && made@[c]@ == (TableModel {
                    file_path: spec_level_name(
                        target_level as nat,
                        id_after(first, c as nat) as nat,
                    ),
                    level: target_level as nat,
                    records: cs[c],
                }) by {
                    if c < prev_made.len() {
                        assert(made@[c] == prev_made[c]);
                    }
                }
                done = done + 1;
            }
        }
        proof {
            assert(ascending(merged_e) && run_map(merged_e) == overlay(models_of(given).reverse())
                && concat(cs) == if bottom {
                merged_e.filter(is_live())
            } else {
                merged_e
            });
        }
        Ok(made)
    }

    /// Whether a compaction of `level` has tables to take: all of level 0
    /// when it holds any, all of a deeper level when it is over its capacity.
    pub open spec fn takes(level_manager: &LevelManager, level: nat) -> bool {
        level_manager.level_models(level).len() > 0 && (level == 0 || due(
            level_manager.level_models(level),
            level,
            level_manager.file_limit(),
            level_manager.multiplier(),
        ))
    }

    /// Nothing of the level manager has changed.
    pub open spec fn untouched(before: &LevelManager, after: &LevelManager) -> bool {
        &&& after@ == before@
        &&& after.file_limit() == before.file_limit()
        &&& after.multiplier() == before.multiplier()
    }

    /// What a compaction of `level` leaves behind: the manager is well
    /// formed with its limits as they were, and its levels are as
    /// [`merged_down`] says.
    pub open spec fn compacted(before: &LevelManager, after: &LevelManager, level: nat) -> bool {
        &&& after.wf()
        &&& after.apart()
        &&& after.file_limit() == before.file_limit()
        &&& after.multiplier() == before.multiplier()
        &&& merged_down(before@, after@, level)
    }

    /// The tables that a compaction of `level` has made carry the numbers
    /// from `first` up to `last`, and the level that they were made for.
    pub open spec fn numbered(
        first: u64,
        last: u64,
        before: &LevelManager,
        after: &LevelManager,
        level: nat,
    ) -> bool {
        exists|count: nat|
            count <= usize::MAX && last == #[trigger] id_after(first, count) && named_by(
                before.level_models(level + 1),
                after.level_models(level + 1),
                level + 1,
                first,
                count,
            )
    }

    /// Merges all tables of `level` with the tables of the next level that
    /// they overlap, and puts the result into the next level.
    #[verifier::rlimit(50)]
    fn compact_from(&mut self, level_manager: &mut LevelManager, level: usize)
        requires
            old(level_manager).wf(),
            old(level_manager).apart(),
            old(level_manager).level_models(level as nat).len() > 0,
        ensures
            Self::compacted(old(level_manager), final(level_manager), level as nat),
            Self::numbered(
                old(self).next_id(),
                final(self).next_id(),
                old(level_manager),
                final(level_manager),
                level as nat,
            ),
            final(self).size_limit() == old(self).size_limit(),
            final(self).spec_data_dir() == old(self).spec_data_dir(),
    {
        let depth = level_manager.depth();
        let bottom = depth - 1 <= level + 1;
        let ghost before = level_manager@;
        let ghost sources_m = level_manager.level_models(level as nat);
        let ghost target_m = level_manager.level_models((level + 1) as nat);
        proof {
            level_manager.lemma_wf();
            assert(all_valid(sources_m));
            assert(all_valid(target_m));
            if level + 1 < before.len() {
                assert(pairwise_apart(before[level + 1]));
            }
            assert(pairwise_apart(target_m));
        }
        let mut sources = level_manager.take_level(level);
        let (min, max) = union_range(&sources);
        let ghost mid = *level_manager;
        let mut hits = level_manager.take_overlapping(level + 1, min.as_str(), max.as_str());
        let ghost hits_m = models_of(hits@);
        let ghost after_takes = *level_manager;
        let ghost rest_m = target_m.filter(apart(min@, max@));
        proof {
            assert(mid.level_models((level + 1) as nat) == target_m);
            assert(hits_m == target_m.filter(overlapping(min@, max@)));
            assert(level_manager.level_models((level + 1) as nat) == rest_m);
        }
        sources.append(&mut hits);
        proof {
            assert(models_of(sources@) =~= sources_m + hits_m);
            assert(Seq::new(sources@.len(), |i: int| sources@[i]@) =~= sources_m + hits_m);
        }
        let merged = merge_tables(&sources);
        let ghost merged_e = entries_of(merged@);
        let output = if bottom {
            drop_tombstones(&merged)
        } else {
            merged
        };
        let ghost output_e = entries_of(output@);
        let chunks = split_run(&output, self.max_sst_bytes);
        let ghost cs = chunks_of(chunks@);
        proof {
            assert forall|k: Seq<char>| has_key(concat(cs), k) implies #[trigger] overlay(
                sources_m + target_m.filter(overlapping(min@, max@)),
            ).contains_key(k) by {
                if bottom {
                    lemma_live_run(merged_e, k);
                }
                assert(run_map(merged_e).contains_key(k));
            }
        }
        let made = self.install(
            level_manager,
            chunks,
            level + 1,
            Ghost(sources_m),
            Ghost(target_m),
            Ghost(min@),
            Ghost(max@),
        );
        proof {
            let count = made@.len();
            let first = old(self).next_id();
            let target_after = level_manager.level_models((level + 1) as nat);
            assert forall|t: TableModel| #[trigger] target_after.contains(t) implies target_m.contains(
                t,
            ) || made_name(t, (level + 1) as nat, first, count) by {
                if rest_m.contains(t) {
                    lemma_filter_level(target_m, apart(min@, max@));
                    let i = choose|i: int| 0 <= i < rest_m.len() && rest_m[i] == t;
                    assert(target_m.contains(rest_m[i]));
                } else {
                    assert(made@.contains(t));
                    let c = choose|c: int| 0 <= c < made@.len() && made@[c] == t;
                    assert(t.file_path == spec_level_name(
                        (level + 1) as nat,
                        id_after(first, c as nat) as nat,
                    ));
                }
            }
            assert(self.next_id() == id_after(first, count));
            if bottom {
                assert forall|t: TableModel| #[trigger] target_after.contains(t) implies target_m.contains(
                    t,
                ) || all_live(t.records) by {
                    if rest_m.contains(t) {
                        lemma_filter_level(target_m, apart(min@, max@));
                        let i = choose|i: int| 0 <= i < rest_m.len() && rest_m[i] == t;
                        assert(target_m.contains(rest_m[i]));
                    } else {
                        assert(made@.contains(t));
                        let c = choose|c: int| 0 <= c < made@.len() && made@[c] == t;
                        lemma_chunk_is_stretch(cs, c);
                        assert forall|x: int| 0 <= x < t.records.len() implies (
                        #[trigger] t.records[x]).value is Some by {
                            let p = chunk_start(cs, c) + x;
                            assert(t.records[x] == concat(cs)[p]);
                            merged_e.lemma_filter_pred(is_live(), p);
                        }
                    }
                }
            }
        }
        proof {
            let after = level_manager@;
            assert forall|l: nat| l != level && l != level + 1 implies #[trigger] level_manager.level_models(
                l,
            ) == old(level_manager).level_models(l) by {
                assert(level_manager.level_models(l) == after_takes.level_models(l));
                assert(after_takes.level_models(l) == mid.level_models(l));
            }
            assert(level_manager.level_models(level as nat) == after_takes.level_models(
                level as nat,
            ));
            assert(after_takes.level_models(level as nat) == mid.level_models(level as nat));
            assert(level_manager.level_models(level as nat).len() == 0);
            assert forall|x: nat| x != level && x != level + 1 implies #[trigger] level_at(
                after,
                x,
            ) == level_at(before, x) by {
                assert(level_manager.level_models(x) == old(level_manager).level_models(x));
            }
            if bottom {
                assert forall|x: nat| x > level + 1 implies (#[trigger] level_at(
                    before,
                    x,
                )).len() == 0 by {}
            }
            assert forall|l: int| 1 <= l < after.len() implies pairwise_apart(
                #[trigger] after[l],
            ) by {
                if l == level + 1 {
                    assert(after[l] == level_manager.level_models(l as nat));
                } else if l == level {
                    assert(after[l] == level_manager.level_models(l as nat));
                } else {
                    assert(after[l] == level_manager.level_models(l as nat));
                    assert(after[l] == old(level_manager).level_models(l as nat));
                    if l < before.len() {
                        assert(before[l] == old(level_manager).level_models(l as nat));
                        assert(pairwise_apart(before[l]));
                    }
                }
            }
            lemma_merged_down(before, after, level as nat, min@, max@, merged_e, bottom, cs, made@);
        }
    }

    /// Compacts `level` into the next level if a compaction of it has tables
    /// to take, and does nothing otherwise.
    pub fn compact_level(&mut self, level_manager: &mut LevelManager, level: usize) -> (r: DbResult<
        (),
    >)
        requires
            old(level_manager).wf(),
            old(level_manager).apart(),
        ensures
            r is Ok,
            final(self).size_limit() == old(self).size_limit(),
            final(self).spec_data_dir() == old(self).spec_data_dir(),
            final(level_manager).wf(),
            final(level_manager).apart(),
            Self::takes(old(level_manager), level as nat) ==> Self::compacted(
                old(level_manager),
                final(level_manager),
                level as nat,
            ) && Self::numbered(
                old(self).next_id(),
                final(self).next_id(),
                old(level_manager),
                final(level_manager),
                level as nat,
            ),
            !Self::takes(old(level_manager), level as nat) ==> Self::untouched(
                old(level_manager),
                final(level_manager),
            ) && final(self).next_id() == old(self).next_id(),
    {
        if level_manager.get_level_count(level) == 0 {
            return Ok(());
        }
        if level != 0 && !level_manager.should_compact(level) {
            return Ok(());
        }
        self.compact_from(level_manager, level);
        Ok(())
    }

    /// Compacts level 0 into level 1: all tables of level 0 take part,
    /// because they may overlap each other.
    pub fn compact_level_0_to_1(&mut self, level_manager: &mut LevelManager) -> (r: DbResult<()>)
        requires
            old(level_manager).wf(),
            old(level_manager).apart(),
        ensures
            r is Ok,
            final(self).size_limit() == old(self).size_limit(),
            final(self).spec_data_dir() == old(self).spec_data_dir(),
            final(level_manager).wf(),
            final(level_manager).apart(),
            Self::takes(old(level_manager), 0) ==> Self::compacted(
                old(level_manager),
                final(level_manager),
                0,
            ) && Self::numbered(
                old(self).next_id(),
                final(self).next_id(),
                old(level_manager),
                final(level_manager),
                0,
            ),
            !Self::takes(old(level_manager), 0) ==> Self::untouched(
                old(level_manager),
                final(level_manager),
            ) && final(self).next_id() == old(self).next_id(),
    {
        self.compact_level(level_manager, 0)
    }

    /// Compacts a level into the next when it is over its capacity.
    pub fn compact_level_n_to_n_plus_1(
        &mut self,
        level_manager: &mut LevelManager,
        level: usize,
    ) -> (r: DbResult<()>)
        requires
            old(level_manager).wf(),
            old(level_manager).apart(),
        ensures
            r is Ok,
            final(self).size_limit() == old(self).size_limit(),
            final(self).spec_data_dir() == old(self).spec_data_dir(),
            final(level_manager).wf(),
            final(level_manager).apart(),
            Self::takes(old(level_manager), level as nat) ==> Self::compacted(
                old(level_manager),
                final(level_manager),
                level as nat,
            ) && Self::numbered(
                old(self).next_id(),
                final(self).next_id(),
                old(level_manager),
                final(level_manager),
                level as nat,
            ),
            !Self::takes(old(level_manager), level as nat) ==> Self::untouched(
                old(level_manager),
                final(level_manager),
            ) && final(self).next_id() == old(self).next_id(),
    {
        self.compact_level(level_manager, level)
    }
}

} // verus!
