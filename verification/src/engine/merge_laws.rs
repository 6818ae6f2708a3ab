//! Why a compaction changes no answer: the facts that relate the tables a
//! compaction consumes to the tables it produces.

use vstd::prelude::*;
use crate::engine::level::{apart, overlapping};
use crate::engine::leveled_compaction::{concat, is_live, lemma_filter_ascending, overlay};
use crate::engine::lookup::{
    all_valid, lemma_apart_no_common_key, lemma_holds_in_range, lemma_level_lookup_concat,
    lemma_level_lookup_holder, lemma_level_lookup_miss, lemma_lookup_from_agree,
    lemma_lookup_from_empty, lemma_lookup_prefix, level_at, level_lookup, lookup_from, map_lookup,
    or_else, pairwise_apart, ranges_meet, read,
};
use crate::engine::sstable::TableModel;
use crate::keys::{
    key_le, key_lt, lemma_key_le_lt_transitive, lemma_key_le_or_gt, lemma_key_le_transitive,
    lemma_key_lt_irreflexive, lemma_key_lt_le_transitive,
};
use crate::model::{ascending, first_key, has_key, last_key, lemma_run_map_at, position_of, run_map};
use crate::types::Entry;

verus! {

/// A stack of tables answers as a level does: by its first table that knows the key.
pub proof fn lemma_overlay_lookup(ts: Seq<TableModel>, k: Seq<char>)
    ensures
        map_lookup(overlay(ts), k) == level_lookup(ts, k),
    decreases ts.len(),
{
    if ts.len() > 0 {
        lemma_overlay_lookup(ts.drop_first(), k);
    }
}

/// Tables picked from a level, in their order, are apart and valid if the
/// level's tables are; each comes from the level, and each table of the
/// level that passes the test is among them.
pub proof fn lemma_filter_level(ts: Seq<TableModel>, pred: spec_fn(TableModel) -> bool)
    requires
        all_valid(ts),
        pairwise_apart(ts),
    ensures
        all_valid(ts.filter(pred)),
        pairwise_apart(ts.filter(pred)),
        forall|i: int|
            0 <= i < ts.filter(pred).len() ==> ts.contains(#[trigger] ts.filter(pred)[i]) && pred(
                ts.filter(pred)[i],
            ),
        forall|i: int| 0 <= i < ts.len() && pred(ts[i]) ==> ts.filter(pred).contains(#[trigger] ts[i]),
    decreases ts.len(),
{
    reveal(Seq::filter);
    if ts.len() > 0 {
        let head = ts.drop_last();
        let last = ts.last();
        assert forall|i: int, j: int| 0 <= i < j < head.len() implies !ranges_meet(
            #[trigger] head[i],
            #[trigger] head[j],
        ) by {
            assert(!ranges_meet(ts[i], ts[j]));
        }
        assert forall|i: int| 0 <= i < head.len() implies (#[trigger] head[i]).valid()
            && head[i].records.len() > 0 by {
            assert(head[i] == ts[i]);
        }
        lemma_filter_level(head, pred);
        let fs = head.filter(pred);
        let gs = ts.filter(pred);
        assert forall|i: int| 0 <= i < fs.len() implies ts.contains(#[trigger] fs[i])
            && !ranges_meet(fs[i], last) by {
            assert(head.contains(fs[i]));
            let p = choose|p: int| 0 <= p < head.len() && head[p] == fs[i];
            assert(ts[p] == fs[i]);
            assert(!ranges_meet(ts[p], ts[ts.len() - 1]));
        }
        if pred(last) {
            assert(gs =~= fs.push(last));
            assert(ts[ts.len() - 1] == last);
            assert forall|i: int, j: int| 0 <= i < j < gs.len() implies !ranges_meet(
                #[trigger] gs[i],
                #[trigger] gs[j],
            ) by {
                if j < fs.len() {
                    assert(!ranges_meet(fs[i], fs[j]));
                }
            }
            assert(gs[gs.len() - 1] == last);
        } else {
            assert(gs =~= fs);
        }
        assert forall|i: int| 0 <= i < ts.len() && pred(ts[i]) implies gs.contains(
            #[trigger] ts[i],
        ) by {
            if i < head.len() {
                assert(head[i] == ts[i]);
                assert(fs.contains(head[i]));
                let p = choose|p: int| 0 <= p < fs.len() && fs[p] == head[i];
                assert(gs[p] == ts[i]);
            }
        }
    }
}

/// A level whose tables are apart answers as the tables that meet a range
/// do, and as the others where those know nothing.
pub proof fn lemma_partition_lookup(
    ts: Seq<TableModel>,
    min: Seq<char>,
    max: Seq<char>,
    k: Seq<char>,
)
    requires
        all_valid(ts),
        pairwise_apart(ts),
    ensures
        level_lookup(ts, k) == or_else(
            level_lookup(ts.filter(overlapping(min, max)), k),
            level_lookup(ts.filter(apart(min, max)), k),
        ),
{
    let yes = overlapping(min, max);
    let no = apart(min, max);
    let hs = ts.filter(yes);
    let rs = ts.filter(no);
    lemma_filter_level(ts, yes);
    lemma_filter_level(ts, no);
    if exists|i: int| 0 <= i < ts.len() && (#[trigger] ts[i]).map().contains_key(k) {
        let i = choose|i: int| 0 <= i < ts.len() && (#[trigger] ts[i]).map().contains_key(k);
        lemma_level_lookup_holder(ts, i, k);
        if yes(ts[i]) {
            assert(hs.contains(ts[i]));
            let p = choose|p: int| 0 <= p < hs.len() && hs[p] == ts[i];
            lemma_level_lookup_holder(hs, p, k);
        } else {
            assert(no(ts[i]));
            assert(rs.contains(ts[i]));
            let p = choose|p: int| 0 <= p < rs.len() && rs[p] == ts[i];
            lemma_level_lookup_holder(rs, p, k);
            assert forall|j: int| 0 <= j < hs.len() implies !(#[trigger] hs[j]).map().contains_key(
                k,
            ) by {
                assert(ts.contains(hs[j]));
                let q = choose|q: int| 0 <= q < ts.len() && ts[q] == hs[j];
                if q != i {
                    if q < i {
                        assert(!ranges_meet(ts[q], ts[i]));
                    } else {
                        assert(!ranges_meet(ts[i], ts[q]));
                    }
                    if hs[j].map().contains_key(k) {
                        lemma_apart_no_common_key(ts[i], ts[q], k);
                    }
                }
            }
            lemma_level_lookup_miss(hs, k);
        }
    } else {
        assert forall|j: int| 0 <= j < hs.len() implies !(#[trigger] hs[j]).map().contains_key(
            k,
        ) by {
            assert(ts.contains(hs[j]));
        }
        assert forall|j: int| 0 <= j < rs.len() implies !(#[trigger] rs[j]).map().contains_key(
            k,
        ) by {
            assert(ts.contains(rs[j]));
        }
        lemma_level_lookup_miss(ts, k);
        lemma_level_lookup_miss(hs, k);
        lemma_level_lookup_miss(rs, k);
    }
}

/// Where a stack of tables knows a key, one of its tables holds it.
pub proof fn lemma_overlay_holder(ts: Seq<TableModel>, k: Seq<char>) -> (i: int)
    requires
        overlay(ts).contains_key(k),
    ensures
        0 <= i < ts.len(),
        ts[i].map().contains_key(k),
    decreases ts.len(),
{
    if ts[0].map().contains_key(k) {
        0
    } else {
        let p = lemma_overlay_holder(ts.drop_first(), k);
        assert(ts.drop_first()[p] == ts[p + 1]);
        p + 1
    }
}

/// Where the first `i` chunks end within the run that the chunks make up.
pub open spec fn chunk_start(chunks: Seq<Seq<Entry>>, i: int) -> int {
    concat(chunks.take(i)).len() as int
}

/// Each chunk is the stretch of the whole run between its start and the next.
pub proof fn lemma_chunk_is_stretch(chunks: Seq<Seq<Entry>>, i: int)
    requires
        0 <= i < chunks.len(),
    ensures
        0 <= chunk_start(chunks, i) <= chunk_start(chunks, i + 1) <= concat(chunks).len(),
        chunk_start(chunks, i + 1) == chunk_start(chunks, i) + chunks[i].len(),
        chunks[i] == concat(chunks).subrange(chunk_start(chunks, i), chunk_start(chunks, i + 1)),
        concat(chunks.take(i + 1)) == concat(chunks).take(chunk_start(chunks, i + 1)),
    decreases chunks.len() - i,
{
    let whole = concat(chunks);
    assert(chunks.take(i + 1).drop_last() =~= chunks.take(i));
    assert(chunks.take(i + 1).last() == chunks[i]);
    assert(concat(chunks.take(i + 1)) == concat(chunks.take(i)) + chunks[i]);
    if i + 1 == chunks.len() {
        assert(chunks.take(i + 1) =~= chunks);
        assert(whole.take(whole.len() as int) =~= whole);
    } else {
        lemma_chunk_is_stretch(chunks, i + 1);
        assert(chunks.take(i + 2).drop_last() =~= chunks.take(i + 1));
        assert(concat(chunks.take(i + 2)) == concat(chunks.take(i + 1)) + chunks[i + 1]);
        assert(concat(chunks.take(i + 1)) =~= whole.take(chunk_start(chunks, i + 2)).take(
            chunk_start(chunks, i + 1),
        ));
        assert(concat(chunks.take(i + 1)) =~= whole.take(chunk_start(chunks, i + 1)));
    }
    let pre = concat(chunks.take(i));
    let joined = pre + chunks[i];
    let e = chunk_start(chunks, i + 1);
    assert(joined == whole.take(e));
    assert(joined.len() == pre.len() + chunks[i].len());
    assert(e == pre.len() + chunks[i].len());
    assert forall|x: int| 0 <= x < chunks[i].len() implies chunks[i][x] == whole.subrange(
        pre.len() as int,
        e,
    )[x] by {
        assert(joined[pre.len() + x] == chunks[i][x]);
        assert(whole.take(e)[pre.len() + x] == whole[pre.len() + x]);
    }
    assert(chunks[i] =~= whole.subrange(chunk_start(chunks, i), chunk_start(chunks, i + 1)));
}

/// Chunk starts grow with the chunk number.
pub proof fn lemma_chunk_start_monotone(chunks: Seq<Seq<Entry>>, i: int, j: int)
    requires
        0 <= i <= j <= chunks.len(),
    ensures
        chunk_start(chunks, i) <= chunk_start(chunks, j),
    decreases j - i,
{
    if i < j {
        lemma_chunk_is_stretch(chunks, j - 1);
        lemma_chunk_start_monotone(chunks, i, j - 1);
    }
}

/// The chunk that holds the entry at position `p` of the whole run.
pub proof fn lemma_chunk_of_position(chunks: Seq<Seq<Entry>>, p: int) -> (i: int)
    requires
        0 <= p < concat(chunks).len(),
    ensures
        0 <= i < chunks.len(),
        chunk_start(chunks, i) <= p < chunk_start(chunks, i + 1),
        chunks[i][p - chunk_start(chunks, i)] == concat(chunks)[p],
    decreases chunks.len(),
{
    let n = chunks.len() as int;
    assert(n > 0);
    lemma_chunk_is_stretch(chunks, n - 1);
    assert(chunks.take(n) =~= chunks);
    if p >= chunk_start(chunks, n - 1) {
        n - 1
    } else {
        let head = chunks.drop_last();
        assert(chunks.take(n - 1) =~= head);
        assert(concat(head) == concat(chunks).take(chunk_start(chunks, n - 1)));
        let i = lemma_chunk_of_position(head, p);
        assert(head.take(i) =~= chunks.take(i));
        assert(head.take(i + 1) =~= chunks.take(i + 1));
        i
    }
}

/// What the chunks of an ascending run are: ascending runs whose entries are
/// entries of the whole run, each chunk below the next.
pub proof fn lemma_chunks_of_run(chunks: Seq<Seq<Entry>>, i: int)
    requires
        ascending(concat(chunks)),
        0 <= i < chunks.len(),
        chunks[i].len() > 0,
    ensures
        ascending(chunks[i]),
        forall|k: Seq<char>|
            has_key(chunks[i], k) ==> has_key(concat(chunks), k) && run_map(chunks[i])[k]
                == run_map(concat(chunks))[k],
        has_key(concat(chunks), first_key(chunks[i])),
        has_key(concat(chunks), last_key(chunks[i])),
        forall|j: int|
            i < j < chunks.len() && chunks[j].len() > 0 ==> key_lt(
                last_key(chunks[i]),
                first_key(#[trigger] chunks[j]),
            ),
{
    let whole = concat(chunks);
    let c = chunks[i];
    let s = chunk_start(chunks, i);
    lemma_chunk_is_stretch(chunks, i);
    assert forall|a: int, b: int| 0 <= a < b < c.len() implies key_lt(
        #[trigger] c[a].key,
        #[trigger] c[b].key,
    ) by {
        assert(key_lt(whole[s + a].key, whole[s + b].key));
    }
    assert forall|k: Seq<char>| has_key(c, k) implies has_key(whole, k) && run_map(c)[k]
        == run_map(whole)[k] by {
        let x = position_of(c, k);
        assert(whole[s + x].key == k);
        lemma_run_map_at(c, x);
        lemma_run_map_at(whole, s + x);
    }
    assert(whole[s].key == first_key(c));
    assert(whole[s + c.len() - 1].key == last_key(c));
    assert forall|j: int| i < j < chunks.len() && chunks[j].len() > 0 implies key_lt(
        last_key(c),
        first_key(#[trigger] chunks[j]),
    ) by {
        lemma_chunk_is_stretch(chunks, j);
        lemma_chunk_start_monotone(chunks, i + 1, j);
        let t = chunk_start(chunks, j);
        assert(whole[t].key == first_key(chunks[j]));
        assert(key_lt(whole[s + c.len() - 1].key, whole[t].key));
    }
}

/// A key of the whole run lies in one of its chunks, with the same value.
pub proof fn lemma_key_in_chunk(chunks: Seq<Seq<Entry>>, k: Seq<char>) -> (i: int)
    requires
        ascending(concat(chunks)),
        has_key(concat(chunks), k),
        forall|c: int| 0 <= c < chunks.len() ==> (#[trigger] chunks[c]).len() > 0,
    ensures
        0 <= i < chunks.len(),
        has_key(chunks[i], k),
        run_map(chunks[i])[k] == run_map(concat(chunks))[k],
{
    let whole = concat(chunks);
    let p = position_of(whole, k);
    let i = lemma_chunk_of_position(chunks, p);
    lemma_chunk_is_stretch(chunks, i);
    let x = p - chunk_start(chunks, i);
    assert(0 <= x < chunks[i].len());
    assert(chunks[i][x].key == k);
    assert(has_key(chunks[i], k));
    lemma_chunks_of_run(chunks, i);
    i
}

/// The live entries of an ascending run: what they know, and how they relate to the run.
pub proof fn lemma_live_run(s: Seq<Entry>, k: Seq<char>)
    requires
        ascending(s),
    ensures
        ascending(s.filter(is_live())),
        has_key(s.filter(is_live()), k) <==> has_key(s, k) && run_map(s)[k] is Some,
        has_key(s.filter(is_live()), k) ==> run_map(s.filter(is_live()))[k] == run_map(s)[k],
{
    let live = is_live();
    let f = s.filter(live);
    lemma_filter_ascending(s, live);
    if has_key(f, k) {
        let p = position_of(f, k);
        assert(s.contains(f[p]));
        let q = choose|q: int| 0 <= q < s.len() && s[q] == f[p];
        assert(s[q].key == k);
        lemma_run_map_at(s, q);
        lemma_run_map_at(f, p);
        s.lemma_filter_pred(live, p);
        assert(live(f[p]));
    }
    if has_key(s, k) && run_map(s)[k] is Some {
        let q = position_of(s, k);
        lemma_run_map_at(s, q);
        assert(live(s[q]));
        assert(f.contains(s[q]));
        let p = choose|p: int| 0 <= p < f.len() && f[p] == s[q];
        assert(f[p].key == k);
    }
}

/// Every source table lies within the range from `min` to `max`.
pub open spec fn within(sources: Seq<TableModel>, min: Seq<char>, max: Seq<char>) -> bool {
    forall|i: int|
        0 <= i < sources.len() ==> key_le(min, (#[trigger] sources[i]).min_key()) && key_le(
            sources[i].max_key(),
            max,
        )
}

/// A key that a source table or an overlapping target table holds lies on
/// the far side of every target table that is apart from the source range.
pub proof fn lemma_outside(
    sources: Seq<TableModel>,
    target: Seq<TableModel>,
    min: Seq<char>,
    max: Seq<char>,
    f: TableModel,
    x: Seq<char>,
)
    requires
        all_valid(sources),
        all_valid(target),
        pairwise_apart(target),
        within(sources, min, max),
        target.contains(f),
        !f.overlaps(min, max),
        overlay(sources + target.filter(overlapping(min, max))).contains_key(x),
    ensures
        key_lt(f.max_key(), min) || key_lt(max, f.min_key()),
        key_lt(f.max_key(), min) ==> key_lt(f.max_key(), x),
        key_lt(max, f.min_key()) ==> key_lt(x, f.min_key()),
        key_le(f.min_key(), f.max_key()),
{
    let yes = overlapping(min, max);
    let hits = target.filter(yes);
    let inputs = sources + hits;
    lemma_filter_level(target, yes);
    lemma_key_le_or_gt(min, f.max_key());
    lemma_key_le_or_gt(f.min_key(), max);
    let fi = choose|fi: int| 0 <= fi < target.len() && target[fi] == f;
    assert(f.valid() && f.records.len() > 0);
    if f.records.len() > 1 {
        assert(key_lt(f.records[0].key, f.records[f.records.len() - 1].key));
    }
    let i = lemma_overlay_holder(inputs, x);
    if i < sources.len() {
        let t = sources[i];
        assert(inputs[i] == t);
        lemma_holds_in_range(t, x);
        assert(key_le(min, t.min_key()) && key_le(t.max_key(), max));
        lemma_key_le_transitive(min, t.min_key(), x);
        lemma_key_le_transitive(x, t.max_key(), max);
        if key_lt(f.max_key(), min) {
            lemma_key_lt_le_transitive(f.max_key(), min, x);
        }
        if key_lt(max, f.min_key()) {
            lemma_key_le_lt_transitive(x, max, f.min_key());
        }
    } else {
        let g = hits[i - sources.len()];
        assert(inputs[i] == g);
        assert(target.contains(g) && yes(g));
        let gi = choose|gi: int| 0 <= gi < target.len() && target[gi] == g;
        assert(g.valid());
        lemma_holds_in_range(g, x);
        assert(gi != fi);
        if gi < fi {
            assert(!ranges_meet(target[gi], target[fi]));
        } else {
            assert(!ranges_meet(target[fi], target[gi]));
        }
        // the ranges of f and g are apart, whichever way round
        assert(!(key_le(g.min_key(), f.max_key()) && key_le(f.min_key(), g.max_key())));
        lemma_key_le_or_gt(g.min_key(), f.max_key());
        lemma_key_le_or_gt(f.min_key(), g.max_key());
        if key_lt(f.max_key(), min) {
            // f.min <= f.max < min <= g.max, so f lies below g
            lemma_key_lt_le_transitive(f.max_key(), min, g.max_key());
            lemma_key_le_lt_transitive(f.min_key(), f.max_key(), g.max_key());
            assert(key_lt(f.max_key(), g.min_key()));
            lemma_key_lt_le_transitive(f.max_key(), g.min_key(), x);
        }
        if key_lt(max, f.min_key()) {
            // g.min <= max < f.min <= f.max, so f lies above g
            lemma_key_le_lt_transitive(g.min_key(), max, f.min_key());
            lemma_key_lt_le_transitive(g.min_key(), f.min_key(), f.max_key());
            assert(key_lt(g.max_key(), f.min_key()));
            lemma_key_le_lt_transitive(x, g.max_key(), f.min_key());
        }
    }
}

/// A table made of merged keys is apart from every target table that is
/// apart from the source range.
pub proof fn lemma_made_apart_from_rest(
    sources: Seq<TableModel>,
    target: Seq<TableModel>,
    min: Seq<char>,
    max: Seq<char>,
    f: TableModel,
    n: TableModel,
)
    requires
        all_valid(sources),
        all_valid(target),
        pairwise_apart(target),
        within(sources, min, max),
        target.contains(f),
        !f.overlaps(min, max),
        n.valid(),
        n.records.len() > 0,
        overlay(sources + target.filter(overlapping(min, max))).contains_key(n.min_key()),
        overlay(sources + target.filter(overlapping(min, max))).contains_key(n.max_key()),
    ensures
        !ranges_meet(f, n),
        !ranges_meet(n, f),
{
    lemma_outside(sources, target, min, max, f, n.min_key());
    lemma_outside(sources, target, min, max, f, n.max_key());
    lemma_key_le_or_gt(n.min_key(), f.max_key());
    lemma_key_le_or_gt(f.min_key(), n.max_key());
    if key_lt(f.max_key(), min) {
        assert(key_lt(f.max_key(), n.min_key()));
    } else {
        assert(key_lt(n.max_key(), f.min_key()));
    }
}

/// A table that is apart from every table of a level can enter it anywhere.
pub proof fn lemma_insert_apart(ts: Seq<TableModel>, p: int, t: TableModel)
    requires
        pairwise_apart(ts),
        all_valid(ts),
        t.valid(),
        t.records.len() > 0,
        0 <= p <= ts.len(),
        forall|i: int| 0 <= i < ts.len() ==> !ranges_meet(#[trigger] ts[i], t) && !ranges_meet(t, ts[i]),
    ensures
        pairwise_apart(ts.insert(p, t)),
        all_valid(ts.insert(p, t)),
        forall|x: TableModel| ts.insert(p, t).contains(x) <==> ts.contains(x) || x == t,
{
    let us = ts.insert(p, t);
    assert forall|i: int, j: int| 0 <= i < j < us.len() implies !ranges_meet(
        #[trigger] us[i],
        #[trigger] us[j],
    ) by {
        if i == p {
            assert(us[j] == ts[j - 1]);
        } else if j == p {
            assert(us[i] == ts[i]);
        } else {
            let a = if i < p { i } else { i - 1 };
            let b = if j < p { j } else { j - 1 };
            assert(us[i] == ts[a] && us[j] == ts[b]);
            assert(!ranges_meet(ts[a], ts[b]));
        }
    }
    assert forall|i: int| 0 <= i < us.len() implies (#[trigger] us[i]).valid()
        && us[i].records.len() > 0 by {
        if i < p {
            assert(us[i] == ts[i]);
        } else if i > p {
            assert(us[i] == ts[i - 1]);
        }
    }
    assert forall|x: TableModel| us.contains(x) <==> ts.contains(x) || x == t by {
        if us.contains(x) {
            let i = choose|i: int| 0 <= i < us.len() && us[i] == x;
            if i < p {
                assert(ts[i] == x);
            } else if i > p {
                assert(ts[i - 1] == x);
            }
        }
        if ts.contains(x) {
            let i = choose|i: int| 0 <= i < ts.len() && ts[i] == x;
            if i < p {
                assert(us[i] == x);
            } else {
                assert(us[i + 1] == x);
            }
        }
        if x == t {
            assert(us[p] == x);
        }
    }
}

/// The tables of `result` are those of `rest` and those of `made`.
pub open spec fn made_of(
    result: Seq<TableModel>,
    rest: Seq<TableModel>,
    made: Seq<TableModel>,
) -> bool {
    forall|t: TableModel|
        #![trigger result.contains(t)]
        #![trigger rest.contains(t)]
        #![trigger made.contains(t)]
        result.contains(t) <==> rest.contains(t) || made.contains(t)
}

/// What a level of rest tables and made tables says of a key: what the
/// merged output says, and what the rest says where the output knows nothing.
pub proof fn lemma_result_lookup(
    rest: Seq<TableModel>,
    chunks: Seq<Seq<Entry>>,
    made: Seq<TableModel>,
    result: Seq<TableModel>,
    k: Seq<char>,
)
    requires
        all_valid(rest),
        pairwise_apart(rest),
        all_valid(result),
        pairwise_apart(result),
        ascending(concat(chunks)),
        forall|c: int| 0 <= c < chunks.len() ==> (#[trigger] chunks[c]).len() > 0,
        made.len() == chunks.len(),
        forall|c: int| 0 <= c < made.len() ==> (#[trigger] made[c]).records == chunks[c],
        made_of(result, rest, made),
    ensures
        level_lookup(result, k) == or_else(
            map_lookup(run_map(concat(chunks)), k),
            level_lookup(rest, k),
        ),
{
    let out = concat(chunks);
    if has_key(out, k) {
        let c = lemma_key_in_chunk(chunks, k);
        assert(made[c].records == chunks[c]);
        assert(made.contains(made[c]));
        assert(result.contains(made[c]));
        let p = choose|p: int| 0 <= p < result.len() && result[p] == made[c];
        lemma_level_lookup_holder(result, p, k);
    } else if exists|j: int| 0 <= j < rest.len() && (#[trigger] rest[j]).map().contains_key(k) {
        let j = choose|j: int| 0 <= j < rest.len() && (#[trigger] rest[j]).map().contains_key(k);
        lemma_level_lookup_holder(rest, j, k);
        assert(rest.contains(rest[j]));
        assert(result.contains(rest[j]));
        let p = choose|p: int| 0 <= p < result.len() && result[p] == rest[j];
        lemma_level_lookup_holder(result, p, k);
    } else {
        lemma_level_lookup_miss(rest, k);
        assert forall|p: int| 0 <= p < result.len() implies !(#[trigger] result[p]).map().contains_key(
            k,
        ) by {
            assert(result.contains(result[p]));
            if rest.contains(result[p]) {
                let j = choose|j: int| 0 <= j < rest.len() && rest[j] == result[p];
                assert(!rest[j].map().contains_key(k));
            } else {
                assert(made.contains(result[p]));
                let c = choose|c: int| 0 <= c < made.len() && made[c] == result[p];
                assert(made[c].records == chunks[c]);
                lemma_chunks_of_run(chunks, c);
            }
        }
        lemma_level_lookup_miss(result, k);
    }
}

/// How the levels answer from `l` on: as level `l`, then as the deeper levels.
pub proof fn lemma_lookup_from_unfold(a: Seq<Seq<TableModel>>, l: nat, k: Seq<char>)
    ensures
        lookup_from(a, l, k) == or_else(
            level_lookup(level_at(a, l), k),
            lookup_from(a, l + 1, k),
        ),
{
    if l >= a.len() {
        assert(level_at(a, l) =~= Seq::<TableModel>::empty());
    }
}

/// A compaction of level `l` into level `l + 1` changes no answer of the
/// levels, if it keeps tombstones; if it drops them, and no level lies
/// deeper than its target, it changes nothing that a caller reads.
pub proof fn lemma_compaction_step(
    before: Seq<Seq<TableModel>>,
    after: Seq<Seq<TableModel>>,
    l: nat,
    min: Seq<char>,
    max: Seq<char>,
    merged: Seq<Entry>,
    dropped: bool,
    chunks: Seq<Seq<Entry>>,
    made: Seq<TableModel>,
    k: Seq<char>,
)
    requires
        all_valid(level_at(before, l)),
        all_valid(level_at(before, l + 1)),
        pairwise_apart(level_at(before, l + 1)),
        within(level_at(before, l), min, max),
        ascending(merged),
        run_map(merged) == overlay(
            level_at(before, l) + level_at(before, l + 1).filter(overlapping(min, max)),
        ),
        concat(chunks) == if dropped {
            merged.filter(is_live())
        } else {
            merged
        },
        forall|c: int| 0 <= c < chunks.len() ==> (#[trigger] chunks[c]).len() > 0,
        made.len() == chunks.len(),
        forall|c: int| 0 <= c < made.len() ==> (#[trigger] made[c]).records == chunks[c],
        all_valid(level_at(after, l + 1)),
        pairwise_apart(level_at(after, l + 1)),
        made_of(level_at(after, l + 1), level_at(before, l + 1).filter(apart(min, max)), made),
        level_at(after, l).len() == 0,
        forall|x: nat| x != l && x != l + 1 ==> #[trigger] level_at(after, x) == level_at(before, x),
        dropped ==> forall|x: nat| x > l + 1 ==> (#[trigger] level_at(before, x)).len() == 0,
    ensures
        !dropped ==> lookup_from(after, 0, k) == lookup_from(before, 0, k),
        read(lookup_from(after, 0, k)) == read(lookup_from(before, 0, k)),
        !dropped ==> level_lookup(level_at(after, l + 1), k) == or_else(
            level_lookup(level_at(before, l), k),
            level_lookup(level_at(before, l + 1), k),
        ),
        read(level_lookup(level_at(after, l + 1), k)) == read(
            or_else(
                level_lookup(level_at(before, l), k),
                level_lookup(level_at(before, l + 1), k),
            ),
        ),
{
    let sources = level_at(before, l);
    let target = level_at(before, l + 1);
    let hits = target.filter(overlapping(min, max));
    let rest = target.filter(apart(min, max));
    let result = level_at(after, l + 1);
    let out = concat(chunks);
    lemma_filter_level(target, apart(min, max));
    lemma_filter_level(target, overlapping(min, max));
    // the old answer
    lemma_lookup_from_unfold(before, l, k);
    lemma_lookup_from_unfold(before, l + 1, k);
    lemma_partition_lookup(target, min, max, k);
    lemma_level_lookup_concat(sources, hits, k);
    lemma_overlay_lookup(sources + hits, k);
    let deep_before = lookup_from(before, l + 2, k);
    assert(or_else(level_lookup(sources, k), level_lookup(target, k)) == or_else(
        map_lookup(run_map(merged), k),
        level_lookup(rest, k),
    ));
    assert(lookup_from(before, l, k) == or_else(
        or_else(map_lookup(run_map(merged), k), level_lookup(rest, k)),
        deep_before,
    ));
    // the new answer
    lemma_lookup_from_unfold(after, l, k);
    lemma_lookup_from_unfold(after, l + 1, k);
    if dropped {
        lemma_filter_ascending(merged, is_live());
    }
    lemma_result_lookup(rest, chunks, made, result, k);
    let deep_after = lookup_from(after, l + 2, k);
    assert forall|x: nat| x >= l + 2 implies #[trigger] level_at(after, x) == level_at(
        before,
        x,
    ) by {}
    lemma_lookup_from_agree(after, before, l + 2, k);
    assert(deep_after == deep_before);
    assert(level_lookup(level_at(after, l), k) is None);
    assert(lookup_from(after, l, k) == or_else(
        or_else(map_lookup(run_map(out), k), level_lookup(rest, k)),
        deep_before,
    ));
    if dropped {
        lemma_live_run(merged, k);
        assert forall|x: nat| x >= l + 2 implies (#[trigger] level_at(before, x)).len() == 0 by {}
        lemma_lookup_from_empty(before, l + 2, k);
        if has_key(merged, k) && run_map(merged)[k] is None {
            // a dropped tombstone: no table of the rest holds its key
            assert forall|j: int| 0 <= j < rest.len() implies !(#[trigger] rest[j]).map().contains_key(
                k,
            ) by {
                if rest[j].map().contains_key(k) {
                    assert(target.contains(rest[j]));
                    lemma_outside(sources, target, min, max, rest[j], k);
                    lemma_holds_in_range(rest[j], k);
                    lemma_key_lt_irreflexive(k);
                    if key_lt(rest[j].max_key(), min) {
                        lemma_key_le_lt_transitive(k, rest[j].max_key(), k);
                    } else {
                        lemma_key_lt_le_transitive(k, rest[j].min_key(), k);
                    }
                }
            }
            lemma_level_lookup_miss(rest, k);
        }
    }
    assert forall|x: nat| x < l implies #[trigger] level_at(after, x) == level_at(before, x) by {}
    lemma_lookup_prefix(after, before, 0, l, k);
}

} // verus!
