//! What holds of the tree whatever is done with it: the laws that relate
//! writes, reads, flushes and compactions.

use vstd::prelude::*;
use vstd::utf8::encode_utf8;
use crate::engine::leveled_compaction::LeveledCompactor;
use crate::engine::level::LevelManager;
use crate::engine::leveled_compaction::merged_down;
use crate::engine::lookup::{
    level_at, level_lookup, levels_apart, lookup_from, pairwise_apart, read,
};
use crate::engine::codec::dec_log;
use crate::engine::lsm::{
    files_overlap, files_readable, numbers_exhausted, numbers_repeat, LSMConfig, LSMTree,
};
use crate::engine::bloom::{stored, BloomModel};
use crate::engine::codec::enc_run;
use crate::engine::level::all_tables;
use crate::engine::manifest::{
    all_fit, all_present, dec_names, enc_names, lemma_names_round_trip, picks, place_of,
    table_names, unfit,
};
use crate::engine::sstable::{SSTable, TableModel};
use crate::model::position_of;

verus! {

/// A read finds what the logical map holds: the payload of a key that is
/// in the map, and nothing for a key that is not.
pub proof fn law_read_is_logical_map(tree: &LSMTree, key: Seq<char>)
    ensures
        tree@.contains_key(key) ==> tree.logical(key) == Some(tree@[key]),
        !tree@.contains_key(key) ==> tree.logical(key) is None,
{
}

/// A put stores its payload under its key in the logical map and changes no other key.
pub proof fn law_put_updates_map(pre: &LSMTree, post: &LSMTree, key: Seq<char>, payload: Seq<char>)
    requires
        LSMTree::written(pre, post, key, Some(payload)),
    ensures
        post@ == pre@.insert(key, payload),
{
    assert forall|k: Seq<char>| post.logical(k) == if k == key {
        Some(payload)
    } else {
        pre.logical(k)
    } by {
        assert(post.found(k) == if k == key {
            Some(Some(payload))
        } else {
            pre.found(k)
        });
    }
    assert(post@ =~= pre@.insert(key, payload));
}

/// A delete removes its key from the logical map and changes no other key.
pub proof fn law_delete_updates_map(pre: &LSMTree, post: &LSMTree, key: Seq<char>)
    requires
        LSMTree::written(pre, post, key, None),
    ensures
        post@ == pre@.remove(key),
{
    assert forall|k: Seq<char>| post.logical(k) == if k == key {
        None
    } else {
        pre.logical(k)
    } by {
        assert(post.found(k) == if k == key {
            Some(None::<Seq<char>>)
        } else {
            pre.found(k)
        });
    }
    assert(post@ =~= pre@.remove(key));
}

/// What answers every key as before leaves the logical map as it was. This
/// holds of a flush.
pub proof fn law_flush_keeps_map(pre: &LSMTree, post: &LSMTree)
    requires
        LSMTree::flush_effect(pre, post),
    ensures
        post@ == pre@,
{
    assert forall|k: Seq<char>| post.logical(k) == pre.logical(k) by {
        assert(post.found(k) == pre.found(k));
    }
    assert(post@ =~= pre@);
}

/// What reads every key as before leaves the logical map as it was. This
/// holds of a compaction, of a compaction check and of closing.
pub proof fn law_compaction_keeps_map(pre: &LSMTree, post: &LSMTree)
    requires
        LSMTree::reads_alike(pre, post),
    ensures
        post@ == pre@,
{
    assert forall|k: Seq<char>| post.logical(k) == pre.logical(k) by {}
    assert(post@ =~= pre@);
}

/// After a flush the table in memory is empty, and so is the log.
pub proof fn law_flush_empties(pre: &LSMTree, post: &LSMTree)
    requires
        LSMTree::flush_effect(pre, post),
    ensures
        post.entries() == 0,
        post.memtable_model() == Map::<Seq<char>, Option<Seq<char>>>::empty(),
        post.log() is Some ==> post.log() == Some(Seq::<u8>::empty()),
{
}

/// Putting a payload and reading the key gives the payload.
pub proof fn law_put_get(pre: &LSMTree, post: &LSMTree, key: Seq<char>, payload: Seq<char>)
    requires
        LSMTree::written(pre, post, key, Some(payload)),
    ensures
        post.logical(key) == Some(payload),
{
    assert(post.found(key) == Some(Some(payload)));
}

/// Of two puts under one key, a read gives the payload of the second.
pub proof fn law_put_put_get(
    first: &LSMTree,
    second: &LSMTree,
    third: &LSMTree,
    key: Seq<char>,
    payload1: Seq<char>,
    payload2: Seq<char>,
)
    requires
        LSMTree::written(first, second, key, Some(payload1)),
        LSMTree::written(second, third, key, Some(payload2)),
    ensures
        third.logical(key) == Some(payload2),
{
    assert(third.found(key) == Some(Some(payload2)));
}

/// After a put and a delete of one key, a read finds nothing.
pub proof fn law_put_delete_get(
    first: &LSMTree,
    second: &LSMTree,
    third: &LSMTree,
    key: Seq<char>,
    payload: Seq<char>,
)
    requires
        LSMTree::written(first, second, key, Some(payload)),
        LSMTree::written(second, third, key, None),
    ensures
        third.logical(key) is None,
{
    assert(third.found(key) == Some(None::<Seq<char>>));
}

/// After two deletes of one key, a read finds nothing.
pub proof fn law_delete_delete_get(
    first: &LSMTree,
    second: &LSMTree,
    third: &LSMTree,
    key: Seq<char>,
)
    requires
        LSMTree::written(first, second, key, None),
        LSMTree::written(second, third, key, None),
    ensures
        third.logical(key) is None,
{
    assert(third.found(key) == Some(None::<Seq<char>>));
}

/// A write under one key changes what no other key reads.
pub proof fn law_write_leaves_others(
    pre: &LSMTree,
    post: &LSMTree,
    key: Seq<char>,
    value: Option<Seq<char>>,
    other: Seq<char>,
)
    requires
        LSMTree::written(pre, post, key, value),
        other != key,
    ensures
        post.logical(other) == pre.logical(other),
{
    assert(post.found(other) == pre.found(other));
}

/// A second flush right after a flush changes nothing.
pub proof fn law_flush_twice(first: &LSMTree, second: &LSMTree, third: &LSMTree)
    requires
        LSMTree::flush_effect(first, second),
        LSMTree::flush_effect(second, third),
    ensures
        LSMTree::same(second, third),
{
}

/// A compaction of a level leaves every key reading as before; and unless
/// its target was the deepest level, it leaves every answer of the levels
/// as before, deletions included.
pub proof fn law_compaction_keeps_answers(
    before: &LevelManager,
    after: &LevelManager,
    level: nat,
    key: Seq<char>,
)
    requires
        LeveledCompactor::compacted(before, after, level),
    ensures
        read(lookup_from(after@, 0, key)) == read(lookup_from(before@, 0, key)),
        before@.len() > level + 2 ==> lookup_from(after@, 0, key) == lookup_from(before@, 0, key),
        levels_apart(after@),
{
}

/// A compaction into the deepest level drops the deletions: a table
/// that it has put into that level holds none.
pub proof fn law_bottom_compaction_drops_deletions(
    before: &LevelManager,
    after: &LevelManager,
    level: nat,
    table: TableModel,
    i: int,
)
    requires
        LeveledCompactor::compacted(before, after, level),
        before@.len() <= level + 2,
        after.level_models(level + 1).contains(table),
        !before.level_models(level + 1).contains(table),
        0 <= i < table.records.len(),
    ensures
        table.records[i].value is Some,
{
}

/// A deletion that is merged down stands in the target level, unless the
/// target is the deepest level: where the newest entry of a key in the
/// compacted level is a deletion and a level lies below the target, the
/// target level answers the key with that deletion afterwards.
pub proof fn law_deletion_stands_in_target(
    before: Seq<Seq<TableModel>>,
    after: Seq<Seq<TableModel>>,
    level: nat,
    key: Seq<char>,
)
    requires
        merged_down(before, after, level),
        before.len() > level + 2,
        level_lookup(level_at(before, level), key) == Some(None::<Seq<char>>),
    ensures
        level_lookup(level_at(after, level + 1), key) == Some(None::<Seq<char>>),
{
}

/// A check for compaction that finds nothing to do leaves a tree in which
/// no level is due: level 0 holds fewer tables than its limit.
pub proof fn law_idle_tree_is_within_limits(pre: &LSMTree, post: &LSMTree)
    requires
        LSMTree::checked(pre, post),
        forall|l: nat| !LSMTree::level_due(pre, l),
        pre.file_limit() >= 1,
    ensures
        forall|l: nat| !LSMTree::level_due(post, l),
        level_at(post.levels(), 0).len() < post.file_limit(),
{
    assert(!LSMTree::level_due(pre, 0));
    assert forall|l: nat| !LSMTree::level_due(post, l) by {
        assert(!LSMTree::level_due(pre, l));
    }
}

/// While no sequence number has been used twice, the names of the tables
/// stay in order from step to step.
pub proof fn law_fresh_numbers_keep_order(pre: &LSMTree, post: &LSMTree)
    requires
        pre.in_order(),
        LSMTree::keeps_order(pre, post),
        post.numbers_fresh(),
    ensures
        post.in_order(),
{
}

/// The filter of a table reports every key that the table holds.
pub proof fn law_filter_reports_keys(table: &SSTable, key: Seq<char>)
    requires
        table.wf(),
        table@.map().contains_key(key),
    ensures
        table.filter().contains(encode_utf8(key)),
{
    table.lemma_wf();
    let p = position_of(table@.records, key);
    assert(table.filter().contains(encode_utf8(table@.records[p].key)));
}

/// In a well-formed tree, no two tables of a level below level 0 have a key
/// of their ranges in common.
pub proof fn law_levels_apart(tree: &LSMTree, level: int)
    requires
        tree.wf(),
        1 <= level < tree.levels().len(),
    ensures
        pairwise_apart(tree.levels()[level]),
{
    tree.lemma_wf();
}

/// A tree that is opened over the log of another finds in memory what the
/// other held in memory.
pub proof fn law_log_recovers_memtable(
    tree: &LSMTree,
    reopened: &LSMTree,
    config: &LSMConfig,
    files: Seq<(String, Vec<u8>)>,
)
    requires
        tree.wf(),
        tree.log() is Some,
        config.enable_wal,
        LSMTree::opened(reopened, config, files, tree.log().unwrap()),
    ensures
        reopened.memtable_model() == tree.memtable_model(),
{
    tree.lemma_wf();
}

/// A put that did not fill the table in memory is found again when a tree
/// is opened over the log as the put left it, whatever tables the
/// directory holds.
pub proof fn law_log_recovers_put(
    pre: &LSMTree,
    post: &LSMTree,
    reopened: &LSMTree,
    config: &LSMConfig,
    files: Seq<(String, Vec<u8>)>,
    key: Seq<char>,
    payload: Seq<char>,
)
    requires
        post.wf(),
        LSMTree::written(pre, post, key, Some(payload)),
        post.memtable_model().contains_key(key),
        post.log() is Some,
        config.enable_wal,
        LSMTree::opened(reopened, config, files, post.log().unwrap()),
    ensures
        reopened.logical(key) == Some(payload),
{
    law_log_recovers_memtable(post, reopened, config, files);
    assert(post.found(key) == Some(Some(payload)));
}

/// The directory of a tree can be opened again: every table file holds a
/// table, the tables of a level below level 0 are apart, no two tables of
/// level 0 carry one number, a number is left for the next table, and the
/// log can be read. This holds of a tree whose names are in order, which
/// they are until a sequence number is used a second time.
pub proof fn law_directory_opens(tree: &LSMTree, files: Seq<(String, Vec<u8>)>)
    requires
        tree.wf(),
        tree.in_order(),
        LSMTree::is_directory_of(tree, files),
    ensures
        files_readable(files),
        !files_overlap(files),
        !numbers_repeat(files),
        !numbers_exhausted(files),
        dec_log(LSMTree::log_bytes(tree)) is Some,
{
    tree.lemma_directory_opens(files);
}

/// A tree that is opened over the directory of a tree holds the logical
/// map of that tree. The tree must keep a log or hold nothing in memory, as
/// it does after a flush and after closing; and its names must be in order.
pub proof fn law_reopen_keeps_map(
    tree: &LSMTree,
    reopened: &LSMTree,
    config: &LSMConfig,
    files: Seq<(String, Vec<u8>)>,
)
    requires
        tree.wf(),
        tree.in_order(),
        LSMTree::is_directory_of(tree, files),
        config.enable_wal == (tree.log() is Some),
        tree.log() is Some || tree.entries() == 0,
        reopened.wf(),
        LSMTree::opened(reopened, config, files, LSMTree::log_bytes(tree)),
    ensures
        reopened@ == tree@,
        forall|k: Seq<char>| #[trigger] reopened.logical(k) == tree.logical(k),
{
    tree.lemma_reopen(reopened, config, files);
    assert(reopened@ =~= tree@);
}

/// After a put, a tree that is opened over the directory as the put left
/// it, log and tables, reads the payload under the key: whether the put
/// went to the log only or filled the table in memory and was flushed.
pub proof fn law_reopen_recovers_put(
    pre: &LSMTree,
    post: &LSMTree,
    reopened: &LSMTree,
    config: &LSMConfig,
    files: Seq<(String, Vec<u8>)>,
    key: Seq<char>,
    payload: Seq<char>,
)
    requires
        post.wf(),
        post.in_order(),
        LSMTree::written(pre, post, key, Some(payload)),
        post.log() is Some,
        config.enable_wal,
        LSMTree::is_directory_of(post, files),
        reopened.wf(),
        LSMTree::opened(reopened, config, files, LSMTree::log_bytes(post)),
    ensures
        reopened.logical(key) == Some(payload),
{
    post.lemma_reopen(reopened, config, files);
    assert(post.found(key) == Some(Some(payload)));
}

/// The directory holds the table files of the tree, each under its name,
/// and whatever else.
pub open spec fn holds_directory(tree: &LSMTree, files: Seq<(String, Vec<u8>)>) -> bool {
    forall|i: int|
        #![trigger table_names(tree.levels())[i]]
        0 <= i < table_names(tree.levels()).len() ==> {
            let p = place_of(files, table_names(tree.levels())[i], 0);
            0 <= p < files.len() && files[p].1@ == enc_run(all_tables(tree.levels())[i].records)
        }
}

/// The manifest of a tree opens a directory that holds the table files of
/// the tree, whatever else it holds: the manifest can be read, every file
/// that it lists is there, and a tree can be opened over the files that it
/// picks. The names of the tree must be in order.
pub proof fn law_manifest_opens(
    tree: &LSMTree,
    config: &LSMConfig,
    files: Seq<(String, Vec<u8>)>,
    live: Seq<(String, Vec<u8>)>,
)
    requires
        tree.wf(),
        tree.in_order(),
        all_fit(table_names(tree.levels())),
        holds_directory(tree, files),
        picks(files, table_names(tree.levels()), live),
    ensures
        dec_names(enc_names(table_names(tree.levels()))) == Some(table_names(tree.levels())),
        all_present(files, table_names(tree.levels())),
        !unfit(config, live, LSMTree::log_bytes(tree)),
{
    lemma_names_round_trip(table_names(tree.levels()));
    tree.lemma_manifest_picks_directory(files, live);
    tree.lemma_directory_opens(live);
}

/// Files that a crash has left behind change nothing: a tree that is
/// opened over the files which the manifest of a tree picks, from a
/// directory that holds the table files of that tree and whatever else,
/// holds the logical map of that tree. The tree must keep a log or hold
/// nothing in memory, and its names must be in order.
pub proof fn law_manifest_leaves_others_aside(
    tree: &LSMTree,
    reopened: &LSMTree,
    config: &LSMConfig,
    files: Seq<(String, Vec<u8>)>,
    live: Seq<(String, Vec<u8>)>,
)
    requires
        tree.wf(),
        tree.in_order(),
        config.enable_wal == (tree.log() is Some),
        tree.log() is Some || tree.entries() == 0,
        holds_directory(tree, files),
        picks(files, table_names(tree.levels()), live),
        reopened.wf(),
        LSMTree::opened(reopened, config, live, LSMTree::log_bytes(tree)),
    ensures
        reopened@ == tree@,
{
    tree.lemma_manifest_picks_directory(files, live);
    law_reopen_keeps_map(tree, reopened, config, live);
}

/// A filter that was written is read back: bytes hold one filter only, so
/// the filter that is read from the bytes of a filter is that filter.
pub proof fn law_filter_round_trip(written: BloomModel, read: BloomModel, bytes: Seq<u8>)
    requires
        stored(written, bytes),
        stored(read, bytes),
    ensures
        read == written,
{
    assert(read.bits =~= written.bits);
}

/// A table file that was written is read back: the bytes of a run of
/// records that can be stored spell that run.
pub proof fn law_table_file_round_trip(records: Seq<crate::types::Entry>)
    requires
        forall|i: int| 0 <= i < records.len() ==> crate::engine::codec::storable(#[trigger] records[i]),
    ensures
        crate::engine::codec::dec_run(crate::engine::codec::enc_run(records)) == Some(records),
{
    crate::engine::codec::lemma_run_round_trip(records);
}

/// A log that was written is read back: the bytes of log entries that can
/// be stored spell those entries, and end with a complete frame.
pub proof fn law_log_round_trip(entries: Seq<crate::types::Entry>)
    requires
        forall|i: int| 0 <= i < entries.len() ==> crate::engine::codec::storable(#[trigger] entries[i]),
    ensures
        dec_log(crate::engine::codec::enc_log(entries)) == Some(entries),
{
    crate::engine::codec::lemma_log_round_trip(entries);
}

/// The names of the tables stay in order through every step, as long as no
/// sequence number is used a second time: steps that keep them in order,
/// one after the other, keep them in order.
pub proof fn law_order_is_kept(first: &LSMTree, second: &LSMTree, third: &LSMTree)
    requires
        LSMTree::keeps_order(first, second),
        LSMTree::keeps_order(second, third),
    ensures
        LSMTree::keeps_order(first, third),
{
}

} // verus!
