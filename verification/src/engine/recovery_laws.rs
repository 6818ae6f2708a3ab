//! Why a tree that is opened over the files of another answers as the
//! other: the facts about table lists and lookups that this rests on.

use vstd::prelude::*;
use crate::engine::level::all_tables;
use crate::engine::lookup::{
    all_valid, lemma_level_lookup_first, lemma_level_lookup_found, lemma_level_lookup_holder,
    lemma_level_lookup_miss, level_at, level_lookup, lookup_from, pairwise_apart,
};
use crate::engine::lsm::{falling, seq_of};
use crate::engine::merge_laws::lemma_lookup_from_unfold;
use crate::engine::sstable::TableModel;

verus! {

/// Where the tables of level `l` begin in the list of all tables.
pub open spec fn level_offset(levels: Seq<Seq<TableModel>>, l: int) -> int {
    all_tables(levels.take(l)).len() as int
}

/// The tables of a level are a stretch of the list of all tables.
pub proof fn lemma_level_is_stretch(levels: Seq<Seq<TableModel>>, l: int)
    requires
        0 <= l < levels.len(),
    ensures
        0 <= level_offset(levels, l) <= level_offset(levels, l + 1) <= all_tables(levels).len(),
        level_offset(levels, l + 1) == level_offset(levels, l) + levels[l].len(),
        levels[l] == all_tables(levels).subrange(
            level_offset(levels, l),
            level_offset(levels, l + 1),
        ),
        all_tables(levels.take(l + 1)) == all_tables(levels).take(level_offset(levels, l + 1)),
    decreases levels.len() - l,
{
    let whole = all_tables(levels);
    assert(levels.take(l + 1).drop_last() =~= levels.take(l));
    assert(levels.take(l + 1).last() == levels[l]);
    assert(all_tables(levels.take(l + 1)) == all_tables(levels.take(l)) + levels[l]);
    if l + 1 == levels.len() {
        assert(levels.take(l + 1) =~= levels);
        assert(whole.take(whole.len() as int) =~= whole);
    } else {
        lemma_level_is_stretch(levels, l + 1);
        assert(levels.take(l + 2).drop_last() =~= levels.take(l + 1));
        assert(all_tables(levels.take(l + 2)) == all_tables(levels.take(l + 1)) + levels[l + 1]);
        assert(all_tables(levels.take(l + 1)) =~= whole.take(level_offset(levels, l + 2)).take(
            level_offset(levels, l + 1),
        ));
        assert(all_tables(levels.take(l + 1)) =~= whole.take(level_offset(levels, l + 1)));
    }
    let pre = all_tables(levels.take(l));
    let joined = pre + levels[l];
    let e = level_offset(levels, l + 1);
    assert(joined == whole.take(e));
    assert(joined.len() == pre.len() + levels[l].len());
    assert forall|x: int| 0 <= x < levels[l].len() implies levels[l][x] == whole.subrange(
        pre.len() as int,
        e,
    )[x] by {
        assert(joined[pre.len() + x] == levels[l][x]);
        assert(whole.take(e)[pre.len() + x] == whole[pre.len() + x]);
    }
    assert(levels[l] =~= whole.subrange(level_offset(levels, l), level_offset(levels, l + 1)));
}

/// The level that holds the table at position `i` of the list of all tables.
pub proof fn lemma_level_of_index(levels: Seq<Seq<TableModel>>, i: int) -> (l: int)
    requires
        0 <= i < all_tables(levels).len(),
    ensures
        0 <= l < levels.len(),
        level_offset(levels, l) <= i < level_offset(levels, l + 1),
        levels[l][i - level_offset(levels, l)] == all_tables(levels)[i],
    decreases levels.len(),
{
    let n = levels.len() as int;
    assert(n > 0);
    lemma_level_is_stretch(levels, n - 1);
    assert(levels.take(n) =~= levels);
    if i >= level_offset(levels, n - 1) {
        n - 1
    } else {
        let head = levels.drop_last();
        assert(levels.take(n - 1) =~= head);
        assert(all_tables(head) == all_tables(levels).take(level_offset(levels, n - 1)));
        let l = lemma_level_of_index(head, i);
        assert(head.take(l) =~= levels.take(l));
        assert(head.take(l + 1) =~= levels.take(l + 1));
        l
    }
}

/// Two levels that hold the same tables, each with its tables apart, answer alike.
pub proof fn lemma_same_tables_lookup(a: Seq<TableModel>, b: Seq<TableModel>, k: Seq<char>)
    requires
        all_valid(a),
        all_valid(b),
        pairwise_apart(a),
        pairwise_apart(b),
        forall|t: TableModel| #[trigger] a.contains(t) <==> b.contains(t),
    ensures
        level_lookup(a, k) == level_lookup(b, k),
{
    if exists|i: int| 0 <= i < a.len() && (#[trigger] a[i]).map().contains_key(k) {
        let i = choose|i: int| 0 <= i < a.len() && (#[trigger] a[i]).map().contains_key(k);
        lemma_level_lookup_holder(a, i, k);
        assert(a.contains(a[i]));
        assert(b.contains(a[i]));
        let j = choose|j: int| 0 <= j < b.len() && b[j] == a[i];
        lemma_level_lookup_holder(b, j, k);
    } else {
        lemma_level_lookup_miss(a, k);
        assert forall|j: int| 0 <= j < b.len() implies !(#[trigger] b[j]).map().contains_key(k) by {
            assert(b.contains(b[j]));
            assert(a.contains(b[j]));
            let i = choose|i: int| 0 <= i < a.len() && a[i] == b[j];
            assert(!a[i].map().contains_key(k));
        }
        lemma_level_lookup_miss(b, k);
    }
}

/// A level in which a table knows the key knows the key.
pub proof fn lemma_holder_is_found(ts: Seq<TableModel>, i: int, k: Seq<char>)
    requires
        0 <= i < ts.len(),
        ts[i].map().contains_key(k),
    ensures
        level_lookup(ts, k) is Some,
    decreases i,
{
    if i > 0 && !ts[0].map().contains_key(k) {
        assert(ts.drop_first()[i - 1] == ts[i]);
        lemma_holder_is_found(ts.drop_first(), i - 1, k);
    }
}

/// Two lists that hold the same tables, each with falling numbers, answer alike.
pub proof fn lemma_falling_lookup(a: Seq<TableModel>, b: Seq<TableModel>, k: Seq<char>)
    requires
        falling(a),
        falling(b),
        forall|t: TableModel| #[trigger] a.contains(t) <==> b.contains(t),
    ensures
        level_lookup(a, k) == level_lookup(b, k),
{
    if level_lookup(a, k) is Some {
        let i = lemma_level_lookup_found(a, k);
        let h = a[i];
        assert(a.contains(h));
        assert(b.contains(h));
        let j = choose|j: int| 0 <= j < b.len() && b[j] == h;
        assert forall|x: int| 0 <= x < j implies !(#[trigger] b[x]).map().contains_key(k) by {
            if b[x].map().contains_key(k) {
                assert(seq_of(b[x]) > seq_of(b[j]));
                assert(b.contains(b[x]));
                assert(a.contains(b[x]));
                let y = choose|y: int| 0 <= y < a.len() && a[y] == b[x];
                // a table that knows the key does not stand before the first that does
                assert(y >= i);
                if y > i {
                    assert(seq_of(a[i]) > seq_of(a[y]));
                }
            }
        }
        lemma_level_lookup_first(b, j, k);
    } else {
        assert forall|x: int| 0 <= x < b.len() implies !(#[trigger] b[x]).map().contains_key(k) by {
            if b[x].map().contains_key(k) {
                assert(b.contains(b[x]));
                assert(a.contains(b[x]));
                let y = choose|y: int| 0 <= y < a.len() && a[y] == b[x];
                lemma_holder_is_found(a, y, k);
            }
        }
        lemma_level_lookup_miss(b, k);
    }
}

/// Levels that answer alike, level by level, answer alike as a whole.
pub proof fn lemma_lookup_from_levels(
    a: Seq<Seq<TableModel>>,
    b: Seq<Seq<TableModel>>,
    from: nat,
    k: Seq<char>,
)
    requires
        forall|l: nat|
            l >= from ==> level_lookup(#[trigger] level_at(a, l), k) == level_lookup(
                level_at(b, l),
                k,
            ),
    ensures
        lookup_from(a, from, k) == lookup_from(b, from, k),
    decreases
            (if a.len() > b.len() {
                a.len()
            } else {
                b.len()
            }) - from,
{
    if from >= a.len() && from >= b.len() {
    } else {
        lemma_lookup_from_unfold(a, from, k);
        lemma_lookup_from_unfold(b, from, k);
        assert(level_lookup(level_at(a, from), k) == level_lookup(level_at(b, from), k));
        lemma_lookup_from_levels(a, b, (from + 1) as nat, k);
    }
}

} // verus!
