//! What the tables say of a key: lookups through a level and through the
//! levels, and the facts about them that reads and compactions rest on.

use vstd::prelude::*;
use crate::engine::sstable::TableModel;
use crate::keys::{key_le, lemma_key_le_transitive};
use crate::model::{lemma_keys_in_range, Layer};

verus! {

/// What a layer says of a key: `Some(Some(payload))`, `Some(None)` for a
/// deletion, and `None` where the layer does not know the key.
pub type Found = Option<Option<Seq<char>>>;

/// What a map says of a key.
pub open spec fn map_lookup(m: Layer, k: Seq<char>) -> Found {
    if m.contains_key(k) {
        Some(m[k])
    } else {
        None
    }
}

/// The first answer, and the second where the first knows nothing.
pub open spec fn or_else(first: Found, second: Found) -> Found {
    match first {
        Some(v) => Some(v),
        None => second,
    }
}

/// What a caller reads: the payload of a key that is known and not deleted.
pub open spec fn read(found: Found) -> Option<Seq<char>> {
    match found {
        Some(Some(v)) => Some(v),
        _ => None,
    }
}

/// What the tables of a level say of a key: the answer of the first table
/// that knows it.
pub open spec fn level_lookup(ts: Seq<TableModel>, k: Seq<char>) -> Found
    decreases ts.len(),
{
    if ts.len() == 0 {
        None
    } else {
        or_else(ts[0].lookup(k), level_lookup(ts.drop_first(), k))
    }
}

/// What the levels from `from` on say of a key: the answer of the first
/// level that knows it.
pub open spec fn lookup_from(levels: Seq<Seq<TableModel>>, from: nat, k: Seq<char>) -> Found
    decreases levels.len() - from,
{
    if from >= levels.len() {
        None
    } else {
        or_else(level_lookup(levels[from as int], k), lookup_from(levels, from + 1, k))
    }
}

/// The tables of a level; none for a level that does not exist.
pub open spec fn level_at(levels: Seq<Seq<TableModel>>, l: nat) -> Seq<TableModel> {
    if l < levels.len() {
        levels[l as int]
    } else {
        Seq::empty()
    }
}

/// Every table of the sequence is valid.
pub open spec fn all_valid(ts: Seq<TableModel>) -> bool {
    forall|i: int| 0 <= i < ts.len() ==> (#[trigger] ts[i]).valid() && ts[i].records.len() > 0
}

/// The key ranges of two tables have a key in common.
pub open spec fn ranges_meet(a: TableModel, b: TableModel) -> bool {
    a.overlaps(b.min_key(), b.max_key())
}

/// No two tables of the sequence have a key of their ranges in common.
pub open spec fn pairwise_apart(ts: Seq<TableModel>) -> bool {
    forall|i: int, j: int|
        0 <= i < j < ts.len() ==> !ranges_meet(#[trigger] ts[i], #[trigger] ts[j])
}

/// From level 1 on, no two tables of a level have a key of their ranges in common.
pub open spec fn levels_apart(levels: Seq<Seq<TableModel>>) -> bool {
    forall|l: int| 1 <= l < levels.len() ==> pairwise_apart(#[trigger] levels[l])
}

/// A table that holds a key has it within its range.
pub proof fn lemma_holds_in_range(t: TableModel, k: Seq<char>)
    requires
        t.valid(),
        t.map().contains_key(k),
    ensures
        key_le(t.min_key(), k),
        key_le(k, t.max_key()),
{
    lemma_keys_in_range(t.records, k);
}

/// Tables whose ranges are apart hold no key in common.
pub proof fn lemma_apart_no_common_key(a: TableModel, b: TableModel, k: Seq<char>)
    requires
        a.valid(),
        b.valid(),
        !ranges_meet(a, b),
        a.map().contains_key(k),
    ensures
        !b.map().contains_key(k),
{
    if b.map().contains_key(k) {
        lemma_holds_in_range(a, k);
        lemma_holds_in_range(b, k);
        lemma_key_le_transitive(b.min_key(), k, a.max_key());
        lemma_key_le_transitive(a.min_key(), k, b.max_key());
    }
}

/// Where no table knows the key, the level knows nothing.
pub proof fn lemma_level_lookup_miss(ts: Seq<TableModel>, k: Seq<char>)
    requires
        forall|i: int| 0 <= i < ts.len() ==> !(#[trigger] ts[i]).map().contains_key(k),
    ensures
        level_lookup(ts, k) is None,
    decreases ts.len(),
{
    if ts.len() > 0 {
        assert(!ts[0].map().contains_key(k));
        let rest = ts.drop_first();
        assert forall|i: int| 0 <= i < rest.len() implies !(#[trigger] rest[i]).map().contains_key(
            k,
        ) by {
            assert(rest[i] == ts[i + 1]);
        }
        lemma_level_lookup_miss(rest, k);
    }
}

/// Where the table at `i` is the first to know the key, the level answers as it does.
pub proof fn lemma_level_lookup_first(ts: Seq<TableModel>, i: int, k: Seq<char>)
    requires
        0 <= i < ts.len(),
        ts[i].map().contains_key(k),
        forall|j: int| 0 <= j < i ==> !(#[trigger] ts[j]).map().contains_key(k),
    ensures
        level_lookup(ts, k) == Some(ts[i].map()[k]),
    decreases i,
{
    if i > 0 {
        assert(!ts[0].map().contains_key(k));
        let rest = ts.drop_first();
        assert(rest[i - 1] == ts[i]);
        assert forall|j: int| 0 <= j < i - 1 implies !(#[trigger] rest[j]).map().contains_key(
            k,
        ) by {
            assert(rest[j] == ts[j + 1]);
        }
        lemma_level_lookup_first(rest, i - 1, k);
    }
}

/// Where the level knows the key, some table is the first to know it.
pub proof fn lemma_level_lookup_found(ts: Seq<TableModel>, k: Seq<char>) -> (i: int)
    requires
        level_lookup(ts, k) is Some,
    ensures
        0 <= i < ts.len(),
        ts[i].map().contains_key(k),
        level_lookup(ts, k) == Some(ts[i].map()[k]),
        forall|j: int| 0 <= j < i ==> !(#[trigger] ts[j]).map().contains_key(k),
    decreases ts.len(),
{
    if ts[0].map().contains_key(k) {
        0
    } else {
        let rest = ts.drop_first();
        let p = lemma_level_lookup_found(rest, k);
        assert(rest[p] == ts[p + 1]);
        assert forall|j: int| 0 <= j < p + 1 implies !(#[trigger] ts[j]).map().contains_key(k) by {
            if j > 0 {
                assert(rest[j - 1] == ts[j]);
            }
        }
        p + 1
    }
}

/// In a level whose tables are apart, the one table that knows a key answers for the level.
pub proof fn lemma_level_lookup_holder(ts: Seq<TableModel>, i: int, k: Seq<char>)
    requires
        all_valid(ts),
        pairwise_apart(ts),
        0 <= i < ts.len(),
        ts[i].map().contains_key(k),
    ensures
        level_lookup(ts, k) == Some(ts[i].map()[k]),
{
    assert forall|j: int| 0 <= j < i implies !(#[trigger] ts[j]).map().contains_key(k) by {
        assert(!ranges_meet(ts[j], ts[i]));
        if ts[j].map().contains_key(k) {
            lemma_apart_no_common_key(ts[j], ts[i], k);
        }
    }
    lemma_level_lookup_first(ts, i, k);
}

/// A level made of two parts answers as the first part, and as the second
/// where the first knows nothing.
pub proof fn lemma_level_lookup_concat(a: Seq<TableModel>, b: Seq<TableModel>, k: Seq<char>)
    ensures
        level_lookup(a + b, k) == or_else(level_lookup(a, k), level_lookup(b, k)),
    decreases a.len(),
{
    if a.len() == 0 {
        assert(a + b =~= b);
    } else {
        assert((a + b).drop_first() =~= a.drop_first() + b);
        lemma_level_lookup_concat(a.drop_first(), b, k);
    }
}

/// Levels that agree from `from` on answer alike from `from` on.
pub proof fn lemma_lookup_from_agree(
    a: Seq<Seq<TableModel>>,
    b: Seq<Seq<TableModel>>,
    from: nat,
    k: Seq<char>,
)
    requires
        forall|l: nat| l >= from ==> #[trigger] level_at(a, l) == level_at(b, l),
    ensures
        lookup_from(a, from, k) == lookup_from(b, from, k),
    decreases
            (if a.len() > b.len() {
                a.len()
            } else {
                b.len()
            }) - from,
{
    if from >= a.len() && from >= b.len() {
    } else {
        assert(level_at(a, from) == level_at(b, from));
        lemma_lookup_from_agree(a, b, (from + 1) as nat, k);
        if from >= a.len() {
            assert(level_at(b, from) =~= Seq::<TableModel>::empty());
        }
        if from >= b.len() {
            assert(level_at(a, from) =~= Seq::<TableModel>::empty());
        }
    }
}

/// Lookups from level 0 on agree if the levels below `from` agree and the
/// lookups from `from` on agree.
pub proof fn lemma_lookup_prefix(
    a: Seq<Seq<TableModel>>,
    b: Seq<Seq<TableModel>>,
    at: nat,
    from: nat,
    k: Seq<char>,
)
    requires
        at <= from,
        forall|l: nat| l < from ==> #[trigger] level_at(a, l) == level_at(b, l),
    ensures
        lookup_from(a, from, k) == lookup_from(b, from, k) ==> lookup_from(a, at, k)
            == lookup_from(b, at, k),
        read(lookup_from(a, from, k)) == read(lookup_from(b, from, k)) ==> read(
            lookup_from(a, at, k),
        ) == read(lookup_from(b, at, k)),
    decreases from - at,
{
    if at < from {
        lemma_lookup_prefix(a, b, (at + 1) as nat, from, k);
        assert(level_at(a, at) == level_at(b, at));
        if at >= a.len() {
            assert(level_at(b, at) =~= Seq::<TableModel>::empty());
            lemma_lookup_from_beyond(a, (at + 1) as nat, k);
        }
        if at >= b.len() {
            assert(level_at(a, at) =~= Seq::<TableModel>::empty());
            lemma_lookup_from_beyond(b, (at + 1) as nat, k);
        }
    }
}

/// Beyond the deepest level nothing is known.
pub proof fn lemma_lookup_from_beyond(a: Seq<Seq<TableModel>>, from: nat, k: Seq<char>)
    requires
        from >= a.len(),
    ensures
        lookup_from(a, from, k) is None,
{
}

/// Where every level from `from` on is empty, nothing is known from `from` on.
pub proof fn lemma_lookup_from_empty(a: Seq<Seq<TableModel>>, from: nat, k: Seq<char>)
    requires
        forall|l: nat| l >= from ==> (#[trigger] level_at(a, l)).len() == 0,
    ensures
        lookup_from(a, from, k) is None,
    decreases a.len() - from,
{
    if from < a.len() {
        assert(level_at(a, from).len() == 0);
        lemma_lookup_from_empty(a, (from + 1) as nat, k);
    }
}

} // verus!
