//! The mathematical model: sorted runs of entries, the maps they denote, and
//! lookups through a stack of such maps.

use vstd::prelude::*;
use crate::keys::{key_le, key_lt, lemma_key_lt_irreflexive};
use crate::types::{Entry, Record};

verus! {

/// What one layer of the store says about keys: a payload, or a deletion.
pub type Layer = Map<Seq<char>, Option<Seq<char>>>;

/// The models of a sequence of records.
pub open spec fn entries_of(records: Seq<Record>) -> Seq<Entry> {
    Seq::new(records.len(), |i: int| records[i]@)
}

/// Keys strictly increase along the sequence.
pub open spec fn ascending(s: Seq<Entry>) -> bool {
    forall|i: int, j: int| 0 <= i < j < s.len() ==> key_lt(#[trigger] s[i].key, #[trigger] s[j].key)
}

/// Some entry of the sequence has this key.
pub open spec fn has_key(s: Seq<Entry>, k: Seq<char>) -> bool {
    exists|i: int| 0 <= i < s.len() && #[trigger] s[i].key == k
}

/// A position at which the key occurs, if it occurs.
pub open spec fn position_of(s: Seq<Entry>, k: Seq<char>) -> int {
    choose|i: int| 0 <= i < s.len() && #[trigger] s[i].key == k
}

/// The map that a run of entries denotes.
pub open spec fn run_map(s: Seq<Entry>) -> Layer {
    Map::new(|k: Seq<char>| has_key(s, k), |k: Seq<char>| s[position_of(s, k)].value)
}

/// In an ascending run a key occurs at one position only.
pub proof fn lemma_ascending_unique(s: Seq<Entry>, i: int, j: int)
    requires
        ascending(s),
        0 <= i < s.len(),
        0 <= j < s.len(),
        s[i].key == s[j].key,
    ensures
        i == j,
{
    lemma_key_lt_irreflexive(s[i].key);
    if i < j {
        assert(key_lt(s[i].key, s[j].key));
    } else if j < i {
        assert(key_lt(s[j].key, s[i].key));
    }
}

/// In an ascending run the map holds, for the key at each position, the value there.
pub proof fn lemma_run_map_at(s: Seq<Entry>, i: int)
    requires
        ascending(s),
        0 <= i < s.len(),
    ensures
        run_map(s).contains_key(s[i].key),
        run_map(s)[s[i].key] == s[i].value,
{
    assert(has_key(s, s[i].key));
    lemma_ascending_unique(s, i, position_of(s, s[i].key));
}

/// A copy of the records.
pub fn clone_records(records: &Vec<Record>) -> (r: Vec<Record>)
    ensures
        entries_of(r@) == entries_of(records@),
{
    let mut out: Vec<Record> = Vec::new();
    let mut i: usize = 0;
    while i < records.len()
        invariant
            i <= records.len(),
            out@.len() == i,
            forall|j: int| 0 <= j < i ==> out@[j]@ == records@[j]@,
        decreases records.len() - i,
    {
        out.push(records[i].clone());
        i += 1;
    }
    proof {
        assert(entries_of(out@) =~= entries_of(records@));
    }
    out
}

/// The key lies between the two bounds, both included.
pub open spec fn in_range(min: Seq<char>, max: Seq<char>, k: Seq<char>) -> bool {
    key_le(min, k) && key_le(k, max)
}

/// The first key of a run, or the empty key for an empty run.
pub open spec fn first_key(s: Seq<Entry>) -> Seq<char> {
    if s.len() == 0 {
        Seq::empty()
    } else {
        s[0].key
    }
}

/// The last key of a run, or the empty key for an empty run.
pub open spec fn last_key(s: Seq<Entry>) -> Seq<char> {
    if s.len() == 0 {
        Seq::empty()
    } else {
        s[s.len() - 1].key
    }
}

/// Every key of an ascending run lies between its first and its last key.
pub proof fn lemma_keys_in_range(s: Seq<Entry>, k: Seq<char>)
    requires
        ascending(s),
        has_key(s, k),
    ensures
        in_range(first_key(s), last_key(s), k),
{
    let i = position_of(s, k);
    if 0 < i {
        assert(key_lt(s[0].key, s[i].key));
    }
    if i < s.len() - 1 {
        assert(key_lt(s[i].key, s[s.len() - 1].key));
    }
}

/// The first `n + 1` entries of an ascending run denote the map of the first
/// `n` with the entry at `n` added.
pub proof fn lemma_run_map_take(s: Seq<Entry>, n: int)
    requires
        ascending(s),
        0 <= n < s.len(),
    ensures
        ascending(s.take(n)),
        ascending(s.take(n + 1)),
        !run_map(s.take(n)).contains_key(s[n].key),
        run_map(s.take(n + 1)) == run_map(s.take(n)).insert(s[n].key, s[n].value),
{
    let a = s.take(n);
    let b = s.take(n + 1);
    assert forall|i: int, j: int| 0 <= i < j < a.len() implies key_lt(
        #[trigger] a[i].key,
        #[trigger] a[j].key,
    ) by {
        assert(key_lt(s[i].key, s[j].key));
    }
    assert forall|i: int, j: int| 0 <= i < j < b.len() implies key_lt(
        #[trigger] b[i].key,
        #[trigger] b[j].key,
    ) by {
        assert(key_lt(s[i].key, s[j].key));
    }
    assert(b =~= a.push(s[n]));
    lemma_run_map_push(a, s[n]);
}

/// An entry whose key is above all keys of an ascending run can be appended:
/// the run stays ascending and its map gains the entry.
pub proof fn lemma_run_map_push(s: Seq<Entry>, e: Entry)
    requires
        ascending(s),
        forall|i: int| 0 <= i < s.len() ==> key_lt(#[trigger] s[i].key, e.key),
    ensures
        ascending(s.push(e)),
        !run_map(s).contains_key(e.key),
        run_map(s.push(e)) == run_map(s).insert(e.key, e.value),
{
    let t = s.push(e);
    assert forall|i: int, j: int| 0 <= i < j < t.len() implies key_lt(
        #[trigger] t[i].key,
        #[trigger] t[j].key,
    ) by {
        if j < s.len() {
            assert(key_lt(s[i].key, s[j].key));
        } else {
            assert(key_lt(s[i].key, e.key));
        }
    }
    if has_key(s, e.key) {
        let p = position_of(s, e.key);
        assert(key_lt(s[p].key, e.key));
        lemma_key_lt_irreflexive(e.key);
    }
    assert forall|k: Seq<char>| has_key(t, k) == (k == e.key || has_key(s, k)) by {
        if has_key(t, k) {
            let p = position_of(t, k);
            if p < s.len() {
                assert(s[p].key == k);
            }
        }
        if has_key(s, k) {
            let p = position_of(s, k);
            assert(t[p].key == k);
        }
        if k == e.key {
            assert(t[s.len() as int].key == k);
        }
    }
    assert forall|k: Seq<char>| has_key(t, k) implies run_map(t)[k] == run_map(s).insert(
        e.key,
        e.value,
    )[k] by {
        let p = position_of(t, k);
        lemma_run_map_at(t, p);
        if p < s.len() {
            assert(s[p].key == k);
            lemma_run_map_at(s, p);
        }
    }
    assert(run_map(t) =~= run_map(s).insert(e.key, e.value));
}

/// The empty run denotes the empty map.
pub proof fn lemma_run_map_empty()
    ensures
        run_map(Seq::<Entry>::empty()) == Map::<Seq<char>, Option<Seq<char>>>::empty(),
        ascending(Seq::<Entry>::empty()),
{
    assert(run_map(Seq::<Entry>::empty()) =~= Map::<Seq<char>, Option<Seq<char>>>::empty());
}

/// An ascending run denotes a map with as many keys as the run has entries.
pub proof fn lemma_run_map_len(s: Seq<Entry>)
    requires
        ascending(s),
    ensures
        run_map(s).dom().finite(),
        run_map(s).dom().len() == s.len(),
    decreases s.len(),
{
    if s.len() == 0 {
        assert(run_map(s).dom() =~= Set::<Seq<char>>::empty());
    } else {
        let n = s.len() - 1;
        lemma_run_map_take(s, n);
        assert(s.take(n + 1) =~= s);
        lemma_run_map_len(s.take(n));
        assert(run_map(s).dom() =~= run_map(s.take(n)).dom().insert(s[n].key));
    }
}

} // verus!
