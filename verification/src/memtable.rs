//! The mutable in-memory table: records kept in key order.

use vstd::prelude::*;
use vstd::string::*;
use crate::keys::{compare_keys, key_lt, lemma_key_lt_irreflexive, lemma_key_lt_transitive, KeyOrder};
use crate::model::{
    ascending, clone_records, entries_of, has_key, lemma_ascending_unique, lemma_run_map_at, position_of, run_map,
    Layer,
};
use crate::types::{DbError, DbResult, Entry, Record, Value};

verus! {

/// An ordered map from key to value, held as a vector of records in
/// strictly ascending key order.
#[derive(Debug)]
pub struct MemTable {
    entries: Vec<Record>,
}

impl View for MemTable {
    type V = Layer;

    closed spec fn view(&self) -> Layer {
        run_map(entries_of(self.entries@))
    }
}

impl MemTable {
    /// The records in key order.
    pub closed spec fn run(&self) -> Seq<Entry> {
        entries_of(self.entries@)
    }

    /// The invariant: keys strictly ascend.
    pub closed spec fn wf(&self) -> bool {
        ascending(entries_of(self.entries@))
    }

    pub proof fn lemma_view(&self)
        ensures
            self@ == run_map(self.run()),
            self.wf() == ascending(self.run()),
    {
    }

    /// A well-formed table holds as many records as its map has keys.
    pub proof fn lemma_len(&self)
        requires
            self.wf(),
        ensures
            self@.dom().finite(),
            self.run().len() == self@.dom().len(),
    {
        crate::model::lemma_run_map_len(self.run());
    }

    pub fn new() -> (r: Self)
        ensures
            r.wf(),
            r@ == Map::<Seq<char>, Option<Seq<char>>>::empty(),
            r.run().len() == 0,
    {
        let r = MemTable { entries: Vec::new() };
        proof {
            assert(r@ =~= Map::<Seq<char>, Option<Seq<char>>>::empty());
        }
        r
    }

    /// Binary search: the position of `key`, or the position at which it would be inserted.
    fn find(&self, key: &str) -> (r: (usize, bool))
        requires
            self.wf(),
        ensures
            r.0 <= self.entries.len(),
            r.1 ==> r.0 < self.entries.len() && self.entries[r.0 as int].key@ == key@,
            !r.1 ==> !has_key(self.run(), key@),
            forall|i: int| 0 <= i < r.0 ==> key_lt(#[trigger] self.entries[i].key@, key@),
            forall|i: int|
                r.0 + (if r.1 { 1int } else { 0int }) <= i < self.entries.len() ==> key_lt(
                    key@,
                    #[trigger] self.entries[i].key@,
                ),
    {
        let mut lo: usize = 0;
        let mut hi: usize = self.entries.len();
        let ghost run = self.run();
        while lo < hi
            invariant
                self.wf(),
                run == self.run(),
                lo <= hi <= self.entries.len(),
                forall|i: int| 0 <= i < lo ==> key_lt(#[trigger] self.entries[i].key@, key@),
                forall|i: int|
                    hi <= i < self.entries.len() ==> key_lt(key@, #[trigger] self.entries[i].key@),
            decreases hi - lo,
        {
            let mid: usize = lo + (hi - lo) / 2;
            match compare_keys(self.entries[mid].key.as_str(), key) {
                KeyOrder::Equal => {
                    proof {
                        assert forall|i: int| 0 <= i < mid implies key_lt(
                            #[trigger] self.entries[i].key@,
                            key@,
                        ) by {
                            assert(key_lt(run[i].key, run[mid as int].key));
                        }
                        assert forall|i: int| mid + 1 <= i < self.entries.len() implies key_lt(
                            key@,
                            #[trigger] self.entries[i].key@,
                        ) by {
                            assert(key_lt(run[mid as int].key, run[i].key));
                        }
                    }
                    return (mid, true);
                },
                KeyOrder::Less => {
                    proof {
                        assert forall|i: int| 0 <= i < mid + 1 implies key_lt(
                            #[trigger] self.entries[i].key@,
                            key@,
                        ) by {
                            if i < mid {
                                assert(key_lt(run[i].key, run[mid as int].key));
                                lemma_key_lt_transitive(run[i].key, run[mid as int].key, key@);
                            }
                        }
                    }
                    lo = mid + 1;
                },
                KeyOrder::Greater => {
                    proof {
                        assert forall|i: int| mid <= i < self.entries.len() implies key_lt(
                            key@,
                            #[trigger] self.entries[i].key@,
                        ) by {
                            if mid < i {
                                assert(key_lt(run[mid as int].key, run[i].key));
                                lemma_key_lt_transitive(key@, run[mid as int].key, run[i].key);
                            }
                        }
                    }
                    hi = mid;
                },
            }
        }
        proof {
            if has_key(run, key@) {
                let i = position_of(run, key@);
                lemma_key_lt_irreflexive(key@);
                if i < lo {
                    assert(key_lt(self.entries[i].key@, key@));
                } else {
                    assert(key_lt(key@, self.entries[i].key@));
                }
            }
        }
        (lo, false)
    }

    /// Stores `value` under `key`, replacing whatever the key mapped to.
    pub fn put(&mut self, key: String, value: Value)
        requires
            old(self).wf(),
        ensures
            final(self).wf(),
            final(self)@ == old(self)@.insert(key@, value@),
            final(self).run().len() == old(self).run().len() + (if old(self)@.contains_key(key@) {
                0int
            } else {
                1int
            }),
    {
        let (idx, found) = self.find(key.as_str());
        let ghost old_run = self.run();
        let ghost k = key@;
        let ghost v = value@;
        if found {
            self.entries.set(idx, Record { key, value });
            proof {
                let new_run = self.run();
                assert(new_run =~= old_run.update(idx as int, Entry { key: k, value: v }));
                lemma_put_replace(old_run, idx as int, v);
            }
        } else {
            self.entries.insert(idx, Record { key, value });
            proof {
                let new_run = self.run();
                assert(new_run =~= old_run.insert(idx as int, Entry { key: k, value: v }));
                lemma_put_insert(old_run, idx as int, Entry { key: k, value: v });
            }
        }
    }

    pub fn insert(&mut self, key: String, value: String) -> (r: DbResult<()>)
        requires
            old(self).wf(),
        ensures
            r is Ok,
            final(self).wf(),
            final(self)@ == old(self)@.insert(key@, Some(value@)),
    {
        self.put(key, Value::Data(value));
        Ok(())
    }

    pub fn insert_tombstone(&mut self, key: String) -> (r: DbResult<()>)
        requires
            old(self).wf(),
        ensures
            r is Ok,
            final(self).wf(),
            final(self)@ == old(self)@.insert(key@, None),
    {
        self.put(key, Value::Tombstone);
        Ok(())
    }

    /// What the table holds for `key`: a value, a tombstone, or nothing.
    pub fn lookup(&self, key: &str) -> (r: Option<&Value>)
        requires
            self.wf(),
        ensures
            match r {
                Some(v) => self@.contains_key(key@) && self@[key@] == v@,
                None => !self@.contains_key(key@),
            },
    {
        let (idx, found) = self.find(key);
        if found {
            proof {
                lemma_run_map_at(self.run(), idx as int);
            }
            Some(&self.entries[idx].value)
        } else {
            None
        }
    }

    /// The payload stored under `key`; a missing or deleted key is `KeyNotFound`.
    pub fn get(&self, key: &str) -> (r: DbResult<&String>)
        requires
            self.wf(),
        ensures
            match r {
                Ok(s) => self@.contains_key(key@) && self@[key@] == Some(s@),
                Err(DbError::KeyNotFound(k)) => k@ == key@ && (!self@.contains_key(key@)
                    || self@[key@] is None),
                Err(_) => false,
            },
    {
        match self.lookup(key) {
            Some(Value::Data(s)) => Ok(s),
            _ => Err(DbError::KeyNotFound(key.to_string())),
        }
    }

    /// Deletes `key`: a key that holds data gets a tombstone and its
    /// payload is returned; a key that is not in the table gets a tombstone
    /// too, in case an older layer holds it, and the empty text is
    /// returned; a key that is deleted already is `KeyNotFound`.
    pub fn delete(&mut self, key: &str) -> (r: DbResult<String>)
        requires
            old(self).wf(),
        ensures
            final(self).wf(),
            match r {
                Ok(s) => final(self)@ == old(self)@.insert(key@, None) && s@ == (if old(
                    self,
                )@.contains_key(key@) {
                    old(self)@[key@].unwrap()
                } else {
                    Seq::empty()
                }) && !(old(self)@.contains_key(key@) && old(self)@[key@] is None),
                Err(DbError::KeyNotFound(k)) => k@ == key@ && old(self)@.contains_key(key@) && old(
                    self,
                )@[key@] is None && final(self)@ == old(self)@,
                Err(_) => false,
            },
    {
        let found = match self.lookup(key) {
            Some(Value::Data(s)) => Some(s.clone()),
            Some(Value::Tombstone) => {
                return Err(DbError::KeyNotFound(key.to_string()));
            },
            None => None,
        };
        self.put(key.to_string(), Value::Tombstone);
        match found {
            Some(s) => Ok(s),
            None => Ok(String::new()),
        }
    }

    /// A copy of the records in key order.
    pub fn snapshot(&self) -> (r: Vec<Record>)
        ensures
            entries_of(r@) == self.run(),
    {
        clone_records(&self.entries)
    }

    pub fn len(&self) -> (r: usize)
        ensures
            r == self.run().len(),
    {
        self.entries.len()
    }

    pub fn is_empty(&self) -> (r: bool)
        ensures
            r == (self.run().len() == 0),
    {
        self.entries.len() == 0
    }

    /// The records in key order.
    pub fn data(&self) -> (r: &Vec<Record>)
        ensures
            entries_of(r@) == self.run(),
    {
        &self.entries
    }
}

/// Replacing the value at the position of a key updates the map at that key.
pub proof fn lemma_put_replace(s: Seq<Entry>, i: int, v: Option<Seq<char>>)
    requires
        ascending(s),
        0 <= i < s.len(),
    ensures
        ascending(s.update(i, Entry { key: s[i].key, value: v })),
        run_map(s.update(i, Entry { key: s[i].key, value: v })) == run_map(s).insert(s[i].key, v),
{
    let t = s.update(i, Entry { key: s[i].key, value: v });
    assert forall|a: int, b: int| 0 <= a < b < t.len() implies key_lt(
        #[trigger] t[a].key,
        #[trigger] t[b].key,
    ) by {
        assert(key_lt(s[a].key, s[b].key));
    }
    assert forall|k: Seq<char>| has_key(t, k) == has_key(s, k) by {
        if has_key(t, k) {
            let j = position_of(t, k);
            assert(s[j].key == k);
        }
        if has_key(s, k) {
            let j = position_of(s, k);
            assert(t[j].key == k);
        }
    }
    assert forall|k: Seq<char>| has_key(t, k) implies run_map(t)[k] == run_map(s).insert(
        s[i].key,
        v,
    )[k] by {
        let j = position_of(t, k);
        lemma_run_map_at(t, j);
        if j != i {
            assert(s[j].key == k);
            lemma_run_map_at(s, j);
            if s[j].key == s[i].key {
                lemma_ascending_unique(s, i, j);
            }
        }
    }
    assert(run_map(t) =~= run_map(s).insert(s[i].key, v));
}

/// Inserting an entry at the position its key belongs to inserts it into the map.
pub proof fn lemma_put_insert(s: Seq<Entry>, i: int, e: Entry)
    requires
        ascending(s),
        0 <= i <= s.len(),
        forall|j: int| 0 <= j < i ==> key_lt(#[trigger] s[j].key, e.key),
        forall|j: int| i <= j < s.len() ==> key_lt(e.key, #[trigger] s[j].key),
    ensures
        ascending(s.insert(i, e)),
        !has_key(s, e.key),
        run_map(s.insert(i, e)) == run_map(s).insert(e.key, e.value),
{
    let t = s.insert(i, e);
    assert forall|a: int, b: int| 0 <= a < b < t.len() implies key_lt(
        #[trigger] t[a].key,
        #[trigger] t[b].key,
    ) by {
        if a < i && b > i {
            assert(key_lt(s[a].key, s[b - 1].key));
        } else if a < i && b < i {
            assert(key_lt(s[a].key, s[b].key));
        } else if a > i {
            assert(key_lt(s[a - 1].key, s[b - 1].key));
        } else if a == i {
            assert(key_lt(e.key, s[b - 1].key));
        } else {
            assert(key_lt(s[a].key, e.key));
        }
    }
    if has_key(s, e.key) {
        let j = position_of(s, e.key);
        lemma_key_lt_irreflexive(e.key);
    }
    assert forall|k: Seq<char>| has_key(t, k) == (k == e.key || has_key(s, k)) by {
        if has_key(t, k) {
            let j = position_of(t, k);
            if j < i {
                assert(s[j].key == k);
            } else if j > i {
                assert(s[j - 1].key == k);
            }
        }
        if has_key(s, k) {
            let j = position_of(s, k);
            if j < i {
                assert(t[j].key == k);
            } else {
                assert(t[j + 1].key == k);
            }
        }
        if k == e.key {
            assert(t[i].key == k);
        }
    }
    assert forall|k: Seq<char>| has_key(t, k) implies run_map(t)[k] == run_map(s).insert(
        e.key,
        e.value,
    )[k] by {
        let j = position_of(t, k);
        lemma_run_map_at(t, j);
        if j < i {
            assert(s[j].key == k);
            lemma_run_map_at(s, j);
        } else if j > i {
            assert(s[j - 1].key == k);
            lemma_run_map_at(s, j - 1);
        }
    }
    assert(run_map(t) =~= run_map(s).insert(e.key, e.value));
}

} // verus!
