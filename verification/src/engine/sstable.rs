//! Sorted string tables: immutable runs of records in strictly ascending key
//! order, each with its key range and a Bloom filter over its keys.

use vstd::prelude::*;
use vstd::slice::slice_subrange;
use vstd::string::StringSliceAdditionalSpecFns;
use vstd::utf8::encode_utf8;
use crate::engine::bloom::{lemma_insert_keeps, BloomFilter, BloomModel};
use crate::engine::codec::{
    can_store, dec_record, dec_records, dec_run, decode_record, enc_record, enc_run,
    encode_record, frames, lemma_encoded_len, next_frame, put_frame, split_frames, storable,
};
use crate::engine::naming::{parse_name, parse_name_bytes};
use crate::keys::{
    compare_keys, key_le, key_lt, lemma_key_lt_asymmetric, lemma_key_lt_irreflexive,
    lemma_key_lt_transitive, KeyOrder,
};
use crate::model::{
    ascending, clone_records, entries_of, first_key, has_key, in_range, last_key,
    lemma_keys_in_range, lemma_run_map_at, position_of, run_map, Layer,
};
use crate::types::{DbError, DbResult, Entry, Record, Value};

verus! {

/// The model of a table: where its file lies, its level, and its records.
pub struct TableModel {
    pub file_path: Seq<char>,
    pub level: nat,
    pub records: Seq<Entry>,
}

impl TableModel {
    /// The map that the table denotes.
    pub open spec fn map(self) -> Layer {
        run_map(self.records)
    }

    /// The smallest key, or the empty key for an empty table.
    pub open spec fn min_key(self) -> Seq<char> {
        first_key(self.records)
    }

    /// The largest key, or the empty key for an empty table.
    pub open spec fn max_key(self) -> Seq<char> {
        last_key(self.records)
    }

    /// The records ascend strictly by key and each can be stored.
    pub open spec fn valid(self) -> bool {
        ascending(self.records) && all_storable(self.records)
    }

    /// The key ranges of the two tables have a key in common.
    pub open spec fn overlaps(self, min: Seq<char>, max: Seq<char>) -> bool {
        key_le(min, self.max_key()) && key_le(self.min_key(), max)
    }

    /// What the table says of a key: a payload, a deletion, or nothing.
    pub open spec fn lookup(self, k: Seq<char>) -> Option<Option<Seq<char>>> {
        if self.map().contains_key(k) {
            Some(self.map()[k])
        } else {
            None
        }
    }
}

/// The level that the name of a table file spells; level 0 for a name that
/// spells none, or spells numbers too large for the machine.
pub open spec fn level_of_name(name: Seq<char>) -> nat {
    match parse_name_bytes(encode_utf8(name)) {
        Some((level, seq)) => if level <= usize::MAX && seq <= u64::MAX {
            level
        } else {
            0
        },
        None => 0,
    }
}

/// Every record of the run can be stored.
pub open spec fn all_storable(s: Seq<Entry>) -> bool {
    forall|i: int| 0 <= i < s.len() ==> storable(#[trigger] s[i])
}

/// The filter reports every key of the run.
pub open spec fn covers(f: BloomModel, s: Seq<Entry>) -> bool {
    forall|i: int| 0 <= i < s.len() ==> f.contains(encode_utf8(#[trigger] s[i].key))
}

/// A sorted string table.
#[derive(Debug)]
pub struct SSTable {
    file_path: String,
    record_count: usize,
    bloom_filter: BloomFilter,
    level: usize,
    min_key: String,
    max_key: String,
    records: Vec<Record>,
}

impl View for SSTable {
    type V = TableModel;

    closed spec fn view(&self) -> TableModel {
        TableModel {
            file_path: self.file_path@,
            level: self.level as nat,
            records: entries_of(self.records@),
        }
    }
}

impl Clone for SSTable {
    fn clone(&self) -> (r: Self)
        ensures
            r@ == self@,
            self.wf() ==> r.wf(),
    {
        SSTable {
            file_path: self.file_path.clone(),
            record_count: self.record_count,
            bloom_filter: self.bloom_filter.clone(),
            level: self.level,
            min_key: self.min_key.clone(),
            max_key: self.max_key.clone(),
            records: clone_records(&self.records),
        }
    }
}

/// In an ascending run, a key below the key at `i` and above all keys before `i` is absent.
pub proof fn lemma_absent_between(s: Seq<Entry>, i: int, k: Seq<char>)
    requires
        ascending(s),
        0 <= i <= s.len(),
        forall|j: int| 0 <= j < i ==> #[trigger] s[j].key != k,
        i < s.len() ==> key_lt(k, s[i].key),
    ensures
        !has_key(s, k),
{
    if has_key(s, k) {
        let p = position_of(s, k);
        assert(p >= i);
        lemma_key_lt_irreflexive(k);
        if p > i {
            assert(key_lt(s[i].key, s[p].key));
            lemma_key_lt_asymmetric(k, s[i].key);
        }
    }
}

impl SSTable {
    /// The invariant: records ascend strictly and can be stored; the count,
    /// the key range and the filter agree with them.
    pub closed spec fn wf(&self) -> bool {
        &&& ascending(self@.records)
        &&& all_storable(self@.records)
        &&& self.record_count == self.records@.len()
        &&& self.min_key@ == self@.min_key()
        &&& self.max_key@ == self@.max_key()
        &&& covers(self.bloom_filter@, self@.records)
    }

    /// The model of the table's filter.
    pub closed spec fn filter(&self) -> BloomModel {
        self.bloom_filter@
    }

    pub proof fn lemma_wf(&self)
        requires
            self.wf(),
        ensures
            self@.valid(),
            covers(self.filter(), self@.records),
    {
    }

    /// Makes a table at `level` from records that form a storable run.
    pub fn from_run(file_path: String, records: Vec<Record>, level: usize) -> (r: Self)
        requires
            ascending(entries_of(records@)),
            all_storable(entries_of(records@)),
        ensures
            r.wf(),
            r@ == (TableModel {
                file_path: file_path@,
                level: level as nat,
                records: entries_of(records@),
            }),
    {
        Self::build(file_path, records, level)
    }

    /// The same table, registered at another level.
    pub fn with_level(self, level: usize) -> (r: Self)
        ensures
            r@ == (TableModel { level: level as nat, ..self@ }),
            r.filter() == self.filter(),
            self.wf() ==> r.wf(),
    {
        SSTable {
            file_path: self.file_path,
            record_count: self.record_count,
            bloom_filter: self.bloom_filter,
            level,
            min_key: self.min_key,
            max_key: self.max_key,
            records: self.records,
        }
    }

    /// Whether the records ascend strictly by key and each can be stored.
    fn check_run(data: &Vec<Record>) -> (r: bool)
        ensures
            r == (ascending(entries_of(data@)) && all_storable(entries_of(data@))),
    {
        let ghost run = entries_of(data@);
        let mut i: usize = 0;
        while i < data.len()
            invariant
                i <= data.len(),
                run == entries_of(data@),
                forall|a: int| 0 <= a < i ==> storable(#[trigger] run[a]),
                forall|a: int| 0 < a < i ==> key_lt(run[a - 1].key, #[trigger] run[a].key),
            decreases data.len() - i,
        {
            let ok = match &data[i].value {
                Value::Data(v) => can_store(data[i].key.as_str(), Some(v.as_str())),
                Value::Tombstone => can_store(data[i].key.as_str(), None),
            };
            if !ok {
                assert(!storable(run[i as int]));
                return false;
            }
            if i > 0 {
                match compare_keys(data[i - 1].key.as_str(), data[i].key.as_str()) {
                    KeyOrder::Less => {},
                    _ => {
                        assert(!key_lt(run[i - 1].key, run[i as int].key));
                        return false;
                    },
                }
            }
            i += 1;
        }
        proof {
            lemma_adjacent_ascending(run);
        }
        true
    }

    /// Builds the table over records that are known to form a storable run.
    fn build(file_path: String, records: Vec<Record>, level: usize) -> (r: Self)
        requires
            ascending(entries_of(records@)),
            all_storable(entries_of(records@)),
        ensures
            r.wf(),
            r@ == (TableModel {
                file_path: file_path@,
                level: level as nat,
                records: entries_of(records@),
            }),
    {
        let ghost run = entries_of(records@);
        let n: usize = records.len();
        let mut bloom_filter = BloomFilter::new(n);
        let mut i: usize = 0;
        while i < n
            invariant
                i <= n,
                n == records.len(),
                run == entries_of(records@),
                forall|j: int| 0 <= j < i ==> bloom_filter@.contains(encode_utf8(#[trigger] run[j].key)),
            decreases n - i,
        {
            let ghost before = bloom_filter@;
            bloom_filter.insert(records[i].key.as_str());
            proof {
                let key = encode_utf8(run[i as int].key);
                assert forall|j: int| 0 <= j < i + 1 implies bloom_filter@.contains(
                    encode_utf8(#[trigger] run[j].key),
                ) by {
                    if j < i {
                        lemma_insert_keeps(before, key, encode_utf8(run[j].key));
                    }
                }
            }
            i += 1;
        }
        let min_key = if n == 0 {
            String::new()
        } else {
            records[0].key.clone()
        };
        let max_key = if n == 0 {
            String::new()
        } else {
            records[n - 1].key.clone()
        };
        SSTable { file_path, record_count: n, bloom_filter, level, min_key, max_key, records }
    }

    /// Makes a table at `level` from records in key order. Records that do
    /// not strictly ascend by key, or one too large to store, are refused.
    pub fn create(file_path: &str, data: &Vec<Record>, level: usize) -> (r: DbResult<Self>)
        ensures
            match r {
                Ok(t) => t.wf() && t@ == (TableModel {
                    file_path: file_path@,
                    level: level as nat,
                    records: entries_of(data@),
                }),
                Err(DbError::InvalidArgument(_)) => !(ascending(entries_of(data@)) && all_storable(
                    entries_of(data@),
                )),
                Err(_) => false,
            },
    {
        if !Self::check_run(data) {
            return Err(
                DbError::InvalidArgument("records must ascend by key and fit a frame".to_string()),
            );
        }
        Ok(Self::build(file_path.to_string(), clone_records(data), level))
    }

    /// The same as [`SSTable::create`].
    pub fn create_with_level(file_path: &str, data: &Vec<Record>, level: usize) -> (r: DbResult<
        Self,
    >)
        ensures
            match r {
                Ok(t) => t.wf() && t@ == (TableModel {
                    file_path: file_path@,
                    level: level as nat,
                    records: entries_of(data@),
                }),
                Err(DbError::InvalidArgument(_)) => !(ascending(entries_of(data@)) && all_storable(
                    entries_of(data@),
                )),
                Err(_) => false,
            },
    {
        Self::create(file_path, data, level)
    }

    /// Rebuilds a table at `level` from the bytes of its file. Bytes that are
    /// not a sequence of framed records in strictly ascending key order are
    /// corrupt.
    pub fn open_at_level(file_path: &str, bytes: &[u8], level: usize) -> (r: DbResult<Self>)
        ensures
            match r {
                Ok(t) => t.wf() && dec_run(bytes@) == Some(t@.records) && t@.file_path
                    == file_path@ && t@.level == level,
                Err(DbError::Corrupt(_)) => match dec_run(bytes@) {
                    Some(run) => !ascending(run),
                    None => true,
                },
                Err(_) => false,
            },
    {
        let mut records: Vec<Record> = Vec::new();
        let mut at: usize = 0;
        let ghost all = split_frames(bytes@, 0).0;
        let ghost done: int = 0;
        loop
            invariant
                at <= bytes@.len(),
                all == split_frames(bytes@, 0).0,
                split_frames(bytes@, 0).1 == split_frames(bytes@, at as int).1,
                0 <= done <= all.len(),
                all =~= all.take(done) + split_frames(bytes@, at as int).0,
                records@.len() == done,
                forall|i: int| 0 <= i < done ==> dec_record(#[trigger] all[i]) == Some(records@[i]@),
                forall|i: int| 0 <= i < done ==> (#[trigger] all[i]).len() <= u32::MAX,
            ensures
                done == all.len(),
                at == split_frames(bytes@, 0).1,
                at <= bytes@.len(),
                records@.len() == done,
                forall|i: int| 0 <= i < done ==> dec_record(#[trigger] all[i]) == Some(records@[i]@),
                forall|i: int| 0 <= i < done ==> (#[trigger] all[i]).len() <= u32::MAX,
            decreases bytes@.len() - at,
        {
            match next_frame(bytes, at) {
                None => {
                    break;
                },
                Some((start, end)) => {
                    let payload = slice_subrange(bytes, start, end);
                    proof {
                        let rest = split_frames(bytes@, end as int).0;
                        assert(split_frames(bytes@, at as int).0 =~= seq![payload@] + rest);
                        assert(all[done] == payload@);
                        assert(all.take(done + 1) =~= all.take(done).push(payload@));
                    }
                    match decode_record(payload) {
                        Some(record) => {
                            records.push(record);
                        },
                        None => {
                            return Err(
                                DbError::Corrupt("a table frame holds no record".to_string()),
                            );
                        },
                    }
                    at = end;
                    proof {
                        done = done + 1;
                    }
                },
            }
        }
        if at != bytes.len() {
            return Err(DbError::Corrupt("a table file ends within a frame".to_string()));
        }
        proof {
            assert(dec_records(all).unwrap() =~= entries_of(records@));
            assert forall|i: int| 0 <= i < records@.len() implies storable(
                #[trigger] entries_of(records@)[i],
            ) by {
                lemma_decoded_storable(all[i]);
            }
        }
        if !Self::check_run(&records) {
            return Err(DbError::Corrupt("the records of a table do not ascend".to_string()));
        }
        Ok(Self::build(file_path.to_string(), records, level))
    }

    /// Rebuilds a table from the bytes of its file, at the level that its
    /// name spells: the level named in `sstable_L<level>_<seq>.sst`, and
    /// level 0 for every other name.
    pub fn open(file_path: &str, bytes: &[u8]) -> (r: DbResult<Self>)
        ensures
            match r {
                Ok(t) => t.wf() && dec_run(bytes@) == Some(t@.records) && t@.file_path
                    == file_path@ && t@.level == level_of_name(file_path@),
                Err(DbError::Corrupt(_)) => match dec_run(bytes@) {
                    Some(run) => !ascending(run),
                    None => true,
                },
                Err(_) => false,
            },
    {
        let level = match parse_name(file_path) {
            Some((level, _)) => level,
            None => 0,
        };
        Self::open_at_level(file_path, bytes, level)
    }

    /// The bytes of the table's file: each record in its frame, in key order.
    pub fn to_bytes(&self) -> (r: Vec<u8>)
        requires
            self.wf(),
        ensures
            r@ == enc_run(self@.records),
    {
        let mut out: Vec<u8> = Vec::new();
        let ghost run = self@.records;
        let ghost ps = Seq::new(run.len(), |i: int| enc_record(run[i]));
        let mut i: usize = 0;
        while i < self.records.len()
            invariant
                self.wf(),
                i <= self.records.len(),
                run == self@.records,
                ps == Seq::new(run.len(), |i: int| enc_record(run[i])),
                out@ == frames(ps.take(i as int)),
            decreases self.records.len() - i,
        {
            proof {
                lemma_encoded_len(run[i as int]);
            }
            let payload = encode_record(&self.records[i]);
            put_frame(&mut out, payload.as_slice());
            proof {
                assert(ps.take(i + 1).drop_last() =~= ps.take(i as int));
                assert(ps.take(i + 1).last() == enc_record(run[i as int]));
            }
            i += 1;
        }
        proof {
            assert(ps.take(i as int) =~= ps);
        }
        out
    }

    /// What the table holds for `key`: a value, a tombstone, or nothing. The
    /// filter and the key range are asked first; the records are scanned in
    /// order up to the first key that is not below `key`.
    pub fn lookup(&self, key: &str) -> (r: Option<&Value>)
        requires
            self.wf(),
        ensures
            match r {
                Some(v) => self@.lookup(key@) == Some(v@),
                None => self@.lookup(key@) is None,
            },
    {
        let ghost run = self@.records;
        if !self.bloom_filter.contains(key) {
            proof {
                if has_key(run, key@) {
                    let p = position_of(run, key@);
                    assert(self.bloom_filter@.contains(encode_utf8(run[p].key)));
                }
            }
            return None;
        }
        if !self.key_in_range(key) {
            proof {
                if has_key(run, key@) {
                    lemma_keys_in_range(run, key@);
                }
            }
            return None;
        }
        let mut i: usize = 0;
        while i < self.records.len()
            invariant
                self.wf(),
                run == self@.records,
                i <= self.records.len(),
                forall|j: int| 0 <= j < i ==> #[trigger] run[j].key != key@,
            decreases self.records.len() - i,
        {
            match compare_keys(self.records[i].key.as_str(), key) {
                KeyOrder::Equal => {
                    proof {
                        lemma_run_map_at(run, i as int);
                    }
                    return Some(&self.records[i].value);
                },
                KeyOrder::Greater => {
                    proof {
                        lemma_absent_between(run, i as int, key@);
                    }
                    return None;
                },
                KeyOrder::Less => {
                    proof {
                        lemma_key_lt_asymmetric(run[i as int].key, key@);
                    }
                },
            }
            i += 1;
        }
        proof {
            lemma_absent_between(run, i as int, key@);
        }
        None
    }

    /// Whether `key` lies within the table's key range.
    fn key_in_range(&self, key: &str) -> (r: bool)
        requires
            self.wf(),
        ensures
            r == in_range(self@.min_key(), self@.max_key(), key@),
    {
        let low = compare_keys(self.min_key.as_str(), key);
        let high = compare_keys(key, self.max_key.as_str());
        proof {
            lemma_key_lt_irreflexive(key@);
            if low == KeyOrder::Greater {
                lemma_key_lt_asymmetric(key@, self.min_key@);
            }
            if high == KeyOrder::Greater {
                lemma_key_lt_asymmetric(self.max_key@, key@);
            }
        }
        low != KeyOrder::Greater && high != KeyOrder::Greater
    }

    /// The payload stored under `key`; `None` for a key that is absent or deleted.
    pub fn get(&self, key: &str) -> (r: DbResult<Option<String>>)
        requires
            self.wf(),
        ensures
            match r {
                Ok(Some(s)) => self@.lookup(key@) == Some(Some(s@)),
                Ok(None) => self@.lookup(key@) is None || self@.lookup(key@) == Some(
                    None::<Seq<char>>,
                ),
                Err(_) => false,
            },
    {
        match self.lookup(key) {
            Some(Value::Data(s)) => Ok(Some(s.clone())),
            _ => Ok(None),
        }
    }

    /// Whether the filter admits that `key` may be in the table. It admits
    /// every key that is.
    pub fn might_contain(&self, key: &str) -> (r: bool)
        requires
            self.wf(),
        ensures
            r == self.filter().contains(encode_utf8(key@)),
            self@.map().contains_key(key@) ==> r,
    {
        proof {
            if has_key(self@.records, key@) {
                let p = position_of(self@.records, key@);
                assert(self.bloom_filter@.contains(encode_utf8(self@.records[p].key)));
            }
        }
        self.bloom_filter.contains(key)
    }

    /// All records in key order.
    pub fn scan(&self) -> (r: DbResult<Vec<Record>>)
        ensures
            match r {
                Ok(v) => entries_of(v@) == self@.records,
                Err(_) => false,
            },
    {
        Ok(clone_records(&self.records))
    }

    /// All records in key order.
    pub fn load_records(&self) -> (r: DbResult<Vec<Record>>)
        ensures
            match r {
                Ok(v) => entries_of(v@) == self@.records,
                Err(_) => false,
            },
    {
        self.scan()
    }

    /// The records in key order, borrowed.
    pub fn records(&self) -> (r: &Vec<Record>)
        ensures
            entries_of(r@) == self@.records,
    {
        &self.records
    }

    pub fn len(&self) -> (r: usize)
        requires
            self.wf(),
        ensures
            r == self@.records.len(),
    {
        self.record_count
    }

    pub fn is_empty(&self) -> (r: bool)
        requires
            self.wf(),
        ensures
            r == (self@.records.len() == 0),
    {
        self.record_count == 0
    }

    pub fn file_path(&self) -> (r: &str)
        ensures
            r@ == self@.file_path,
    {
        self.file_path.as_str()
    }

    pub fn level(&self) -> (r: usize)
        ensures
            r == self@.level,
    {
        self.level
    }

    pub fn min_key(&self) -> (r: &str)
        requires
            self.wf(),
        ensures
            r@ == self@.min_key(),
    {
        self.min_key.as_str()
    }

    pub fn max_key(&self) -> (r: &str)
        requires
            self.wf(),
        ensures
            r@ == self@.max_key(),
    {
        self.max_key.as_str()
    }

    /// The table's filter.
    pub fn bloom_filter(&self) -> (r: &BloomFilter)
        ensures
            r@ == self.filter(),
    {
        &self.bloom_filter
    }

    /// The number of bits of the table's filter.
    pub fn bloom_filter_len(&self) -> (r: usize)
        ensures
            r == self.filter().bits.len(),
    {
        self.bloom_filter.len()
    }
}

/// Keys that ascend from each record to the next ascend along the whole run.
pub proof fn lemma_adjacent_ascending(s: Seq<Entry>)
    requires
        forall|a: int| 0 < a < s.len() ==> key_lt(s[a - 1].key, #[trigger] s[a].key),
    ensures
        ascending(s),
{
    assert forall|i: int, j: int| 0 <= i < j < s.len() implies key_lt(
        #[trigger] s[i].key,
        #[trigger] s[j].key,
    ) by {
        lemma_adjacent_step(s, i, j);
    }
}

pub proof fn lemma_adjacent_step(s: Seq<Entry>, i: int, j: int)
    requires
        forall|a: int| 0 < a < s.len() ==> key_lt(s[a - 1].key, #[trigger] s[a].key),
        0 <= i < j < s.len(),
    ensures
        key_lt(s[i].key, s[j].key),
    decreases j - i,
{
    assert(key_lt(s[j - 1].key, s[j].key));
    if i < j - 1 {
        lemma_adjacent_step(s, i, j - 1);
        lemma_key_lt_transitive(s[i].key, s[j - 1].key, s[j].key);
    }
}

/// A record that was read from a frame can be stored again.
pub proof fn lemma_decoded_storable(p: Seq<u8>)
    requires
        dec_record(p) is Some,
        p.len() <= u32::MAX,
    ensures
        storable(dec_record(p).unwrap()),
{
    crate::engine::codec::lemma_decoded_len(p);
}

} // verus!
