//! Loading the rows of delimited text into the tree.

use vstd::prelude::*;
use vstd::string::StringExecFns;
use crate::engine::lookup::Found;
use crate::engine::lsm::{replay, LSMTree};
use crate::engine::naming::append_decimal;
use crate::etl::csv_parser::{
    csv_rows, data_pairs, pairs_of, read_rows, rows_of, CSVParser, Row, RowModel,
};
use crate::memtable::MemTable;
use crate::model::{lemma_run_map_take, run_map, Layer};
use crate::types::{DbError, DbResult, Entry, Value};

verus! {

/// What went wrong with one row.
#[derive(Debug)]
pub struct ETLError {
    /// The line of the row, counted from 1; 0 where the line is not known.
    pub row_number: usize,
    pub error: String,
}

/// What a load brought.
#[derive(Debug)]
pub struct ETLResult {
    pub total_rows: usize,
    pub successful_inserts: usize,
    pub errors: Vec<ETLError>,
}

/// The writes that records ask for.
pub open spec fn writes_of(records: Seq<(String, Value)>) -> Seq<Entry> {
    Seq::new(records.len(), |i: int| Entry { key: records[i].0@, value: records[i].1@ })
}

/// The writes that pairs of key and payload ask for.
pub open spec fn pair_writes(pairs: Seq<(Seq<char>, Seq<char>)>) -> Seq<Entry> {
    Seq::new(pairs.len(), |i: int| Entry { key: pairs[i].0, value: Some(pairs[i].1) })
}

/// What the tree says of a key after a batch was written: the payload
/// that the batch holds for the key, if the tree accepts it; otherwise
/// what the tree said before.
pub open spec fn found_after_batch(start: Found, batch: Layer, k: Seq<char>) -> Found {
    if batch.contains_key(k) && batch[k] is Some && LSMTree::accepts(k, batch[k]) {
        Some(batch[k])
    } else {
        start
    }
}

/// What the tree says of a key after the writes went in, in batches of
/// `size`: within a batch the last write of a key counts.
pub open spec fn found_after(start: Found, writes: Seq<Entry>, size: nat, k: Seq<char>) -> Found
    decreases writes.len(),
{
    if writes.len() == 0 || size == 0 {
        start
    } else {
        let n = if size < writes.len() {
            size as int
        } else {
            writes.len() as int
        };
        found_after(found_after_batch(start, replay(writes.take(n)), k), writes.skip(n), size, k)
    }
}

/// The keys of a batch that are written: those whose payload the tree accepts.
pub open spec fn written_keys(batch: Layer) -> Set<Seq<char>> {
    batch.dom().filter(|k: Seq<char>| batch[k] is Some && LSMTree::accepts(k, batch[k]))
}

/// The keys of a batch that are refused: those whose payload the tree
/// does not accept.
pub open spec fn refused_keys(batch: Layer) -> Set<Seq<char>> {
    batch.dom().filter(|k: Seq<char>| batch[k] is Some && !LSMTree::accepts(k, batch[k]))
}

/// The number of keys that are written when the writes go in, in batches
/// of `size`: a key counts once for each batch that writes it.
pub open spec fn written_count(writes: Seq<Entry>, size: nat) -> nat
    decreases writes.len(),
{
    if writes.len() == 0 || size == 0 {
        0
    } else {
        let n = if size < writes.len() {
            size as int
        } else {
            writes.len() as int
        };
        written_keys(replay(writes.take(n))).len() + written_count(writes.skip(n), size)
    }
}

/// The number of keys that are refused when the writes go in, in batches
/// of `size`.
pub open spec fn refused_count(writes: Seq<Entry>, size: nat) -> nat
    decreases writes.len(),
{
    if writes.len() == 0 || size == 0 {
        0
    } else {
        let n = if size < writes.len() {
            size as int
        } else {
            writes.len() as int
        };
        refused_keys(replay(writes.take(n))).len() + refused_count(writes.skip(n), size)
    }
}

/// A new key adds one to the written keys of a batch if the tree accepts
/// its payload, one to the refused keys if it does not, and nothing if it
/// carries no payload.
pub proof fn lemma_count_new_key(m: Layer, k: Seq<char>, v: Option<Seq<char>>)
    requires
        m.dom().finite(),
        !m.contains_key(k),
    ensures
        m.insert(k, v).dom().finite(),
        written_keys(m).finite(),
        refused_keys(m).finite(),
        written_keys(m.insert(k, v)).finite(),
        refused_keys(m.insert(k, v)).finite(),
        written_keys(m.insert(k, v)).len() == written_keys(m).len() + if v is Some
            && LSMTree::accepts(k, v) {
            1nat
        } else {
            0nat
        },
        refused_keys(m.insert(k, v)).len() == refused_keys(m).len() + if v is Some
            && !LSMTree::accepts(k, v) {
            1nat
        } else {
            0nat
        },
{
    let m2 = m.insert(k, v);
    m.dom().lemma_len_filter(|x: Seq<char>| m[x] is Some && LSMTree::accepts(x, m[x]));
    m.dom().lemma_len_filter(|x: Seq<char>| m[x] is Some && !LSMTree::accepts(x, m[x]));
    if v is Some && LSMTree::accepts(k, v) {
        assert(written_keys(m2) =~= written_keys(m).insert(k));
        assert(refused_keys(m2) =~= refused_keys(m));
    } else if v is Some {
        assert(written_keys(m2) =~= written_keys(m));
        assert(refused_keys(m2) =~= refused_keys(m).insert(k));
    } else {
        assert(written_keys(m2) =~= written_keys(m));
        assert(refused_keys(m2) =~= refused_keys(m));
    }
}

/// The tree has taken the writes, in batches of `size`.
pub open spec fn loaded(pre: &LSMTree, post: &LSMTree, writes: Seq<Entry>, size: nat) -> bool {
    forall|k: Seq<char>| #[trigger] post.found(k) == found_after(pre.found(k), writes, size, k)
}

/// The key and the value of each row that can be read and has both
/// columns, in the order of the rows.
pub open spec fn good_pairs(rows: Seq<RowModel>, key_column: int, value_column: int) -> Seq<
    (Seq<char>, Seq<char>),
>
    decreases rows.len(),
{
    if rows.len() == 0 {
        Seq::empty()
    } else {
        let rest = good_pairs(rows.drop_last(), key_column, value_column);
        match rows.last() {
            Ok(fields) => if 0 <= key_column < fields.len() && 0 <= value_column < fields.len() {
                rest.push((fields[key_column], fields[value_column]))
            } else {
                rest
            },
            Err(_) => rest,
        }
    }
}

/// The places of the rows that cannot be read or lack a column, in order.
pub open spec fn bad_rows(rows: Seq<RowModel>, key_column: int, value_column: int) -> Seq<int>
    decreases rows.len(),
{
    if rows.len() == 0 {
        Seq::empty()
    } else {
        let rest = bad_rows(rows.drop_last(), key_column, value_column);
        match rows.last() {
            Ok(fields) => if 0 <= key_column < fields.len() && 0 <= value_column < fields.len() {
                rest
            } else {
                rest.push(rows.len() - 1)
            },
            Err(_) => rest.push(rows.len() - 1),
        }
    }
}

/// The line of the row at a place: rows are numbered from 1, the header
/// line included where there is one; a number that does not fit is capped.
pub open spec fn line_of(place: int, has_headers: bool) -> usize {
    let line = place + if has_headers {
        2int
    } else {
        1int
    };
    if line > usize::MAX {
        usize::MAX
    } else {
        line as usize
    }
}

/// The loader: it writes rows to the tree in batches.
#[derive(Debug, Clone, Copy)]
pub struct ETLLoader {
    batch_size: usize,
    parallel_threads: usize,
    recovery_mode: bool,
}

impl ETLLoader {
    pub closed spec fn spec_batch_size(&self) -> usize {
        self.batch_size
    }

    pub closed spec fn spec_threads(&self) -> usize {
        self.parallel_threads
    }

    pub closed spec fn spec_recovery_mode(&self) -> bool {
        self.recovery_mode
    }

    /// A loader with batches of 1000 rows.
    pub fn new() -> (r: Self)
        ensures
            r.spec_batch_size() == 1000,
            r.spec_threads() == 4,
            !r.spec_recovery_mode(),
    {
        Self { batch_size: 1000, parallel_threads: 4, recovery_mode: false }
    }

    pub fn with_config(batch_size: usize, parallel_threads: usize) -> (r: Self)
        ensures
            r.spec_batch_size() == batch_size,
            r.spec_threads() == parallel_threads,
            !r.spec_recovery_mode(),
    {
        Self { batch_size, parallel_threads, recovery_mode: false }
    }

    pub fn with_recovery_mode(self, recovery_mode: bool) -> (r: Self)
        ensures
            r.spec_batch_size() == self.spec_batch_size(),
            r.spec_threads() == self.spec_threads(),
            r.spec_recovery_mode() == recovery_mode,
    {
        Self {
            batch_size: self.batch_size,
            parallel_threads: self.parallel_threads,
            recovery_mode,
        }
    }

    pub fn batch_size(&self) -> (r: usize)
        ensures
            r == self.spec_batch_size(),
    {
        self.batch_size
    }

    pub fn parallel_threads(&self) -> (r: usize)
        ensures
            r == self.spec_threads(),
    {
        self.parallel_threads
    }

    pub fn recovery_mode(&self) -> (r: bool)
        ensures
            r == self.spec_recovery_mode(),
    {
        self.recovery_mode
    }

    /// Writes one batch to the tree: of several records with one key the
    /// last counts, and the keys are written in their order. Returns the
    /// number of keys written; a key that the tree refuses is passed over
    /// and noted in `errors`.
    fn insert_batch(
        records: &Vec<(String, Value)>,
        from: usize,
        to: usize,
        lsm_tree: &mut LSMTree,
        errors: &mut Vec<ETLError>,
    ) -> (r: usize)
        requires
            old(lsm_tree).wf(),
            from <= to <= records@.len(),
        ensures
            final(lsm_tree).wf(),
            LSMTree::keeps_order(old(lsm_tree), final(lsm_tree)),
            r <= to - from,
            r == written_keys(replay(writes_of(records@).subrange(from as int, to as int))).len(),
            final(errors)@.len() == old(errors)@.len() + refused_keys(
                replay(writes_of(records@).subrange(from as int, to as int)),
            ).len(),
            final(errors)@.len() + r <= old(errors)@.len() + (to - from),
            forall|x: int| 0 <= x < old(errors)@.len() ==> final(errors)@[x] == old(errors)@[x],
            forall|k: Seq<char>|
                #[trigger] final(lsm_tree).found(k) == found_after_batch(
                    old(lsm_tree).found(k),
                    replay(writes_of(records@).subrange(from as int, to as int)),
                    k,
                ),
    {
        let mut batch = MemTable::new();
        let ghost writes = writes_of(records@);
        let mut i: usize = from;
        proof {
            assert(writes.subrange(from as int, from as int) =~= Seq::<Entry>::empty());
        }
        while i < to
            invariant
                from <= i <= to,
                to <= records@.len(),
                writes == writes_of(records@),
                batch.wf(),
                batch.run().len() <= i - from,
                batch@ == replay(writes.subrange(from as int, i as int)),
            decreases to - i,
        {
            batch.put(records[i].0.clone(), records[i].1.clone());
            proof {
                let next = writes.subrange(from as int, i + 1);
                assert(next.drop_last() =~= writes.subrange(from as int, i as int));
                assert(next.last() == writes[i as int]);
            }
            i += 1;
        }
        let data = batch.data();
        let ghost run = batch.run();
        proof {
            batch.lemma_view();
            crate::model::lemma_run_map_empty();
            assert(run.take(0) =~= Seq::<Entry>::empty());
            assert(written_keys(run_map(run.take(0))) =~= Set::<Seq<char>>::empty());
            assert(refused_keys(run_map(run.take(0))) =~= Set::<Seq<char>>::empty());
        }
        let mut inserted: usize = 0;
        let mut j: usize = 0;
        while j < data.len()
            invariant
                j <= data@.len(),
                data@.len() <= to - from,
                run == crate::model::entries_of(data@),
                crate::model::ascending(run),
                lsm_tree.wf(),
                LSMTree::keeps_order(old(lsm_tree), lsm_tree),
                inserted <= j,
                run_map(run.take(j as int)).dom().finite(),
                inserted == written_keys(run_map(run.take(j as int))).len(),
                errors@.len() == old(errors)@.len() + refused_keys(run_map(run.take(j as int))).len(),
                errors@.len() + inserted <= old(errors)@.len() + j,
                forall|x: int| 0 <= x < old(errors)@.len() ==> errors@[x] == old(errors)@[x],
                forall|k: Seq<char>|
                    #[trigger] lsm_tree.found(k) == found_after_batch(
                        old(lsm_tree).found(k),
                        run_map(run.take(j as int)),
                        k,
                    ),
            decreases data.len() - j,
        {
            let ghost before = *lsm_tree;
            match &data[j].value {
                Value::Data(payload) => {
                    match lsm_tree.insert(data[j].key.clone(), payload.clone()) {
                        Ok(_) => {
                            inserted += 1;
                        },
                        Err(e) => {
                            let mut message = String::from_str("Failed to insert ");
                            message.append(data[j].key.as_str());
                            message.append(": ");
                            message.append(e.to_string().as_str());
                            errors.push(ETLError { row_number: 0, error: message });
                        },
                    }
                },
                Value::Tombstone => {},
            }
            proof {
                LSMTree::lemma_keeps_order_twice(old(lsm_tree), &before, lsm_tree);
                lemma_run_map_take(run, j as int);
                let m = run_map(run.take(j as int));
                let m2 = run_map(run.take(j + 1));
                let e = run[j as int];
                assert(e == data@[j as int]@);
                lemma_count_new_key(m, e.key, e.value);
                assert forall|k: Seq<char>|
                    #[trigger] lsm_tree.found(k) == found_after_batch(
                        old(lsm_tree).found(k),
                        m2,
                        k,
                    ) by {
                    assert(before.found(k) == found_after_batch(old(lsm_tree).found(k), m, k));
                    if k != e.key {
                        assert(m2.contains_key(k) == m.contains_key(k));
                        if m.contains_key(k) {
                            assert(m2[k] == m[k]);
                        }
                    }
                }
            }
            j += 1;
        }
        proof {
            assert(run.take(j as int) =~= run);
        }
        inserted
    }

    /// Writes records to the tree, batch by batch: within a batch the last
    /// record of a key counts, and a key that the tree refuses is passed
    /// over and noted in `errors`. Returns the number of keys written. A
    /// loader whose batches hold no rows cannot load.
    pub fn insert_records(
        &self,
        records: &Vec<(String, Value)>,
        lsm_tree: &mut LSMTree,
        errors: &mut Vec<ETLError>,
    ) -> (r: DbResult<usize>)
        requires
            old(lsm_tree).wf(),
        ensures
            final(lsm_tree).wf(),
            LSMTree::keeps_order(old(lsm_tree), final(lsm_tree)),
            final(errors)@.len() >= old(errors)@.len(),
            forall|x: int| 0 <= x < old(errors)@.len() ==> final(errors)@[x] == old(errors)@[x],
            match r {
                Ok(n) => self.spec_batch_size() > 0 && n <= records@.len() && loaded(
                    old(lsm_tree),
                    final(lsm_tree),
                    writes_of(records@),
                    self.spec_batch_size() as nat,
                ) && n == written_count(writes_of(records@), self.spec_batch_size() as nat)
                    && final(errors)@.len() == old(errors)@.len() + refused_count(
                    writes_of(records@),
                    self.spec_batch_size() as nat,
                ),
                Err(DbError::InvalidArgument(_)) => self.spec_batch_size() == 0 && LSMTree::same(
                    old(lsm_tree),
                    final(lsm_tree),
                ),
                Err(_) => false,
            },
    {
        if self.batch_size == 0 {
            return Err(DbError::InvalidArgument(String::from_str("a batch must hold a row")));
        }
        let total: usize = records.len();
        let ghost writes = writes_of(records@);
        let ghost size = self.batch_size as nat;
        let mut inserted: usize = 0;
        let mut from: usize = 0;
        proof {
            assert(writes.skip(0) =~= writes);
        }
        while from < total
            invariant
                from <= total,
                total == records@.len(),
                writes == writes_of(records@),
                size == self.spec_batch_size(),
                size > 0,
                lsm_tree.wf(),
                LSMTree::keeps_order(old(lsm_tree), lsm_tree),
                inserted <= from,
                written_count(writes, size) == inserted + written_count(
                    writes.skip(from as int),
                    size,
                ),
                old(errors)@.len() + refused_count(writes, size) == errors@.len() + refused_count(
                    writes.skip(from as int),
                    size,
                ),
                errors@.len() >= old(errors)@.len(),
                forall|x: int| 0 <= x < old(errors)@.len() ==> errors@[x] == old(errors)@[x],
                forall|k: Seq<char>|
                    found_after(old(lsm_tree).found(k), writes, size, k) == found_after(
                        #[trigger] lsm_tree.found(k),
                        writes.skip(from as int),
                        size,
                        k,
                    ),
            decreases total - from,
        {
            let to: usize = if self.batch_size > total - from {
                total
            } else {
                from + self.batch_size
            };
            let ghost before = *lsm_tree;
            let n = Self::insert_batch(records, from, to, lsm_tree, errors);
            proof {
                LSMTree::lemma_keeps_order_twice(old(lsm_tree), &before, lsm_tree);
                let rest = writes.skip(from as int);
                let step = to - from;
                assert(rest.take(step) =~= writes.subrange(from as int, to as int));
                assert(rest.skip(step) =~= writes.skip(to as int));
                assert forall|k: Seq<char>|
                    found_after(old(lsm_tree).found(k), writes, size, k) == found_after(
                        #[trigger] lsm_tree.found(k),
                        writes.skip(to as int),
                        size,
                        k,
                    ) by {
                    assert(found_after(old(lsm_tree).found(k), writes, size, k) == found_after(
                        before.found(k),
                        rest,
                        size,
                        k,
                    ));
                }
            }
            inserted = inserted + n;
            from = to;
        }
        proof {
            assert(writes.skip(from as int) =~= Seq::<Entry>::empty());
        }
        Ok(inserted)
    }

    /// Loads delimited text with a header line.
    pub fn load_csv(
        &self,
        data: &[u8],
        lsm_tree: &mut LSMTree,
        key_column: usize,
        value_column: usize,
    ) -> (r: DbResult<usize>)
        requires
            old(lsm_tree).wf(),
        ensures
            final(lsm_tree).wf(),
            LSMTree::keeps_order(old(lsm_tree), final(lsm_tree)),
            Self::loads(self, old(lsm_tree), final(lsm_tree), data@, key_column, value_column, true, r),
    {
        self.load_csv_with_options(data, lsm_tree, key_column, value_column, true)
    }

    /// What a load does. Where every row can be read and has both columns,
    /// the pairs of key and value go to the tree in batches, and the
    /// number of keys written is returned; a loader whose batches hold no
    /// rows refuses rows. Where a row cannot be read or lacks a column,
    /// the load is refused. A load that is refused leaves the tree as it was.
    pub open spec fn loads(
        loader: &ETLLoader,
        pre: &LSMTree,
        post: &LSMTree,
        data: Seq<u8>,
        key_column: usize,
        value_column: usize,
        has_headers: bool,
        r: DbResult<usize>,
    ) -> bool {
        let pairs = pairs_of(csv_rows(data, 44, has_headers), key_column as int, value_column as int);
        match r {
            Ok(n) => pairs is Some && n == written_count(
                pair_writes(pairs.unwrap()),
                loader.spec_batch_size() as nat,
            ) && n <= pairs.unwrap().len() && (pairs.unwrap().len() == 0
                || loader.spec_batch_size() > 0) && loaded(
                pre,
                post,
                pair_writes(pairs.unwrap()),
                loader.spec_batch_size() as nat,
            ),
            Err(DbError::InvalidOperation(_)) => pairs is None && LSMTree::same(pre, post),
            Err(DbError::InvalidArgument(_)) => pairs is Some && pairs.unwrap().len() > 0
                && loader.spec_batch_size() == 0 && LSMTree::same(pre, post),
            Err(_) => false,
        }
    }

    /// Loads delimited text: the rows are read, the key and the value of
    /// each are taken from the two columns, and the pairs are written to the
    /// tree. A row that cannot be read, or lacks a column, stops the load
    /// before anything is written.
    pub fn load_csv_with_options(
        &self,
        data: &[u8],
        lsm_tree: &mut LSMTree,
        key_column: usize,
        value_column: usize,
        has_headers: bool,
    ) -> (r: DbResult<usize>)
        requires
            old(lsm_tree).wf(),
        ensures
            final(lsm_tree).wf(),
            LSMTree::keeps_order(old(lsm_tree), final(lsm_tree)),
            Self::loads(
                self,
                old(lsm_tree),
                final(lsm_tree),
                data@,
                key_column,
                value_column,
                has_headers,
                r,
            ),
    {
        let parser = CSVParser::new(key_column, value_column).with_headers(has_headers);
        let records = match parser.parse_records(data) {
            Ok(r) => r,
            Err(e) => {
                return Err(e);
            },
        };
        proof {
            assert(writes_of(records@) =~= pair_writes(data_pairs(records@)));
        }
        if records.len() == 0 {
            return Ok(0);
        }
        let mut errors: Vec<ETLError> = Vec::new();
        self.insert_records(&records, lsm_tree, &mut errors)
    }

    /// The key and the value of one row.
    pub fn extract_key_value(record: &Vec<String>, key_column: usize, value_column: usize) -> (r:
        DbResult<(String, Value)>)
        ensures
            match r {
                Ok((key, value)) => key_column < record@.len() && value_column < record@.len()
                    && key@ == record@[key_column as int]@ && value@ == Some(
                    record@[value_column as int]@,
                ),
                Err(DbError::InvalidOperation(_)) => key_column >= record@.len() || value_column
                    >= record@.len(),
                Err(_) => false,
            },
    {
        if key_column >= record.len() {
            let mut message = String::from_str("Key column ");
            append_decimal(&mut message, key_column as u64);
            message.append(" not found in record");
            return Err(DbError::InvalidOperation(message));
        }
        if value_column >= record.len() {
            let mut message = String::from_str("Value column ");
            append_decimal(&mut message, value_column as u64);
            message.append(" not found in record");
            return Err(DbError::InvalidOperation(message));
        }
        Ok((record[key_column].clone(), Value::Data(record[value_column].clone())))
    }

    /// Sorts rows into records and errors. Rows are numbered from 1, the
    /// header line included where there is one.
    pub fn sort_rows(rows: &Vec<Row>, key_column: usize, value_column: usize, has_headers: bool) -> (r:
        (Vec<(String, Value)>, Vec<ETLError>))
        ensures
            r.0@.len() + r.1@.len() == rows@.len(),
            writes_of(r.0@) == pair_writes(
                good_pairs(rows_of(rows@), key_column as int, value_column as int),
            ),
            r.1@.len() == bad_rows(rows_of(rows@), key_column as int, value_column as int).len(),
            forall|i: int|
                0 <= i < r.1@.len() ==> (#[trigger] r.1@[i]).row_number == line_of(
                    bad_rows(rows_of(rows@), key_column as int, value_column as int)[i],
                    has_headers,
                ),
    {
        let mut records: Vec<(String, Value)> = Vec::new();
        let mut errors: Vec<ETLError> = Vec::new();
        let first: usize = if has_headers {
            2
        } else {
            1
        };
        let ghost all = rows_of(rows@);
        let ghost kc = key_column as int;
        let ghost vc = value_column as int;
        let mut i: usize = 0;
        proof {
            assert(all.take(0) =~= Seq::<RowModel>::empty());
            assert(writes_of(records@) =~= pair_writes(good_pairs(all.take(0), kc, vc)));
        }
        while i < rows.len()
            invariant
                i <= rows@.len(),
                first == if has_headers {
                    2usize
                } else {
                    1usize
                },
                all == rows_of(rows@),
                kc == key_column as int,
                vc == value_column as int,
                records@.len() + errors@.len() == i,
                writes_of(records@) == pair_writes(good_pairs(all.take(i as int), kc, vc)),
                errors@.len() == bad_rows(all.take(i as int), kc, vc).len(),
                forall|x: int|
                    0 <= x < errors@.len() ==> (#[trigger] errors@[x]).row_number == line_of(
                        bad_rows(all.take(i as int), kc, vc)[x],
                        has_headers,
                    ),
            decreases rows.len() - i,
        {
            let ghost so_far = writes_of(records@);
            let ghost noted = errors@;
            proof {
                assert(all.take(i + 1).drop_last() =~= all.take(i as int));
                assert(all.take(i + 1).last() == all[i as int]);
            }
            let row_number: usize = if i > usize::MAX - first {
                usize::MAX
            } else {
                i + first
            };
            match &rows[i] {
                Ok(fields) => match Self::extract_key_value(fields, key_column, value_column) {
                    Ok(pair) => {
                        records.push(pair);
                    },
                    Err(e) => {
                        let mut message = String::from_str("Failed to extract key/value: ");
                        message.append(e.to_string().as_str());
                        errors.push(ETLError { row_number, error: message });
                    },
                },
                Err(e) => {
                    let mut message = String::from_str("CSV parsing error: ");
                    message.append(e.as_str());
                    errors.push(ETLError { row_number, error: message });
                },
            }
            proof {
                let pairs = good_pairs(all.take(i + 1), kc, vc);
                if records@.len() > so_far.len() {
                    assert(writes_of(records@) =~= so_far.push(writes_of(records@).last()));
                    assert(writes_of(records@) =~= pair_writes(pairs));
                } else {
                    assert(writes_of(records@) =~= so_far);
                    assert(errors@ =~= noted.push(errors@.last()));
                }
            }
            i += 1;
        }
        proof {
            assert(all.take(i as int) =~= all);
        }
        (records, errors)
    }

    /// Loads delimited text and goes on where a row is bad: rows that
    /// cannot be read, or lack a column, are noted with their line; the
    /// others are written to the tree.
    pub fn load_csv_with_recovery(
        &self,
        data: &[u8],
        lsm_tree: &mut LSMTree,
        key_column: usize,
        value_column: usize,
        has_headers: bool,
    ) -> (r: DbResult<ETLResult>)
        requires
            old(lsm_tree).wf(),
        ensures
            final(lsm_tree).wf(),
            LSMTree::keeps_order(old(lsm_tree), final(lsm_tree)),
            ({
                let rows = csv_rows(data@, 44, has_headers);
                let pairs = good_pairs(rows, key_column as int, value_column as int);
                let bad = bad_rows(rows, key_column as int, value_column as int);
                match r {
                    Ok(result) => {
                        &&& result.total_rows == rows.len()
                        &&& result.successful_inserts <= pairs.len()
                        &&& result.successful_inserts == written_count(
                            pair_writes(pairs),
                            self.spec_batch_size() as nat,
                        )
                        &&& pairs.len() == 0 || self.spec_batch_size() > 0
                        &&& loaded(
                            old(lsm_tree),
                            final(lsm_tree),
                            pair_writes(pairs),
                            self.spec_batch_size() as nat,
                        )
                        &&& result.errors@.len() == bad.len() + refused_count(
                            pair_writes(pairs),
                            self.spec_batch_size() as nat,
                        )
                        &&& forall|i: int|
                            0 <= i < bad.len() ==> (#[trigger] result.errors@[i]).row_number
                                == line_of(bad[i], has_headers)
                    },
                    Err(DbError::InvalidArgument(_)) => self.spec_batch_size() == 0 && pairs.len()
                        > 0 && LSMTree::same(old(lsm_tree), final(lsm_tree)),
                    Err(_) => false,
                }
            }),
    {
        let rows = read_rows(data, 44, has_headers);
        let (records, mut errors) = Self::sort_rows(&rows, key_column, value_column, has_headers);
        let total_rows = rows.len();
        let ghost pairs = good_pairs(
            csv_rows(data@, 44, has_headers),
            key_column as int,
            value_column as int,
        );
        proof {
            assert(writes_of(records@).len() == records@.len());
            assert(pair_writes(pairs).len() == pairs.len());
        }
        if records.len() == 0 {
            proof {
                assert forall|k: Seq<char>| #[trigger]
                    lsm_tree.found(k) == found_after(
                        old(lsm_tree).found(k),
                        pair_writes(pairs),
                        self.spec_batch_size() as nat,
                        k,
                    ) by {}
            }
            return Ok(ETLResult { total_rows, successful_inserts: 0, errors });
        }
        match self.insert_records(&records, lsm_tree, &mut errors) {
            Ok(successful_inserts) => Ok(ETLResult { total_rows, successful_inserts, errors }),
            Err(e) => Err(e),
        }
    }
}

} // verus!
