//! The write-ahead log: framed log entries in the order in which they were made.

use vstd::prelude::*;
use vstd::slice::slice_subrange;
use crate::engine::codec::{
    can_store, dec_log, dec_log_entries, dec_log_entry, decode_log_entry, enc_log_entry,
    encode_log_entry, frame, frame_at, lemma_encoded_len, lemma_log_entry_round_trip,
    lemma_split_frames_append, lemma_split_frames_end, next_frame, put_frame, read_u32_le,
    split_frames, storable,
};
use crate::types::{DbError, DbResult, Entry, WALEntry};

verus! {

/// The models of a sequence of log entries.
pub open spec fn log_entries_of(entries: Seq<WALEntry>) -> Seq<Entry> {
    Seq::new(entries.len(), |i: int| entries[i]@)
}

/// The log of one table of mutations, held as the bytes of its file.
#[derive(Debug)]
pub struct WAL {
    file_path: String,
    log: Vec<u8>,
}

impl View for WAL {
    type V = Seq<u8>;

    /// The bytes of the log file.
    closed spec fn view(&self) -> Seq<u8> {
        self.log@
    }
}

/// Cutting a log behind its last complete frame leaves its frames as they were.
pub proof fn lemma_split_frames_take(b: Seq<u8>, at: int)
    requires
        0 <= at <= split_frames(b, 0).1,
        split_frames(b, at).1 == split_frames(b, 0).1,
    ensures
        split_frames(b.take(split_frames(b, 0).1), at) == split_frames(b, at),
    decreases b.len() - at,
{
    let end = split_frames(b, 0).1;
    lemma_split_frames_end(b, 0);
    let c = b.take(end);
    if frame_at(b, at) {
        let n = read_u32_le(b, at);
        lemma_split_frames_end(b, at + 4 + n);
        lemma_split_frames_take(b, at + 4 + n);
        assert(read_u32_le(c, at) == n);
        assert(frame_at(c, at));
        assert(c.subrange(at + 4, at + 4 + n) =~= b.subrange(at + 4, at + 4 + n));
    } else {
        assert(at == end);
        assert(!frame_at(c, at));
    }
}

impl WAL {
    /// The log consists of complete frames and nothing else.
    pub closed spec fn wf(&self) -> bool {
        split_frames(self.log@, 0).1 == self.log@.len()
    }

    /// The entries of the log, if every frame holds one.
    pub open spec fn entries(&self) -> Option<Seq<Entry>> {
        dec_log(self@)
    }

    pub closed spec fn spec_file_path(&self) -> Seq<char> {
        self.file_path@
    }

    /// Opens the log over the bytes found in its file. Bytes behind the last
    /// complete frame are dropped: they are what a write that was cut short
    /// left behind.
    pub fn new(file_path: String, bytes: Vec<u8>) -> (r: DbResult<Self>)
        ensures
            match r {
                Ok(wal) => wal.wf() && wal@ == bytes@.take(split_frames(bytes@, 0).1)
                    && wal.entries() == dec_log(bytes@) && wal.spec_file_path() == file_path@,
                Err(_) => false,
            },
    {
        let mut at: usize = 0;
        loop
            invariant
                at <= bytes@.len(),
                split_frames(bytes@, 0).1 == split_frames(bytes@, at as int).1,
            ensures
                at == split_frames(bytes@, 0).1,
            decreases bytes@.len() - at,
        {
            match next_frame(bytes.as_slice(), at) {
                Some((_, end)) => {
                    at = end;
                },
                None => {
                    break;
                },
            }
        }
        let mut log = bytes;
        log.truncate(at);
        proof {
            lemma_split_frames_end(bytes@, 0);
            lemma_split_frames_take(bytes@, 0);
            assert(log@ =~= bytes@.take(at as int));
        }
        Ok(WAL { file_path, log })
    }

    /// Appends one entry. An entry too large for a frame is refused and the
    /// log stays as it was.
    pub fn append(&mut self, entry: &WALEntry) -> (r: DbResult<()>)
        requires
            old(self).wf(),
        ensures
            final(self).wf(),
            final(self).spec_file_path() == old(self).spec_file_path(),
            storable(entry@) ==> r is Ok && final(self)@ == old(self)@ + frame(
                enc_log_entry(entry@),
            ) && final(self).entries() == match old(self).entries() {
                Some(es) => Some(es.push(entry@)),
                None => None,
            },
            !storable(entry@) ==> (r matches Err(DbError::InvalidArgument(_))) && final(self)@
                == old(self)@,
    {
        let ok = match entry {
            WALEntry::Insert { key, value } => can_store(key.as_str(), Some(value.as_str())),
            WALEntry::Delete { key } => can_store(key.as_str(), None),
        };
        if !ok {
            return Err(DbError::InvalidArgument("entry too large for the log".to_string()));
        }
        proof {
            lemma_encoded_len(entry@);
        }
        let payload = encode_log_entry(entry);
        put_frame(&mut self.log, payload.as_slice());
        proof {
            let b = old(self).log@;
            let p = enc_log_entry(entry@);
            lemma_split_frames_append(b, 0, p);
            lemma_log_entry_round_trip(entry@);
            let ps = split_frames(b, 0).0;
            let qs = ps.push(p);
            assert(split_frames(self.log@, 0).0 == qs);
            if dec_log_entries(ps) is Some {
                assert forall|i: int| 0 <= i < qs.len() implies dec_log_entry(
                    #[trigger] qs[i],
                ) is Some by {
                    if i < ps.len() {
                        assert(qs[i] == ps[i]);
                    }
                }
                assert(dec_log_entries(qs).unwrap() =~= dec_log_entries(ps).unwrap().push(entry@));
            } else {
                let i = choose|i: int| 0 <= i < ps.len() && !(dec_log_entry(#[trigger] ps[i]) is Some);
                assert(qs[i] == ps[i]);
            }
        }
        Ok(())
    }

    /// The entries of the log in the order in which they were appended. A
    /// complete frame that holds no entry makes the log corrupt.
    pub fn read_all(&self) -> (r: DbResult<Vec<WALEntry>>)
        ensures
            match r {
                Ok(v) => self.entries() == Some(log_entries_of(v@)),
                Err(DbError::Corrupt(_)) => self.entries() is None,
                Err(_) => false,
            },
    {
        let mut out: Vec<WALEntry> = Vec::new();
        let mut at: usize = 0;
        let ghost all = split_frames(self.log@, 0).0;
        let ghost done: int = 0;
        loop
            invariant
                at <= self.log@.len(),
                all == split_frames(self.log@, 0).0,
                0 <= done <= all.len(),
                all =~= all.take(done) + split_frames(self.log@, at as int).0,
                out@.len() == done,
                forall|i: int| 0 <= i < done ==> dec_log_entry(#[trigger] all[i]) == Some(out@[i]@),
            ensures
                done == all.len(),
                out@.len() == done,
                forall|i: int| 0 <= i < done ==> dec_log_entry(#[trigger] all[i]) == Some(out@[i]@),
            decreases self.log@.len() - at,
        {
            match next_frame(self.log.as_slice(), at) {
                None => {
                    break;
                },
                Some((start, end)) => {
                    let payload = slice_subrange(self.log.as_slice(), start, end);
                    proof {
                        let rest = split_frames(self.log@, end as int).0;
                        assert(split_frames(self.log@, at as int).0 =~= seq![payload@] + rest);
                        assert(all[done] == payload@);
                        assert(all.take(done + 1) =~= all.take(done).push(payload@));
                    }
                    match decode_log_entry(payload) {
                        Some(entry) => {
                            out.push(entry);
                        },
                        None => {
                            return Err(
                                DbError::Corrupt("a log frame holds no entry".to_string()),
                            );
                        },
                    }
                    at = end;
                    proof {
                        done = done + 1;
                    }
                },
            }
        }
        proof {
            assert(dec_log_entries(all).unwrap() =~= log_entries_of(out@));
        }
        Ok(out)
    }

    /// Empties the log.
    pub fn truncate(&mut self) -> (r: DbResult<()>)
        ensures
            r is Ok,
            final(self).wf(),
            final(self)@ == Seq::<u8>::empty(),
            final(self).entries() == Some(Seq::<Entry>::empty()),
            final(self).spec_file_path() == old(self).spec_file_path(),
    {
        self.log.clear();
        proof {
            assert(dec_log_entries(split_frames(self.log@, 0).0).unwrap() =~= Seq::<Entry>::empty());
        }
        Ok(())
    }

    /// A log without entries has no bytes.
    pub proof fn lemma_no_entries(&self)
        requires
            self.wf(),
            self.entries() == Some(Seq::<Entry>::empty()),
        ensures
            self@ == Seq::<u8>::empty(),
    {
        let split = split_frames(self.log@, 0);
        assert(dec_log_entries(split.0).unwrap().len() == split.0.len());
        assert(split.0.len() == 0);
        if frame_at(self.log@, 0) {
            assert(split.0.len() > 0);
        }
        assert(self.log@ =~= Seq::<u8>::empty());
    }

    /// The bytes of the log file.
    pub fn bytes(&self) -> (r: &Vec<u8>)
        ensures
            r@ == self@,
    {
        &self.log
    }

    /// Where the log file lies.
    pub fn file_path(&self) -> (r: &str)
        ensures
            r@ == self.spec_file_path(),
    {
        self.file_path.as_str()
    }

    pub fn is_empty(&self) -> (r: bool)
        ensures
            r == (self@.len() == 0),
    {
        self.log.len() == 0
    }
}

} // verus!
