//! The byte formats of the store.
//!
//! A string is a length (`u32`, little-endian) followed by its UTF-8 bytes. A
//! record is its key, a tag byte, and for data the payload. A log entry is a
//! tag byte, its key, and for an insertion the payload. On disk each of them
//! sits in a frame: a length (`u32`, little-endian) followed by that many bytes.

use vstd::prelude::*;
use vstd::slice::{slice_subrange, slice_to_vec};
use vstd::string::StringSliceAdditionalSpecFns;
use vstd::utf8::{
    decode_utf8, decode_utf8_encode_utf8, encode_utf8, encode_utf8_decode_utf8,
    encode_utf8_valid_utf8, valid_utf8,
};
use crate::types::{Entry, Record, Value, WALEntry};

verus! {

/// The tag of a record that carries data, and of a log entry that inserts.
pub const TAG_DATA: u8 = 0;

/// The tag of a tombstone, and of a log entry that deletes.
pub const TAG_TOMBSTONE: u8 = 1;

/// The four bytes of a `u32`, least significant first.
pub open spec fn u32_le(x: u32) -> Seq<u8> {
    seq![
        (x % 256) as u8,
        ((x / 256) % 256) as u8,
        ((x / 65536) % 256) as u8,
        (x / 16777216) as u8,
    ]
}

/// The number that four bytes at `at` spell, least significant first.
pub open spec fn read_u32_le(b: Seq<u8>, at: int) -> int {
    b[at] + 256 * b[at + 1] + 65536 * b[at + 2] + 16777216 * b[at + 3]
}

pub proof fn lemma_u32_round_trip(x: u32)
    ensures
        u32_le(x).len() == 4,
        read_u32_le(u32_le(x), 0) == x,
{
}

/// A string can be written if its encoding fits a `u32` length.
pub open spec fn fits(s: Seq<char>) -> bool {
    encode_utf8(s).len() <= u32::MAX
}

/// The bytes of a string field.
pub open spec fn enc_str(s: Seq<char>) -> Seq<u8> {
    u32_le(encode_utf8(s).len() as u32) + encode_utf8(s)
}

/// The string field that starts at `at`, and the offset behind it.
pub open spec fn parse_str(b: Seq<u8>, at: int) -> Option<(Seq<char>, int)> {
    if 0 <= at && at + 4 <= b.len() {
        let n = read_u32_le(b, at);
        if at + 4 + n <= b.len() && valid_utf8(b.subrange(at + 4, at + 4 + n)) {
            Some((decode_utf8(b.subrange(at + 4, at + 4 + n)), at + 4 + n))
        } else {
            None
        }
    } else {
        None
    }
}

/// An entry can be written if its key and payload can.
pub open spec fn encodable(e: Entry) -> bool {
    fits(e.key) && match e.value {
        Some(v) => fits(v),
        None => true,
    }
}

/// The bytes of a record: key, tag, payload.
pub open spec fn enc_record(e: Entry) -> Seq<u8> {
    match e.value {
        Some(v) => enc_str(e.key) + seq![TAG_DATA] + enc_str(v),
        None => enc_str(e.key) + seq![TAG_TOMBSTONE],
    }
}

/// The record that the bytes spell, if they spell one and nothing else.
pub open spec fn dec_record(b: Seq<u8>) -> Option<Entry> {
    match parse_str(b, 0) {
        Some((key, p)) => {
            if p < b.len() && b[p] == TAG_DATA {
                match parse_str(b, p + 1) {
                    Some((v, q)) => if q == b.len() {
                        Some(Entry { key, value: Some(v) })
                    } else {
                        None
                    },
                    None => None,
                }
            } else if p + 1 == b.len() && b[p] == TAG_TOMBSTONE {
                Some(Entry { key, value: None })
            } else {
                None
            }
        },
        None => None,
    }
}

/// The bytes of a log entry: tag, key, payload.
pub open spec fn enc_log_entry(e: Entry) -> Seq<u8> {
    match e.value {
        Some(v) => seq![TAG_DATA] + enc_str(e.key) + enc_str(v),
        None => seq![TAG_TOMBSTONE] + enc_str(e.key),
    }
}

/// The log entry that the bytes spell, if they spell one and nothing else.
pub open spec fn dec_log_entry(b: Seq<u8>) -> Option<Entry> {
    if b.len() == 0 {
        None
    } else {
        match parse_str(b, 1) {
            Some((key, p)) => {
                if b[0] == TAG_DATA {
                    match parse_str(b, p) {
                        Some((v, q)) => if q == b.len() {
                            Some(Entry { key, value: Some(v) })
                        } else {
                            None
                        },
                        None => None,
                    }
                } else if b[0] == TAG_TOMBSTONE && p == b.len() {
                    Some(Entry { key, value: None })
                } else {
                    None
                }
            },
            None => None,
        }
    }
}

/// A string field that was written at `at` is read back, whatever follows it.
pub proof fn lemma_parse_enc_str(pre: Seq<u8>, s: Seq<char>, post: Seq<u8>)
    requires
        fits(s),
    ensures
        parse_str(pre + enc_str(s) + post, pre.len() as int) == Some(
            (s, (pre.len() + enc_str(s).len()) as int),
        ),
        enc_str(s).len() == 4 + encode_utf8(s).len(),
{
    let b = pre + enc_str(s) + post;
    let at = pre.len() as int;
    let n = encode_utf8(s).len() as u32;
    lemma_u32_round_trip(n);
    assert(b[at] == u32_le(n)[0]);
    assert(b[at + 1] == u32_le(n)[1]);
    assert(b[at + 2] == u32_le(n)[2]);
    assert(b[at + 3] == u32_le(n)[3]);
    assert(read_u32_le(b, at) == n);
    assert(b.subrange(at + 4, at + 4 + n) =~= encode_utf8(s));
    encode_utf8_valid_utf8(s);
    encode_utf8_decode_utf8(s);
}

/// A record that was written is read back.
pub proof fn lemma_record_round_trip(e: Entry)
    requires
        encodable(e),
    ensures
        dec_record(enc_record(e)) == Some(e),
{
    let empty = Seq::<u8>::empty();
    match e.value {
        Some(v) => {
            lemma_parse_enc_str(empty, e.key, seq![TAG_DATA] + enc_str(v));
            assert(empty + enc_str(e.key) + (seq![TAG_DATA] + enc_str(v)) =~= enc_record(e));
            lemma_parse_enc_str(enc_str(e.key) + seq![TAG_DATA], v, empty);
            assert(enc_str(e.key) + seq![TAG_DATA] + enc_str(v) + empty =~= enc_record(e));
        },
        None => {
            lemma_parse_enc_str(empty, e.key, seq![TAG_TOMBSTONE]);
            assert(empty + enc_str(e.key) + seq![TAG_TOMBSTONE] =~= enc_record(e));
        },
    }
}

/// A log entry that was written is read back.
pub proof fn lemma_log_entry_round_trip(e: Entry)
    requires
        encodable(e),
    ensures
        dec_log_entry(enc_log_entry(e)) == Some(e),
{
    let empty = Seq::<u8>::empty();
    match e.value {
        Some(v) => {
            lemma_parse_enc_str(seq![TAG_DATA], e.key, enc_str(v));
            lemma_parse_enc_str(seq![TAG_DATA] + enc_str(e.key), v, empty);
            assert(seq![TAG_DATA] + enc_str(e.key) + enc_str(v) + empty =~= enc_log_entry(e));
        },
        None => {
            lemma_parse_enc_str(seq![TAG_TOMBSTONE], e.key, empty);
            assert(seq![TAG_TOMBSTONE] + enc_str(e.key) + empty =~= enc_log_entry(e));
        },
    }
}

/// `String::from_utf8`: the string whose encoding the bytes are, and `None`
/// exactly when the bytes are not valid UTF-8.
#[verifier::external_body]
pub(crate) fn string_from_utf8(bytes: Vec<u8>) -> (r: Option<String>)
    ensures
        match r {
            Some(s) => valid_utf8(bytes@) && s@ == decode_utf8(bytes@),
            None => !valid_utf8(bytes@),
        },
{
    match String::from_utf8(bytes) {
        Ok(s) => Some(s),
        Err(_) => None,
    }
}

/// Appends the four bytes of `x`.
pub fn put_u32(out: &mut Vec<u8>, x: u32)
    ensures
        final(out)@ == old(out)@ + u32_le(x),
{
    out.push((x % 256) as u8);
    out.push(((x / 256) % 256) as u8);
    out.push(((x / 65536) % 256) as u8);
    out.push((x / 16777216) as u8);
    proof {
        assert(out@ =~= old(out)@ + u32_le(x));
    }
}

/// Reads the `u32` at `at`, if four bytes are there.
pub fn get_u32(b: &[u8], at: usize) -> (r: Option<u32>)
    ensures
        match r {
            Some(x) => at + 4 <= b@.len() && x == read_u32_le(b@, at as int),
            None => at + 4 > b@.len(),
        },
{
    if b.len() < 4 || at > b.len() - 4 {
        return None;
    }
    let b0: u32 = b[at] as u32;
    let b1: u32 = b[at + 1] as u32;
    let b2: u32 = b[at + 2] as u32;
    let b3: u32 = b[at + 3] as u32;
    Some(b0 + 256 * b1 + 65536 * b2 + 16777216 * b3)
}

/// Appends a string field.
pub fn put_str(out: &mut Vec<u8>, s: &str)
    requires
        fits(s@),
    ensures
        final(out)@ == old(out)@ + enc_str(s@),
{
    let bytes = s.as_bytes();
    put_u32(out, bytes.len() as u32);
    out.extend_from_slice(bytes);
    proof {
        assert(out@ =~= old(out)@ + enc_str(s@));
    }
}

/// Reads the string field at `at`.
pub fn get_str(b: &[u8], at: usize) -> (r: Option<(String, usize)>)
    ensures
        match r {
            Some((s, next)) => parse_str(b@, at as int) == Some((s@, next as int)) && next
                <= b@.len(),
            None => parse_str(b@, at as int) is None,
        },
{
    match get_u32(b, at) {
        None => None,
        Some(n) => {
            let total: usize = b.len();
            let start: usize = at + 4;
            if n as usize > total - start {
                return None;
            }
            let end: usize = start + n as usize;
            let bytes = slice_to_vec(slice_subrange(b, start, end));
            match string_from_utf8(bytes) {
                Some(s) => Some((s, end)),
                None => None,
            }
        },
    }
}

/// The bytes of a record.
pub fn encode_record(record: &Record) -> (r: Vec<u8>)
    requires
        encodable(record@),
    ensures
        r@ == enc_record(record@),
{
    let mut out: Vec<u8> = Vec::new();
    put_str(&mut out, record.key.as_str());
    match &record.value {
        Value::Data(v) => {
            out.push(TAG_DATA);
            put_str(&mut out, v.as_str());
        },
        Value::Tombstone => {
            out.push(TAG_TOMBSTONE);
        },
    }
    proof {
        assert(out@ =~= enc_record(record@));
    }
    out
}

/// The record that the bytes spell.
pub fn decode_record(b: &[u8]) -> (r: Option<Record>)
    ensures
        match r {
            Some(record) => dec_record(b@) == Some(record@),
            None => dec_record(b@) is None,
        },
{
    match get_str(b, 0) {
        None => None,
        Some((key, p)) => {
            if p < b.len() && b[p] == TAG_DATA {
                match get_str(b, p + 1) {
                    Some((v, q)) => {
                        if q == b.len() {
                            Some(Record { key, value: Value::Data(v) })
                        } else {
                            None
                        }
                    },
                    None => None,
                }
            } else if p < b.len() && p + 1 == b.len() && b[p] == TAG_TOMBSTONE {
                Some(Record { key, value: Value::Tombstone })
            } else {
                None
            }
        },
    }
}

/// The bytes of a log entry.
pub fn encode_log_entry(entry: &WALEntry) -> (r: Vec<u8>)
    requires
        encodable(entry@),
    ensures
        r@ == enc_log_entry(entry@),
{
    let mut out: Vec<u8> = Vec::new();
    match entry {
        WALEntry::Insert { key, value } => {
            out.push(TAG_DATA);
            put_str(&mut out, key.as_str());
            put_str(&mut out, value.as_str());
        },
        WALEntry::Delete { key } => {
            out.push(TAG_TOMBSTONE);
            put_str(&mut out, key.as_str());
        },
    }
    proof {
        assert(out@ =~= enc_log_entry(entry@));
    }
    out
}

/// The log entry that the bytes spell.
pub fn decode_log_entry(b: &[u8]) -> (r: Option<WALEntry>)
    ensures
        match r {
            Some(entry) => dec_log_entry(b@) == Some(entry@),
            None => dec_log_entry(b@) is None,
        },
{
    if b.len() == 0 {
        return None;
    }
    match get_str(b, 1) {
        None => None,
        Some((key, p)) => {
            if b[0] == TAG_DATA {
                match get_str(b, p) {
                    Some((value, q)) => {
                        if q == b.len() {
                            Some(WALEntry::Insert { key, value })
                        } else {
                            None
                        }
                    },
                    None => None,
                }
            } else if b[0] == TAG_TOMBSTONE && p == b.len() {
                Some(WALEntry::Delete { key })
            } else {
                None
            }
        },
    }
}

/// A payload in its frame: its length, then its bytes.
pub open spec fn frame(p: Seq<u8>) -> Seq<u8> {
    u32_le(p.len() as u32) + p
}

/// Payloads in their frames, one after the other.
pub open spec fn frames(ps: Seq<Seq<u8>>) -> Seq<u8>
    decreases ps.len(),
{
    if ps.len() == 0 {
        Seq::empty()
    } else {
        frames(ps.drop_last()) + frame(ps.last())
    }
}

/// Whether a complete frame starts at `at`.
pub open spec fn frame_at(b: Seq<u8>, at: int) -> bool {
    0 <= at && at + 4 <= b.len() && at + 4 + read_u32_le(b, at) <= b.len()
}

/// The payloads of the complete frames from `at` on, and the offset at which
/// the last of them ends. What lies behind that offset is no complete frame.
pub open spec fn split_frames(b: Seq<u8>, at: int) -> (Seq<Seq<u8>>, int)
    decreases b.len() - at,
{
    if frame_at(b, at) {
        let n = read_u32_le(b, at);
        let rest = split_frames(b, at + 4 + n);
        (seq![b.subrange(at + 4, at + 4 + n)] + rest.0, rest.1)
    } else {
        (Seq::empty(), at)
    }
}

pub proof fn lemma_split_frames_end(b: Seq<u8>, at: int)
    requires
        0 <= at <= b.len(),
    ensures
        at <= split_frames(b, at).1 <= b.len(),
    decreases b.len() - at,
{
    if frame_at(b, at) {
        lemma_split_frames_end(b, at + 4 + read_u32_le(b, at));
    }
}

/// A frame appended behind complete frames is read as one more frame.
pub proof fn lemma_split_frames_append(b: Seq<u8>, at: int, p: Seq<u8>)
    requires
        0 <= at <= b.len(),
        split_frames(b, at).1 == b.len(),
        p.len() <= u32::MAX,
    ensures
        split_frames(b + frame(p), at) == (
            split_frames(b, at).0.push(p),
            (b + frame(p)).len() as int,
        ),
    decreases b.len() - at,
{
    let c = b + frame(p);
    if frame_at(b, at) {
        let n = read_u32_le(b, at);
        assert(read_u32_le(c, at) == n);
        lemma_split_frames_append(b, at + 4 + n, p);
        assert(c.subrange(at + 4, at + 4 + n) =~= b.subrange(at + 4, at + 4 + n));
        assert(frame_at(c, at));
        assert(split_frames(c, at).0 =~= split_frames(b, at).0.push(p));
        assert(split_frames(c, at).1 == c.len());
    } else {
        assert(at == b.len());
        lemma_u32_round_trip(p.len() as u32);
        assert(c[at] == u32_le(p.len() as u32)[0]);
        assert(c[at + 1] == u32_le(p.len() as u32)[1]);
        assert(c[at + 2] == u32_le(p.len() as u32)[2]);
        assert(c[at + 3] == u32_le(p.len() as u32)[3]);
        assert(read_u32_le(c, at) == p.len());
        assert(frame_at(c, at));
        assert(c.subrange(at + 4, at + 4 + p.len()) =~= p);
        assert(!frame_at(c, c.len() as int));
        assert(at + 4 + p.len() == c.len());
        assert(split_frames(c, c.len() as int) == (Seq::<Seq<u8>>::empty(), c.len() as int));
        assert(split_frames(c, at).0 =~= Seq::<Seq<u8>>::empty().push(p));
        assert(split_frames(b, at).0 =~= Seq::<Seq<u8>>::empty());
    }
}

/// Frames that were written are read back, all of them and nothing else.
pub proof fn lemma_frames_round_trip(ps: Seq<Seq<u8>>)
    requires
        forall|i: int| 0 <= i < ps.len() ==> (#[trigger] ps[i]).len() <= u32::MAX,
    ensures
        split_frames(frames(ps), 0) == (ps, frames(ps).len() as int),
    decreases ps.len(),
{
    if ps.len() == 0 {
        assert(split_frames(frames(ps), 0).0 =~= ps);
    } else {
        lemma_frames_round_trip(ps.drop_last());
        lemma_split_frames_append(frames(ps.drop_last()), 0, ps.last());
        assert(ps.drop_last().push(ps.last()) =~= ps);
    }
}

/// Appends a payload in its frame.
pub fn put_frame(out: &mut Vec<u8>, payload: &[u8])
    requires
        payload@.len() <= u32::MAX,
    ensures
        final(out)@ == old(out)@ + frame(payload@),
{
    put_u32(out, payload.len() as u32);
    out.extend_from_slice(payload);
    proof {
        assert(out@ =~= old(out)@ + frame(payload@));
    }
}

/// The bounds of the payload of the complete frame at `at`, if there is one.
pub fn next_frame(b: &[u8], at: usize) -> (r: Option<(usize, usize)>)
    ensures
        match r {
            Some((start, end)) => frame_at(b@, at as int) && start == at + 4 && end == at + 4
                + read_u32_le(b@, at as int) && end <= b@.len(),
            None => !frame_at(b@, at as int),
        },
{
    match get_u32(b, at) {
        None => None,
        Some(n) => {
            let total: usize = b.len();
            let start: usize = at + 4;
            if n as usize > total - start {
                None
            } else {
                Some((start, start + n as usize))
            }
        },
    }
}

/// The length of an entry's bytes, as a record and as a log entry alike.
pub open spec fn encoded_len(e: Entry) -> nat {
    match e.value {
        Some(v) => 9 + encode_utf8(e.key).len() + encode_utf8(v).len(),
        None => 5 + encode_utf8(e.key).len(),
    }
}

/// An entry can be stored if its bytes fit one frame.
pub open spec fn storable(e: Entry) -> bool {
    encoded_len(e) <= u32::MAX
}

pub proof fn lemma_encoded_len(e: Entry)
    requires
        storable(e),
    ensures
        encodable(e),
        enc_record(e).len() == encoded_len(e),
        enc_log_entry(e).len() == encoded_len(e),
{
}

/// Whether a key and what it maps to can be stored.
pub fn can_store(key: &str, value: Option<&str>) -> (r: bool)
    ensures
        r == storable(Entry { key: key@, value: match value { Some(v) => Some(v@), None => None } }),
{
    let limit: u64 = u32::MAX as u64;
    let k: usize = key.as_bytes().len();
    if k as u64 > limit {
        return false;
    }
    match value {
        Some(v) => {
            let n: usize = v.as_bytes().len();
            n as u64 <= limit && 9 + k as u64 + n as u64 <= limit
        },
        None => 5 + k as u64 <= limit,
    }
}

/// The records that payloads spell, if each spells one.
pub open spec fn dec_records(ps: Seq<Seq<u8>>) -> Option<Seq<Entry>> {
    if forall|i: int| 0 <= i < ps.len() ==> dec_record(#[trigger] ps[i]) is Some {
        Some(Seq::new(ps.len(), |i: int| dec_record(ps[i]).unwrap()))
    } else {
        None
    }
}

/// The log entries that payloads spell, if each spells one.
pub open spec fn dec_log_entries(ps: Seq<Seq<u8>>) -> Option<Seq<Entry>> {
    if forall|i: int| 0 <= i < ps.len() ==> dec_log_entry(#[trigger] ps[i]) is Some {
        Some(Seq::new(ps.len(), |i: int| dec_log_entry(ps[i]).unwrap()))
    } else {
        None
    }
}

/// The bytes of a table file: each record in its frame, in order.
pub open spec fn enc_run(es: Seq<Entry>) -> Seq<u8> {
    frames(Seq::new(es.len(), |i: int| enc_record(es[i])))
}

/// The records of a table file. Every byte must belong to a complete frame
/// and every frame must hold a record.
pub open spec fn dec_run(b: Seq<u8>) -> Option<Seq<Entry>> {
    let split = split_frames(b, 0);
    if split.1 == b.len() {
        dec_records(split.0)
    } else {
        None
    }
}

/// The bytes of a log: each entry in its frame, in order.
pub open spec fn enc_log(es: Seq<Entry>) -> Seq<u8> {
    frames(Seq::new(es.len(), |i: int| enc_log_entry(es[i])))
}

/// The entries of a log. Bytes behind the last complete frame are the trace
/// of a write that did not finish, and are ignored.
pub open spec fn dec_log(b: Seq<u8>) -> Option<Seq<Entry>> {
    dec_log_entries(split_frames(b, 0).0)
}

/// A table file that was written is read back.
pub proof fn lemma_run_round_trip(es: Seq<Entry>)
    requires
        forall|i: int| 0 <= i < es.len() ==> storable(#[trigger] es[i]),
    ensures
        dec_run(enc_run(es)) == Some(es),
{
    let ps = Seq::new(es.len(), |i: int| enc_record(es[i]));
    assert forall|i: int| 0 <= i < ps.len() implies (#[trigger] ps[i]).len() <= u32::MAX by {
        lemma_encoded_len(es[i]);
    }
    lemma_frames_round_trip(ps);
    assert forall|i: int| 0 <= i < ps.len() implies dec_record(#[trigger] ps[i]) == Some(
        es[i],
    ) by {
        lemma_encoded_len(es[i]);
        lemma_record_round_trip(es[i]);
    }
    assert(dec_records(ps).unwrap() =~= es);
}

/// A log that was written is read back.
pub proof fn lemma_log_round_trip(es: Seq<Entry>)
    requires
        forall|i: int| 0 <= i < es.len() ==> storable(#[trigger] es[i]),
    ensures
        dec_log(enc_log(es)) == Some(es),
        split_frames(enc_log(es), 0).1 == enc_log(es).len(),
{
    let ps = Seq::new(es.len(), |i: int| enc_log_entry(es[i]));
    assert forall|i: int| 0 <= i < ps.len() implies (#[trigger] ps[i]).len() <= u32::MAX by {
        lemma_encoded_len(es[i]);
    }
    lemma_frames_round_trip(ps);
    assert forall|i: int| 0 <= i < ps.len() implies dec_log_entry(#[trigger] ps[i]) == Some(
        es[i],
    ) by {
        lemma_encoded_len(es[i]);
        lemma_log_entry_round_trip(es[i]);
    }
    assert(dec_log_entries(ps).unwrap() =~= es);
}

/// A string field that is read back takes as many bytes as its encoding.
pub proof fn lemma_parse_str_len(b: Seq<u8>, at: int)
    requires
        parse_str(b, at) is Some,
    ensures
        parse_str(b, at).unwrap().1 == at + 4 + encode_utf8(parse_str(b, at).unwrap().0).len(),
{
    let n = read_u32_le(b, at);
    decode_utf8_encode_utf8(b.subrange(at + 4, at + 4 + n));
}

/// The bytes that spell a record are as many as the record's encoding.
pub proof fn lemma_decoded_len(p: Seq<u8>)
    requires
        dec_record(p) is Some,
    ensures
        encoded_len(dec_record(p).unwrap()) == p.len(),
{
    lemma_parse_str_len(p, 0);
    let q = parse_str(p, 0).unwrap().1;
    if p[q] == TAG_DATA {
        lemma_parse_str_len(p, q + 1);
    }
}

/// The bytes that spell a log entry are as many as the entry's encoding.
pub proof fn lemma_decoded_log_len(p: Seq<u8>)
    requires
        dec_log_entry(p) is Some,
    ensures
        encoded_len(dec_log_entry(p).unwrap()) == p.len(),
{
    lemma_parse_str_len(p, 1);
    let q = parse_str(p, 1).unwrap().1;
    if p[0] == TAG_DATA {
        lemma_parse_str_len(p, q);
    }
}

/// No payload of a frame is longer than a `u32` can say.
pub proof fn lemma_payload_len(b: Seq<u8>, at: int, i: int)
    requires
        0 <= at,
        0 <= i < split_frames(b, at).0.len(),
    ensures
        split_frames(b, at).0[i].len() <= u32::MAX,
    decreases b.len() - at,
{
    if frame_at(b, at) {
        let n = read_u32_le(b, at);
        if i > 0 {
            lemma_payload_len(b, at + 4 + n, i - 1);
        }
    }
}

/// Every entry that a log spells can be stored.
pub proof fn lemma_log_entries_storable(b: Seq<u8>)
    requires
        dec_log(b) is Some,
    ensures
        forall|i: int|
            0 <= i < dec_log(b).unwrap().len() ==> storable(#[trigger] dec_log(b).unwrap()[i]),
{
    let ps = split_frames(b, 0).0;
    let es = dec_log(b).unwrap();
    assert forall|i: int| 0 <= i < es.len() implies storable(#[trigger] es[i]) by {
        assert(dec_log_entry(ps[i]) is Some);
        lemma_decoded_log_len(ps[i]);
        lemma_payload_len(b, 0, i);
    }
}

} // verus!
