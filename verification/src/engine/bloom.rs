//! A Bloom filter over keys: `k` bit positions per key, derived from two
//! independent hashes by double hashing, in a bit vector of `m` bits.

use vstd::prelude::*;
use vstd::std_specs::hash::DefaultHasherAdditionalSpecFns;
use vstd::string::StringSliceAdditionalSpecFns;
use vstd::slice::slice_subrange;
use crate::engine::codec::{get_u32, lemma_u32_round_trip, put_u32, read_u32_le, u32_le};
use bit_vec::BitVec;
use fnv::FnvHasher;
use std::collections::hash_map::DefaultHasher;
use std::hash::Hasher;

verus! {

/// The bit vector of the `bit-vec` crate, opaque to the verifier.
#[verifier::external_type_specification]
#[verifier::external_body]
#[verifier::reject_recursive_types(B)]
pub struct ExBitVec<B>(BitVec<B>);

/// The bits that a bit vector holds, first to last.
pub uninterp spec fn bits_of(v: BitVec) -> Seq<bool>;

/// `BitVec::from_elem`: a vector of `nbits` bits, each equal to `bit`.
#[verifier::external_body]
fn bitvec_from_elem(nbits: usize, bit: bool) -> (v: BitVec)
    ensures
        bits_of(v) == Seq::new(nbits as nat, |i: int| bit),
{
    BitVec::from_elem(nbits, bit)
}

/// `BitVec::len`: the number of bits.
#[verifier::external_body]
fn bitvec_len(v: &BitVec) -> (n: usize)
    ensures
        n == bits_of(*v).len(),
{
    v.len()
}

/// `BitVec::get`: the bit at `i`, or `None` past the end.
#[verifier::external_body]
fn bitvec_get(v: &BitVec, i: usize) -> (b: Option<bool>)
    ensures
        b == if i < bits_of(*v).len() {
            Some(bits_of(*v)[i as int])
        } else {
            None
        },
{
    v.get(i)
}

/// `BitVec::set`: writes the bit at `i` and leaves the others; it panics past
/// the end, which the precondition rules out.
#[verifier::external_body]
fn bitvec_set(v: &mut BitVec, i: usize, x: bool)
    requires
        i < bits_of(*old(v)).len(),
    ensures
        bits_of(*final(v)) == bits_of(*old(v)).update(i as int, x),
{
    v.set(i, x)
}

/// `BitVec::clear`: every bit becomes `false`; the length stays.
#[verifier::external_body]
fn bitvec_clear(v: &mut BitVec)
    ensures
        bits_of(*final(v)) == Seq::new(bits_of(*old(v)).len(), |i: int| false),
{
    v.clear()
}

/// `<BitVec as Clone>::clone`: a vector with the same bits.
#[verifier::external_body]
fn bitvec_clone(v: &BitVec) -> (w: BitVec)
    ensures
        bits_of(w) == bits_of(*v),
{
    v.clone()
}

/// The weight of the bit at place `j` of a byte, the first place being the highest.
pub open spec fn weight(j: int) -> int {
    if j == 0 {
        128
    } else if j == 1 {
        64
    } else if j == 2 {
        32
    } else if j == 3 {
        16
    } else if j == 4 {
        8
    } else if j == 5 {
        4
    } else if j == 6 {
        2
    } else {
        1
    }
}

/// The bit at place `j` of a byte, the first place being the highest.
pub open spec fn byte_bit(b: u8, j: int) -> bool {
    (b as int / weight(j)) % 2 == 1
}

/// The bytes hold the bits, eight to a byte, the first bit in the highest
/// place; the places behind the last bit are unset.
pub open spec fn packs(bits: Seq<bool>, bytes: Seq<u8>) -> bool {
    &&& bytes.len() == (bits.len() + 7) / 8
    &&& forall|i: int, j: int|
        #![trigger byte_bit(bytes[i], j)]
        0 <= i < bytes.len() && 0 <= j < 8 ==> byte_bit(bytes[i], j) == (8 * i + j < bits.len()
            && bits[8 * i + j])
}

/// The bits that bytes hold, eight to a byte, the highest place first.
pub open spec fn unpacked(bytes: Seq<u8>) -> Seq<bool> {
    Seq::new(8 * bytes.len(), |k: int| byte_bit(bytes[k / 8], k % 8))
}

/// `BitVec::to_bytes`: the bits packed into bytes, the first bit in the
/// highest place of the first byte, the last byte filled up with unset bits.
#[verifier::external_body]
fn bitvec_to_bytes(v: &BitVec) -> (r: Vec<u8>)
    ensures
        packs(bits_of(*v), r@),
{
    v.to_bytes()
}

/// `BitVec::from_bytes`: eight bits for each byte, the highest place
/// first. It panics where eight times the number of bytes is more than a
/// `usize` holds, which the precondition rules out.
#[verifier::external_body]
fn bitvec_from_bytes(bytes: &[u8]) -> (v: BitVec)
    requires
        bytes@.len() * 8 <= usize::MAX,
    ensures
        bits_of(v) == unpacked(bytes@),
{
    BitVec::from_bytes(bytes)
}

/// `BitVec::truncate`: the first `len` bits stay; a vector that is not
/// longer stays as it is.
#[verifier::external_body]
fn bitvec_truncate(v: &mut BitVec, len: usize)
    ensures
        bits_of(*final(v)) == if len < bits_of(*old(v)).len() {
            bits_of(*old(v)).take(len as int)
        } else {
            bits_of(*old(v))
        },
{
    v.truncate(len)
}

/// Bits that were packed into bytes are read back from them.
pub proof fn lemma_pack_round_trip(bits: Seq<bool>, bytes: Seq<u8>)
    requires
        packs(bits, bytes),
    ensures
        unpacked(bytes).len() >= bits.len(),
        unpacked(bytes).take(bits.len() as int) == bits,
{
    let u = unpacked(bytes);
    assert forall|k: int| 0 <= k < bits.len() implies u[k] == bits[k] by {
        let i = k / 8;
        let j = k % 8;
        assert(byte_bit(bytes[i], j) == (8 * i + j < bits.len() && bits[8 * i + j]));
    }
    assert(u.take(bits.len() as int) =~= bits);
}

/// The 64-bit FNV-1a hash: start from the offset basis; for each byte, xor it
/// in and multiply by the FNV prime modulo 2^64.
pub open spec fn fnv1a(bytes: Seq<u8>) -> u64
    decreases bytes.len(),
{
    if bytes.len() == 0 {
        0xcbf29ce484222325u64
    } else {
        (((fnv1a(bytes.drop_last()) ^ (bytes.last() as u64)) as int * 0x100000001b3)
            % 0x1_0000_0000_0000_0000) as u64
    }
}

/// `FnvHasher::default`, one `write` of the bytes, then `finish`: the 64-bit
/// FNV-1a hash of the bytes.
#[verifier::external_body]
fn fnv_hash(bytes: &[u8]) -> (h: u64)
    ensures
        h == fnv1a(bytes@),
{
    let mut hasher = FnvHasher::default();
    hasher.write(bytes);
    hasher.finish()
}

/// The first hash of a key: the standard library's default hasher over its bytes.
pub open spec fn first_hash(key: Seq<u8>) -> u64 {
    DefaultHasher::spec_finish(seq![key])
}

/// The second hash of a key: FNV-1a over its bytes.
pub open spec fn second_hash(key: Seq<u8>) -> u64 {
    fnv1a(key)
}

/// The `i`-th bit position of a key in a filter of `m > 0` bits.
pub open spec fn position(h1: u64, h2: u64, i: nat, m: nat) -> int {
    (h1 + i * h2) % (m as int)
}

/// Some position below `upto` of the hashes is `j`.
pub open spec fn hits(h1: u64, h2: u64, upto: nat, m: nat, j: int) -> bool {
    exists|t: nat| t < upto && #[trigger] position(h1, h2, t, m) == j
}

/// The model of a filter.
pub struct BloomModel {
    pub bits: Seq<bool>,
    pub hash_functions: nat,
    pub expected_items: nat,
}

impl BloomModel {
    /// Every position of the key is set. A filter without bits has no position
    /// to test and reports every key as possibly present.
    pub open spec fn contains(self, key: Seq<u8>) -> bool {
        self.bits.len() > 0 ==> forall|i: nat|
            i < self.hash_functions ==> self.bits[#[trigger] position(
                first_hash(key),
                second_hash(key),
                i,
                self.bits.len(),
            )]
    }

    /// The filter after the positions of `key` are set.
    pub open spec fn insert(self, key: Seq<u8>) -> BloomModel {
        BloomModel {
            bits: Seq::new(
                self.bits.len(),
                |j: int|
                    self.bits[j] || hits(
                        first_hash(key),
                        second_hash(key),
                        self.hash_functions,
                        self.bits.len(),
                        j,
                    ),
            ),
            ..self
        }
    }
}

/// A key that was inserted is contained.
pub proof fn lemma_insert_contains(f: BloomModel, key: Seq<u8>)
    ensures
        f.insert(key).contains(key),
{
    let g = f.insert(key);
    let h1 = first_hash(key);
    let h2 = second_hash(key);
    if g.bits.len() > 0 {
        assert forall|i: nat| i < g.hash_functions implies g.bits[#[trigger] position(
            h1,
            h2,
            i,
            g.bits.len(),
        )] by {
            let p = position(h1, h2, i, f.bits.len());
            lemma_position_in_range(h1, h2, i, f.bits.len());
            assert(hits(h1, h2, f.hash_functions, f.bits.len(), p));
        }
    }
}

/// Inserting a key removes no other key.
pub proof fn lemma_insert_keeps(f: BloomModel, key: Seq<u8>, other: Seq<u8>)
    requires
        f.contains(other),
    ensures
        f.insert(key).contains(other),
{
    let g = f.insert(key);
    if g.bits.len() > 0 {
        assert forall|i: nat| i < g.hash_functions implies g.bits[#[trigger] position(
            first_hash(other),
            second_hash(other),
            i,
            g.bits.len(),
        )] by {
            let p = position(first_hash(other), second_hash(other), i, f.bits.len());
            lemma_position_in_range(first_hash(other), second_hash(other), i, f.bits.len());
            assert(f.bits[p]);
        }
    }
}

pub proof fn lemma_position_in_range(h1: u64, h2: u64, i: nat, m: nat)
    requires
        m > 0,
    ensures
        0 <= position(h1, h2, i, m) < m,
{
    assert(i * h2 >= 0) by (nonlinear_arith)
        requires
            i >= 0,
            h2 >= 0,
    ;
}

/// Bits per expected item for a false-positive rate of one in a hundred,
/// `-ln(0.01) / (ln 2)^2`, in billionths and rounded up.
pub const BITS_PER_ITEM_E9: u64 = 9_585_058_378;

/// `ln 2` in billionths, rounded up.
pub const LN2_E9: u64 = 693_147_181;

pub const E9: u64 = 1_000_000_000;

/// The least integer not below `a / b`.
pub open spec fn ceil_div(a: int, b: int) -> int {
    (a + b - 1) / b
}

/// The number of bits for `n` expected items: `ceil(n * 9.585058378)`, capped
/// at what a `usize` holds.
pub open spec fn optimal_bits(n: nat) -> nat {
    let m = ceil_div(n * BITS_PER_ITEM_E9, E9 as int);
    if m > usize::MAX {
        usize::MAX as nat
    } else {
        m as nat
    }
}

/// The number of hash functions for `m` bits and `n` items:
/// `ceil((m / n) * 0.693147181)`, and zero for an empty filter.
pub open spec fn optimal_hashes(m: nat, n: nat) -> nat {
    if n == 0 {
        0
    } else {
        ceil_div(m * LN2_E9, n * E9) as nat
    }
}

/// The eight bytes of a 64-bit number, least significant first.
pub open spec fn u64_le(x: u64) -> Seq<u8> {
    u32_le((x % 0x1_0000_0000) as u32) + u32_le((x / 0x1_0000_0000) as u32)
}

/// The number that eight bytes at `at` spell, least significant first.
pub open spec fn read_u64_le(b: Seq<u8>, at: int) -> int {
    read_u32_le(b, at) + 0x1_0000_0000 * read_u32_le(b, at + 4)
}

/// The bytes hold the filter: its three numbers and then its bits, packed.
pub open spec fn stored(f: BloomModel, bytes: Seq<u8>) -> bool {
    &&& bytes.len() >= 24
    &&& read_u64_le(bytes, 0) == f.bits.len()
    &&& read_u64_le(bytes, 8) == f.hash_functions
    &&& read_u64_le(bytes, 16) == f.expected_items
    &&& bytes.len() - 24 == (f.bits.len() + 7) / 8
    &&& f.bits == unpacked(bytes.skip(24)).take(f.bits.len() as int)
    &&& f.bits.len() <= usize::MAX
    &&& f.hash_functions <= usize::MAX
    &&& f.expected_items <= usize::MAX
}

/// Bytes that agree on the eight places from `at` on spell the same number there.
pub proof fn lemma_same_number(a: Seq<u8>, b: Seq<u8>, at: int)
    requires
        0 <= at,
        at + 8 <= a.len(),
        a.len() <= b.len(),
        forall|i: int| 0 <= i < a.len() ==> a[i] == b[i],
    ensures
        read_u64_le(a, at) == read_u64_le(b, at),
{
    assert(a[at] == b[at] && a[at + 1] == b[at + 1] && a[at + 2] == b[at + 2] && a[at + 3] == b[at
        + 3]);
    assert(a[at + 4] == b[at + 4] && a[at + 5] == b[at + 5] && a[at + 6] == b[at + 6] && a[at
        + 7] == b[at + 7]);
}

/// Appends the eight bytes of `x`.
fn put_u64(out: &mut Vec<u8>, x: u64)
    ensures
        final(out)@ == old(out)@ + u64_le(x),
        read_u64_le(final(out)@, old(out)@.len() as int) == x,
        forall|i: int| 0 <= i < old(out)@.len() ==> final(out)@[i] == old(out)@[i],
{
    put_u32(out, (x % 0x1_0000_0000) as u32);
    put_u32(out, (x / 0x1_0000_0000) as u32);
    proof {
        let n = old(out)@.len() as int;
        lemma_u32_round_trip((x % 0x1_0000_0000) as u32);
        lemma_u32_round_trip((x / 0x1_0000_0000) as u32);
        assert(out@ =~= old(out)@ + u64_le(x));
        let lo = u32_le((x % 0x1_0000_0000) as u32);
        let hi = u32_le((x / 0x1_0000_0000) as u32);
        assert(out@[n] == lo[0] && out@[n + 1] == lo[1] && out@[n + 2] == lo[2] && out@[n + 3]
            == lo[3]);
        assert(out@[n + 4] == hi[0] && out@[n + 5] == hi[1] && out@[n + 6] == hi[2] && out@[n
            + 7] == hi[3]);
    }
}

/// Reads the 64-bit number at `at`.
fn get_u64(b: &[u8], at: usize) -> (r: u64)
    requires
        at + 8 <= b@.len(),
    ensures
        r == read_u64_le(b@, at as int),
{
    let total: usize = b.len();
    let lo = match get_u32(b, at) {
        Some(x) => x,
        None => 0,
    };
    let hi = match get_u32(b, at + 4) {
        Some(x) => x,
        None => 0,
    };
    lo as u64 + 0x1_0000_0000 * (hi as u64)
}

/// The bit at place `j` of a byte, the first place being the highest.
fn bit_of(b: u8, j: usize) -> (r: bool)
    requires
        j < 8,
    ensures
        r == byte_bit(b, j as int),
{
    let w: u8 = if j == 0 {
        128
    } else if j == 1 {
        64
    } else if j == 2 {
        32
    } else if j == 3 {
        16
    } else if j == 4 {
        8
    } else if j == 5 {
        4
    } else if j == 6 {
        2
    } else {
        1
    };
    (b / w) % 2 == 1
}

/// A Bloom filter.
#[derive(Debug)]
pub struct BloomFilter {
    bits: BitVec,
    hash_functions: usize,
    expected_items: usize,
}

impl View for BloomFilter {
    type V = BloomModel;

    closed spec fn view(&self) -> BloomModel {
        BloomModel {
            bits: bits_of(self.bits),
            hash_functions: self.hash_functions as nat,
            expected_items: self.expected_items as nat,
        }
    }
}

impl Clone for BloomFilter {
    fn clone(&self) -> (r: Self)
        ensures
            r@ == self@,
    {
        BloomFilter {
            bits: bitvec_clone(&self.bits),
            hash_functions: self.hash_functions,
            expected_items: self.expected_items,
        }
    }
}

impl BloomFilter {
    /// An empty filter sized for `expected_items` keys at a false-positive
    /// rate of one in a hundred.
    pub fn new(expected_items: usize) -> (r: Self)
        ensures
            r@.bits == Seq::new(optimal_bits(expected_items as nat), |i: int| false),
            r@.hash_functions == optimal_hashes(
                optimal_bits(expected_items as nat),
                expected_items as nat,
            ),
            r@.expected_items == expected_items,
    {
        proof {
            assert(expected_items * BITS_PER_ITEM_E9 <= 0xffff_ffff_ffff_ffff * 9_585_058_378)
                by (nonlinear_arith)
                requires
                    0 <= expected_items <= 0xffff_ffff_ffff_ffff,
                    BITS_PER_ITEM_E9 == 9_585_058_378,
            ;
        }
        let wide: u128 = (expected_items as u128) * (BITS_PER_ITEM_E9 as u128) + (E9 as u128 - 1);
        let m_wide: u128 = wide / (E9 as u128);
        let bit_size: usize = if m_wide > usize::MAX as u128 {
            usize::MAX
        } else {
            m_wide as usize
        };
        let hash_functions: usize = if expected_items == 0 {
            0
        } else {
            let den: u128 = (expected_items as u128) * (E9 as u128);
            let num: u128 = (bit_size as u128) * (LN2_E9 as u128) + (den - 1);
            let k: u128 = num / den;
            proof {
                lemma_hashes_bounded(bit_size as nat, expected_items as nat);
            }
            k as usize
        };
        BloomFilter { bits: bitvec_from_elem(bit_size, false), hash_functions, expected_items }
    }

    /// An empty filter of `bit_size` bits and `hash_functions` positions per key.
    pub fn with_size(bit_size: usize, hash_functions: usize) -> (r: Self)
        ensures
            r@.bits == Seq::new(bit_size as nat, |i: int| false),
            r@.hash_functions == hash_functions,
            r@.expected_items == 0,
    {
        BloomFilter { bits: bitvec_from_elem(bit_size, false), hash_functions, expected_items: 0 }
    }

    /// The two hashes of a key.
    fn hashes(item: &str) -> (r: (u64, u64))
        ensures
            r.0 == first_hash(item.spec_bytes()),
            r.1 == second_hash(item.spec_bytes()),
    {
        let bytes = item.as_bytes();
        let mut hasher = DefaultHasher::new();
        hasher.write(bytes);
        let h1 = hasher.finish();
        let h2 = fnv_hash(bytes);
        (h1, h2)
    }

    /// The `i`-th position for the two hashes, in a filter of `m > 0` bits.
    fn position_at(h1: u64, h2: u64, i: usize, m: usize) -> (p: usize)
        requires
            m > 0,
        ensures
            p == position(h1, h2, i as nat, m as nat),
            p < m,
    {
        proof {
            lemma_position_in_range(h1, h2, i as nat, m as nat);
            assert(i * h2 <= 0xffff_ffff_ffff_ffff * 0xffff_ffff_ffff_ffff) by (nonlinear_arith)
                requires
                    0 <= i <= 0xffff_ffff_ffff_ffff,
                    0 <= h2 <= 0xffff_ffff_ffff_ffff,
            ;
        }
        let wide: u128 = (h1 as u128) + (i as u128) * (h2 as u128);
        (wide % (m as u128)) as usize
    }

    /// Sets every position of `item`.
    pub fn insert(&mut self, item: &str)
        ensures
            final(self)@ == old(self)@.insert(item.spec_bytes()),
            final(self)@.contains(item.spec_bytes()),
    {
        let m: usize = bitvec_len(&self.bits);
        let ghost before = self@;
        let ghost key = item.spec_bytes();
        if m > 0 {
            let (h1, h2) = Self::hashes(item);
            let mut i: usize = 0;
            while i < self.hash_functions
                invariant
                    m > 0,
                    i <= self.hash_functions,
                    self.hash_functions == before.hash_functions,
                    self.expected_items == before.expected_items,
                    bits_of(self.bits).len() == m,
                    before.bits.len() == m,
                    forall|j: int|
                        0 <= j < m ==> #[trigger] bits_of(self.bits)[j] == (before.bits[j] || hits(
                            h1,
                            h2,
                            i as nat,
                            m as nat,
                            j,
                        )),
                decreases self.hash_functions - i,
            {
                let p = Self::position_at(h1, h2, i, m);
                let ghost prev = bits_of(self.bits);
                bitvec_set(&mut self.bits, p, true);
                proof {
                    assert forall|j: int| 0 <= j < m implies #[trigger] bits_of(self.bits)[j] == (
                    before.bits[j] || hits(h1, h2, (i + 1) as nat, m as nat, j)) by {
                        let was = hits(h1, h2, i as nat, m as nat, j);
                        let now = hits(h1, h2, (i + 1) as nat, m as nat, j);
                        assert(prev[j] == (before.bits[j] || was));
                        if was {
                            let t = choose|t: nat|
                                t < i && #[trigger] position(h1, h2, t, m as nat) == j;
                            assert(t < i + 1 && position(h1, h2, t, m as nat) == j);
                        }
                        if now {
                            let t = choose|t: nat|
                                t < i + 1 && #[trigger] position(h1, h2, t, m as nat) == j;
                            if t < i {
                                assert(was);
                            } else {
                                assert(j == p);
                            }
                        }
                        if j == p {
                            assert((i as nat) < i + 1 && position(h1, h2, i as nat, m as nat) == j);
                        }
                    }
                }
                i += 1;
            }
        }
        proof {
            assert(self@.bits =~= before.insert(key).bits);
            lemma_insert_contains(before, key);
        }
    }

    /// Whether every position of `item` is set.
    pub fn contains(&self, item: &str) -> (r: bool)
        ensures
            r == self@.contains(item.spec_bytes()),
    {
        let m: usize = bitvec_len(&self.bits);
        if m == 0 {
            return true;
        }
        let ghost key = item.spec_bytes();
        let (h1, h2) = Self::hashes(item);
        let mut i: usize = 0;
        while i < self.hash_functions
            invariant
                m > 0,
                i <= self.hash_functions,
                key == item.spec_bytes(),
                h1 == first_hash(key),
                h2 == second_hash(key),
                bits_of(self.bits).len() == m,
                forall|t: nat| t < i ==> bits_of(self.bits)[#[trigger] position(h1, h2, t, m as nat)],
            decreases self.hash_functions - i,
        {
            let p = Self::position_at(h1, h2, i, m);
            let bit = bitvec_get(&self.bits, p);
            if bit != Some(true) {
                proof {
                    let t = i as nat;
                    assert(!self@.bits[position(first_hash(key), second_hash(key), t, self@.bits.len())]);
                    assert(t < self@.hash_functions);
                }
                return false;
            }
            i += 1;
        }
        true
    }

    /// Unsets every bit; the size stays.
    pub fn clear(&mut self)
        ensures
            final(self)@.bits == Seq::new(old(self)@.bits.len(), |i: int| false),
            final(self)@.hash_functions == old(self)@.hash_functions,
            final(self)@.expected_items == old(self)@.expected_items,
    {
        bitvec_clear(&mut self.bits);
    }

    /// The number of bits.
    pub fn len(&self) -> (r: usize)
        ensures
            r == self@.bits.len(),
    {
        bitvec_len(&self.bits)
    }

    /// The filter as bytes: the number of bits, the number of positions
    /// per key and the number of expected items, each as 64 bits with the
    /// lowest byte first, and then the bits, eight to a byte.
    #[verifier::rlimit(50)]
    pub fn to_bytes(&self) -> (r: Vec<u8>)
        ensures
            stored(self@, r@),
    {
        let mut out: Vec<u8> = Vec::new();
        let m = bitvec_len(&self.bits);
        put_u64(&mut out, m as u64);
        let ghost first = out@;
        put_u64(&mut out, self.hash_functions as u64);
        let ghost second = out@;
        put_u64(&mut out, self.expected_items as u64);
        let ghost header = out@;
        let packed = bitvec_to_bytes(&self.bits);
        out.extend_from_slice(packed.as_slice());
        proof {
            assert(first.len() == 8 && second.len() == 16 && header.len() == 24);
            lemma_same_number(first, second, 0);
            lemma_same_number(second, header, 0);
            lemma_same_number(second, header, 8);
            lemma_same_number(header, out@, 0);
            lemma_same_number(header, out@, 8);
            lemma_same_number(header, out@, 16);
            assert(out@.skip(24) =~= packed@);
            lemma_pack_round_trip(bits_of(self.bits), packed@);
        }
        out
    }

    /// The filter that bytes hold; `None` where they hold none.
    pub fn from_bytes(bytes: &[u8]) -> (r: Option<Self>)
        ensures
            match r {
                Some(f) => stored(f@, bytes@),
                None => forall|m: BloomModel| !stored(m, bytes@),
            },
    {
        if bytes.len() < 24 {
            return None;
        }
        let m = get_u64(bytes, 0);
        let k = get_u64(bytes, 8);
        let n = get_u64(bytes, 16);
        if m > usize::MAX as u64 || k > usize::MAX as u64 || n > usize::MAX as u64 {
            return None;
        }
        let rest = slice_subrange(bytes, 24, bytes.len());
        let need: u64 = m / 8 + (if m % 8 == 0 {
            0
        } else {
            1
        });
        if rest.len() as u64 != need {
            return None;
        }
        proof {
            assert(rest@ =~= bytes@.skip(24));
            assert(need == (m + 7) / 8);
        }
        let m_bits = m as usize;
        let bits = if rest.len() > usize::MAX / 8 {
            Self::bits_from(rest, m_bits)
        } else {
            let mut bits = bitvec_from_bytes(rest);
            bitvec_truncate(&mut bits, m_bits);
            proof {
                assert(bits_of(bits) =~= unpacked(rest@).take(m as int));
            }
            bits
        };
        Some(BloomFilter { bits, hash_functions: k as usize, expected_items: n as usize })
    }

    /// The first `m` of the bits that bytes hold, set one by one.
    fn bits_from(rest: &[u8], m: usize) -> (bits: BitVec)
        requires
            rest@.len() == (m + 7) / 8,
        ensures
            bits_of(bits) == unpacked(rest@).take(m as int),
    {
        let mut bits = bitvec_from_elem(m, false);
        let mut i: usize = 0;
        while i < m
            invariant
                i <= m,
                rest@.len() == (m + 7) / 8,
                bits_of(bits).len() == m,
                forall|x: int| 0 <= x < i ==> #[trigger] bits_of(bits)[x] == unpacked(rest@)[x],
            decreases m - i,
        {
            let byte = rest[i / 8];
            let on = bit_of(byte, i % 8);
            let ghost before = bits_of(bits);
            bitvec_set(&mut bits, i, on);
            proof {
                assert forall|x: int| 0 <= x < i + 1 implies #[trigger] bits_of(bits)[x]
                    == unpacked(rest@)[x] by {
                    if x < i {
                        assert(before[x] == unpacked(rest@)[x]);
                    }
                }
            }
            i += 1;
        }
        proof {
            assert(bits_of(bits) =~= unpacked(rest@).take(m as int));
        }
        bits
    }

    /// The number of positions per key.
    pub fn hash_functions(&self) -> (r: usize)
        ensures
            r == self@.hash_functions,
    {
        self.hash_functions
    }

    /// The number of bits that are set.
    pub fn count_set_bits(&self) -> (r: usize)
        ensures
            r == set_count(self@.bits),
    {
        let n = bitvec_len(&self.bits);
        let ghost bits = bits_of(self.bits);
        let mut count: usize = 0;
        let mut i: usize = 0;
        proof {
            assert(bits.take(0) =~= Seq::<bool>::empty());
        }
        while i < n
            invariant
                i <= n,
                n == bits.len(),
                bits == bits_of(self.bits),
                count == set_count(bits.take(i as int)),
                count <= i,
            decreases n - i,
        {
            proof {
                assert(bits.take(i + 1).drop_last() =~= bits.take(i as int));
                assert(bits.take(i + 1).last() == bits[i as int]);
            }
            if bitvec_get(&self.bits, i) == Some(true) {
                count += 1;
            }
            i += 1;
        }
        proof {
            assert(bits.take(i as int) =~= bits);
        }
        count
    }
}

/// The number of bits that are set.
pub open spec fn set_count(bits: Seq<bool>) -> nat
    decreases bits.len(),
{
    if bits.len() == 0 {
        0
    } else {
        set_count(bits.drop_last()) + if bits.last() {
            1nat
        } else {
            0nat
        }
    }
}

/// The hash count of a filter that fits in memory fits in a `usize`.
pub proof fn lemma_hashes_bounded(m: nat, n: nat)
    requires
        n > 0,
        m <= usize::MAX,
    ensures
        ceil_div(m * LN2_E9, n * E9) <= m,
        ceil_div(m * LN2_E9, n * E9) >= 0,
{
    let num = m * LN2_E9;
    let den = n * E9;
    assert(den >= E9) by (nonlinear_arith)
        requires
            den == n * E9,
            n >= 1,
    ;
    assert(num <= m * E9) by (nonlinear_arith)
        requires
            num == m * LN2_E9,
            LN2_E9 <= E9,
            m >= 0,
    ;
    assert((num + den - 1) / (den as int) <= m) by (nonlinear_arith)
        requires
            num <= m * E9,
            den >= E9,
            E9 == 1_000_000_000,
            num >= 0,
            m >= 0,
    ;
    assert((num + den - 1) / (den as int) >= 0) by (nonlinear_arith)
        requires
            den >= 1,
            num >= 0,
    ;
}

} // verus!
