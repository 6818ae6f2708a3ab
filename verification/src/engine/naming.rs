//! The names of table files.
//!
//! A table written by a flush is called `sstable_<seq>.sst`; one written by a
//! compaction is called `sstable_L<level>_<seq>.sst`. Numbers are decimal,
//! padded with zeros to six digits for `seq` and to two for `level`.

use vstd::prelude::*;
use vstd::string::{StringExecFns, StringSliceAdditionalSpecFns};

verus! {

/// The character of a decimal digit.
pub open spec fn digit_char(d: nat) -> char {
    if d == 0 {
        '0'
    } else if d == 1 {
        '1'
    } else if d == 2 {
        '2'
    } else if d == 3 {
        '3'
    } else if d == 4 {
        '4'
    } else if d == 5 {
        '5'
    } else if d == 6 {
        '6'
    } else if d == 7 {
        '7'
    } else if d == 8 {
        '8'
    } else {
        '9'
    }
}

/// A number in decimal, without leading zeros.
pub open spec fn decimal(n: nat) -> Seq<char>
    decreases n,
{
    if n < 10 {
        seq![digit_char(n)]
    } else {
        decimal(n / 10).push(digit_char(n % 10))
    }
}

/// A number in decimal, padded with zeros in front to at least `width` digits.
pub open spec fn padded(n: nat, width: nat) -> Seq<char> {
    let d = decimal(n);
    if d.len() >= width {
        d
    } else {
        Seq::new((width - d.len()) as nat, |i: int| '0') + d
    }
}

/// The name of the table that a flush writes under sequence number `seq`.
pub open spec fn spec_flush_name(seq: nat) -> Seq<char> {
    "sstable_"@ + padded(seq, 6) + ".sst"@
}

/// The name of the table that a compaction into `level` writes under
/// sequence number `seq`.
pub open spec fn spec_level_name(level: nat, seq: nat) -> Seq<char> {
    "sstable_L"@ + padded(level, 2) + "_"@ + padded(seq, 6) + ".sst"@
}

/// One decimal digit as text.
fn digit_str(d: u64) -> (r: &'static str)
    requires
        d < 10,
    ensures
        r@ == seq![digit_char(d as nat)],
{
    proof {
        reveal_strlit("0");
        reveal_strlit("1");
        reveal_strlit("2");
        reveal_strlit("3");
        reveal_strlit("4");
        reveal_strlit("5");
        reveal_strlit("6");
        reveal_strlit("7");
        reveal_strlit("8");
        reveal_strlit("9");
    }
    let r = if d == 0 {
        "0"
    } else if d == 1 {
        "1"
    } else if d == 2 {
        "2"
    } else if d == 3 {
        "3"
    } else if d == 4 {
        "4"
    } else if d == 5 {
        "5"
    } else if d == 6 {
        "6"
    } else if d == 7 {
        "7"
    } else if d == 8 {
        "8"
    } else {
        "9"
    };
    assert(r@ =~= seq![digit_char(d as nat)]);
    r
}

/// Appends a number in decimal.
pub fn append_decimal(out: &mut String, n: u64)
    ensures
        final(out)@ == old(out)@ + decimal(n as nat),
    decreases n,
{
    if n >= 10 {
        append_decimal(out, n / 10);
    }
    out.append(digit_str(n % 10));
    proof {
        assert(out@ =~= old(out)@ + decimal(n as nat));
    }
}

/// The number of digits of a number in decimal.
fn decimal_len(n: u64) -> (r: u64)
    ensures
        r == decimal(n as nat).len(),
        r >= 1,
{
    let mut r: u64 = 1;
    let mut rest: u64 = n;
    while rest >= 10
        invariant
            1 <= r,
            r + decimal(rest as nat).len() == decimal(n as nat).len() + 1,
            r + rest <= n + 1,
        decreases rest,
    {
        rest = rest / 10;
        r += 1;
    }
    r
}

/// Appends a number in decimal, padded with zeros to at least `width` digits.
pub fn append_padded(out: &mut String, n: u64, width: u64)
    ensures
        final(out)@ == old(out)@ + padded(n as nat, width as nat),
{
    let len = decimal_len(n);
    let ghost start = out@;
    let mut i: u64 = len;
    proof {
        reveal_strlit("0");
        assert(out@ =~= start + Seq::new((i - len) as nat, |j: int| '0'));
    }
    while i < width
        invariant
            len <= i,
            i <= width || i == len,
            out@ == start + Seq::new((i - len) as nat, |j: int| '0'),
        decreases width - i,
    {
        out.append("0");
        proof {
            reveal_strlit("0");
            assert("0"@ =~= seq!['0']);
            assert(out@ =~= start + Seq::new((i + 1 - len) as nat, |j: int| '0'));
        }
        i += 1;
    }
    let ghost mid = out@;
    append_decimal(out, n);
    proof {
        if len >= width {
            assert(mid =~= start);
        } else {
            assert(out@ =~= start + (Seq::new((width - len) as nat, |j: int| '0') + decimal(
                n as nat,
            )));
        }
    }
}

/// The name of the table that a flush writes under sequence number `seq`.
pub fn flush_name(seq: u64) -> (r: String)
    ensures
        r@ == spec_flush_name(seq as nat),
{
    let mut out = String::from_str("sstable_");
    append_padded(&mut out, seq, 6);
    out.append(".sst");
    out
}

/// The name of the table that a compaction into `level` writes under
/// sequence number `seq`.
pub fn level_name(level: usize, seq: u64) -> (r: String)
    ensures
        r@ == spec_level_name(level as nat, seq as nat),
{
    let mut out = String::from_str("sstable_L");
    append_padded(&mut out, level as u64, 2);
    out.append("_");
    append_padded(&mut out, seq, 6);
    out.append(".sst");
    out
}

/// Whether a byte is a decimal digit.
pub open spec fn is_digit(b: u8) -> bool {
    48 <= b <= 57
}

/// The number that decimal digits spell.
pub open spec fn digits_value(s: Seq<u8>) -> nat
    decreases s.len(),
{
    if s.len() == 0 {
        0
    } else {
        digits_value(s.drop_last()) * 10 + (s.last() - 48) as nat
    }
}

/// The first index from `from` on that holds no digit.
pub open spec fn digits_end(s: Seq<u8>, from: int) -> int
    decreases s.len() - from,
{
    if from < 0 || from >= s.len() || !is_digit(s[from]) {
        from
    } else {
        digits_end(s, from + 1)
    }
}

/// The bytes of `sstable_`.
pub open spec fn name_prefix() -> Seq<u8> {
    seq![115u8, 115u8, 116u8, 97u8, 98u8, 108u8, 101u8, 95u8]
}

/// The bytes of `.sst`.
pub open spec fn name_suffix() -> Seq<u8> {
    seq![46u8, 115u8, 115u8, 116u8]
}

/// The level and the sequence number that a file name spells: level 0 for
/// `sstable_<digits>.sst`, and the level named for
/// `sstable_L<digits>_<digits>.sst`. Any other name spells nothing.
pub open spec fn parse_name_bytes(b: Seq<u8>) -> Option<(nat, nat)> {
    if b.len() < 13 || b.take(8) != name_prefix() || b.skip(b.len() - 4) != name_suffix() {
        None
    } else {
        let end = b.len() - 4;
        if b[8] == 76u8 {
            let u = digits_end(b, 9);
            if 9 < u && u + 1 < end && b[u] == 95u8 && digits_end(b, u + 1) == end {
                Some((digits_value(b.subrange(9, u)), digits_value(b.subrange(u + 1, end))))
            } else {
                None
            }
        } else if digits_end(b, 8) == end {
            Some((0, digits_value(b.subrange(8, end))))
        } else {
            None
        }
    }
}

/// Reads decimal digits from `from` on: where they end, and the number they
/// spell if it fits 64 bits.
fn read_number(b: &[u8], from: usize) -> (r: (usize, Option<u64>))
    requires
        from <= b@.len(),
    ensures
        r.0 == digits_end(b@, from as int),
        from <= r.0 <= b@.len(),
        match r.1 {
            Some(v) => v == digits_value(b@.subrange(from as int, r.0 as int)),
            None => digits_value(b@.subrange(from as int, r.0 as int)) > u64::MAX,
        },
{
    let mut i: usize = from;
    let mut value: Option<u64> = Some(0);
    proof {
        assert(b@.subrange(from as int, from as int) =~= Seq::<u8>::empty());
    }
    while i < b.len() && 48 <= b[i] && b[i] <= 57
        invariant
            from <= i <= b@.len(),
            digits_end(b@, from as int) == digits_end(b@, i as int),
            match value {
                Some(v) => v == digits_value(b@.subrange(from as int, i as int)),
                None => digits_value(b@.subrange(from as int, i as int)) > u64::MAX,
            },
        decreases b@.len() - i,
    {
        let d: u64 = (b[i] - 48) as u64;
        proof {
            let next = b@.subrange(from as int, i + 1);
            assert(next.drop_last() =~= b@.subrange(from as int, i as int));
            assert(next.last() == b@[i as int]);
        }
        value = match value {
            Some(v) => {
                if v > (u64::MAX - d) / 10 {
                    None
                } else {
                    Some(v * 10 + d)
                }
            },
            None => None,
        };
        i += 1;
    }
    (i, value)
}

/// Whether the bytes from `at` on start with `word`.
pub fn starts_with_at(b: &[u8], at: usize, word: &[u8]) -> (r: bool)
    requires
        at <= b@.len(),
    ensures
        r == (at + word@.len() <= b@.len() && b@.subrange(at as int, at + word@.len()) == word@),
{
    let total: usize = b.len();
    if word.len() > total - at {
        return false;
    }
    let mut i: usize = 0;
    while i < word.len()
        invariant
            i <= word@.len(),
            total == b@.len(),
            at + word@.len() <= b@.len(),
            forall|j: int| 0 <= j < i ==> b@[at + j] == word@[j],
        decreases word.len() - i,
    {
        if b[at + i] != word[i] {
            proof {
                assert(b@.subrange(at as int, at + word@.len())[i as int] == b@[at + i]);
            }
            return false;
        }
        i += 1;
    }
    proof {
        assert(b@.subrange(at as int, at + word@.len()) =~= word@);
    }
    true
}

/// The level and the sequence number that a file name spells, if it spells
/// them and they fit the machine's numbers.
pub fn parse_name(name: &str) -> (r: Option<(usize, u64)>)
    ensures
        match r {
            Some((level, seq)) => parse_name_bytes(name.spec_bytes()) == Some(
                (level as nat, seq as nat),
            ),
            None => match parse_name_bytes(name.spec_bytes()) {
                Some((level, seq)) => level > usize::MAX || seq > u64::MAX,
                None => true,
            },
        },
{
    let b = name.as_bytes();
    let n: usize = b.len();
    if n < 13 {
        return None;
    }
    let prefix: [u8; 8] = [115, 115, 116, 97, 98, 108, 101, 95];
    let suffix: [u8; 4] = [46, 115, 115, 116];
    let end: usize = n - 4;
    proof {
        assert(b@.take(8) =~= b@.subrange(0, 8));
        assert(b@.skip(n - 4) =~= b@.subrange(end as int, end + 4));
        assert(prefix@ =~= name_prefix());
        assert(suffix@ =~= name_suffix());
    }
    if !starts_with_at(b, 0, prefix.as_slice()) || !starts_with_at(b, end, suffix.as_slice()) {
        return None;
    }
    if b[8] == 76 {
        let (u, level) = read_number(b, 9);
        if !(9 < u && u < end - 1 && b[u] == 95) {
            return None;
        }
        let (v, seq) = read_number(b, u + 1);
        if v != end {
            return None;
        }
        match (level, seq) {
            (Some(l), Some(s)) => {
                if l > usize::MAX as u64 {
                    None
                } else {
                    Some((l as usize, s))
                }
            },
            _ => None,
        }
    } else {
        let (v, seq) = read_number(b, 8);
        if v != end {
            return None;
        }
        match seq {
            Some(s) => Some((0, s)),
            None => None,
        }
    }
}

/// Whether a name ends in `.sst`.
pub open spec fn is_table_name(name: Seq<u8>) -> bool {
    name.len() >= 4 && name.skip(name.len() - 4) == name_suffix()
}

/// Whether a file name ends in `.sst`.
pub fn has_table_suffix(name: &str) -> (r: bool)
    ensures
        r == is_table_name(name.spec_bytes()),
{
    let b = name.as_bytes();
    let n: usize = b.len();
    if n < 4 {
        return false;
    }
    let suffix: [u8; 4] = [46, 115, 115, 116];
    proof {
        assert(b@.skip(n - 4) =~= b@.subrange(n - 4, n - 4 + 4));
        assert(suffix@ =~= name_suffix());
    }
    starts_with_at(b, n - 4, suffix.as_slice())
}

/// The number that the first digits spell is no more than what all digits spell.
pub proof fn lemma_digits_value_grows(digits: Seq<u8>, n: int)
    requires
        0 <= n <= digits.len(),
        forall|i: int| 0 <= i < digits.len() ==> is_digit(#[trigger] digits[i]),
    ensures
        digits_value(digits.take(n)) <= digits_value(digits),
    decreases digits.len() - n,
{
    if n < digits.len() {
        assert(digits.take(n + 1).drop_last() =~= digits.take(n));
        assert(digits.take(n + 1).last() == digits[n]);
        assert(is_digit(digits[n]));
        lemma_digits_value_grows(digits, n + 1);
    } else {
        assert(digits.take(n) =~= digits);
    }
}

} // verus!
