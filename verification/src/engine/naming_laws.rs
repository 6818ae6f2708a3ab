//! Names that were made are read back: the number and the level that a
//! table name was made of are the ones that it spells.

use vstd::prelude::*;
use vstd::utf8::{encode_utf8, is_ascii_chars, is_ascii_chars_encode_utf8};
use crate::engine::naming::{
    decimal, digit_char, digits_end, digits_value, is_digit, name_prefix, name_suffix, padded,
    parse_name_bytes, spec_flush_name, spec_level_name,
};

verus! {

/// The bytes of text that holds none but plain characters.
pub open spec fn plain_bytes(s: Seq<char>) -> Seq<u8> {
    Seq::new(s.len(), |i: int| s[i] as u8)
}

/// Every byte is a digit.
pub open spec fn all_digit_bytes(b: Seq<u8>) -> bool {
    forall|i: int| 0 <= i < b.len() ==> is_digit(#[trigger] b[i])
}

/// Text of plain characters is encoded as its bytes.
pub proof fn lemma_plain_encoding(s: Seq<char>)
    requires
        is_ascii_chars(s),
    ensures
        encode_utf8(s) == plain_bytes(s),
{
    is_ascii_chars_encode_utf8(s);
    assert(encode_utf8(s) =~= plain_bytes(s));
}

/// A number in decimal is made of digits, at least one, and spells the number.
pub proof fn lemma_decimal(n: nat)
    ensures
        decimal(n).len() >= 1,
        is_ascii_chars(decimal(n)),
        all_digit_bytes(plain_bytes(decimal(n))),
        digits_value(plain_bytes(decimal(n))) == n,
    decreases n,
{
    let d = decimal(n);
    let b = plain_bytes(d);
    if n < 10 {
        assert(d =~= seq![digit_char(n)]);
        assert(b[0] == 48 + n);
        assert(b.drop_last() =~= Seq::<u8>::empty());
        assert(digits_value(b.drop_last()) == 0);
        assert(b.last() == 48 + n);
    } else {
        lemma_decimal(n / 10);
        let head = decimal(n / 10);
        assert(d =~= head.push(digit_char(n % 10)));
        assert(b.drop_last() =~= plain_bytes(head));
        assert(b.last() == 48 + n % 10);
        assert forall|i: int| 0 <= i < b.len() implies is_digit(#[trigger] b[i]) by {
            if i < head.len() {
                assert(b[i] == plain_bytes(head)[i]);
            }
        }
        assert forall|i: int| 0 <= i < d.len() implies '\0' <= #[trigger] d[i] <= '\u{7f}' by {
            if i < head.len() {
                assert(d[i] == head[i]);
            }
        }
    }
}

/// Zeros in front of digits do not change the number that they spell.
pub proof fn lemma_leading_zeros(zeros: nat, digits: Seq<u8>)
    ensures
        digits_value(Seq::new(zeros, |i: int| 48u8) + digits) == digits_value(digits),
    decreases digits.len(), zeros,
{
    let z = Seq::new(zeros, |i: int| 48u8);
    if digits.len() > 0 {
        assert((z + digits).drop_last() =~= z + digits.drop_last());
        lemma_leading_zeros(zeros, digits.drop_last());
        assert((z + digits).last() == digits.last());
    } else if zeros > 0 {
        let shorter = Seq::new((zeros - 1) as nat, |i: int| 48u8);
        assert((z + digits).drop_last() =~= shorter + digits);
        lemma_leading_zeros((zeros - 1) as nat, digits);
        assert((z + digits).last() == 48u8);
    } else {
        assert(z + digits =~= digits);
    }
}

/// A padded number is made of digits, as many as the width at least, and
/// spells the number.
pub proof fn lemma_padded(n: nat, width: nat)
    ensures
        padded(n, width).len() >= width,
        padded(n, width).len() >= 1,
        is_ascii_chars(padded(n, width)),
        all_digit_bytes(plain_bytes(padded(n, width))),
        digits_value(plain_bytes(padded(n, width))) == n,
{
    lemma_decimal(n);
    let d = decimal(n);
    if d.len() < width {
        let zeros = (width - d.len()) as nat;
        let p = padded(n, width);
        assert(plain_bytes(p) =~= Seq::new(zeros, |i: int| 48u8) + plain_bytes(d));
        lemma_leading_zeros(zeros, plain_bytes(d));
        assert forall|i: int| 0 <= i < p.len() implies '\0' <= #[trigger] p[i] <= '\u{7f}' by {
            if i >= zeros {
                assert(p[i] == d[i - zeros]);
            }
        }
        assert forall|i: int| 0 <= i < p.len() implies is_digit(#[trigger] plain_bytes(p)[i]) by {
            if i >= zeros {
                assert(plain_bytes(p)[i] == plain_bytes(d)[i - zeros]);
            }
        }
    }
}

/// Digits that run from `from` up to a byte that is no digit, or up to the
/// end, end there.
pub proof fn lemma_digits_end(b: Seq<u8>, from: int, to: int)
    requires
        0 <= from <= to <= b.len(),
        forall|i: int| from <= i < to ==> is_digit(#[trigger] b[i]),
        to < b.len() ==> !is_digit(b[to]),
    ensures
        digits_end(b, from) == to,
    decreases to - from,
{
    if from < to {
        lemma_digits_end(b, from + 1, to);
    }
}

/// The name of a flushed table spells level 0 and its number.
pub proof fn lemma_flush_name_parses(seq: nat)
    ensures
        parse_name_bytes(encode_utf8(spec_flush_name(seq))) == Some((0nat, seq)),
{
    reveal_strlit("sstable_");
    reveal_strlit(".sst");
    lemma_padded(seq, 6);
    let number = padded(seq, 6);
    let name = spec_flush_name(seq);
    assert forall|i: int| 0 <= i < name.len() implies '\0' <= #[trigger] name[i] <= '\u{7f}' by {
        if 8 <= i < 8 + number.len() {
            assert(name[i] == number[i - 8]);
        }
    }
    lemma_plain_encoding(name);
    let b = encode_utf8(name);
    let end: int = 8 + number.len() as int;
    assert(b.take(8) =~= name_prefix());
    assert(b.skip(b.len() - 4) =~= name_suffix());
    assert forall|i: int| 8 <= i < end implies is_digit(#[trigger] b[i]) by {
        assert(b[i] == plain_bytes(number)[i - 8]);
    }
    assert(b[end] == 46);
    lemma_digits_end(b, 8, end);
    assert(b.subrange(8, end) =~= plain_bytes(number));
    assert(is_digit(b[8]));
}

/// The name of a compacted table spells its level and its number.
pub proof fn lemma_level_name_parses(level: nat, seq: nat)
    ensures
        parse_name_bytes(encode_utf8(spec_level_name(level, seq))) == Some((level, seq)),
{
    reveal_strlit("sstable_L");
    reveal_strlit("_");
    reveal_strlit(".sst");
    lemma_padded(level, 2);
    lemma_padded(seq, 6);
    let lv = padded(level, 2);
    let number = padded(seq, 6);
    let name = spec_level_name(level, seq);
    let u: int = 9 + lv.len() as int;
    let end: int = u + 1 + number.len() as int;
    assert forall|i: int| 0 <= i < name.len() implies '\0' <= #[trigger] name[i] <= '\u{7f}' by {
        if 9 <= i < u {
            assert(name[i] == lv[i - 9]);
        } else if u + 1 <= i < end {
            assert(name[i] == number[i - u - 1]);
        }
    }
    lemma_plain_encoding(name);
    let b = encode_utf8(name);
    assert(b.take(8) =~= name_prefix());
    assert(b.skip(b.len() - 4) =~= name_suffix());
    assert(b[8] == 76);
    assert forall|i: int| 9 <= i < u implies is_digit(#[trigger] b[i]) by {
        assert(b[i] == plain_bytes(lv)[i - 9]);
    }
    assert(b[u] == 95);
    lemma_digits_end(b, 9, u);
    assert forall|i: int| u + 1 <= i < end implies is_digit(#[trigger] b[i]) by {
        assert(b[i] == plain_bytes(number)[i - u - 1]);
    }
    assert(b[end] == 46);
    lemma_digits_end(b, u + 1, end);
    assert(b.subrange(9, u) =~= plain_bytes(lv));
    assert(b.subrange(u + 1, end) =~= plain_bytes(number));
}

} // verus!
