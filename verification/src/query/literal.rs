//! Numbers as they are written: an optional sign, then `inf`, `infinity`,
//! `nan`, or digits with at most one point and an optional exponent. Letters
//! count in either case.

use vstd::prelude::*;
use vstd::string::StringSliceAdditionalSpecFns;

verus! {

pub open spec fn is_digit_byte(b: u8) -> bool {
    48 <= b <= 57
}

/// A byte in lower case, if it is a letter of the alphabet.
pub open spec fn lower(b: u8) -> u8 {
    if 65 <= b <= 90 {
        (b + 32) as u8
    } else {
        b
    }
}

/// The first index from `from` on that holds no digit.
pub open spec fn digits_until(s: Seq<u8>, from: int) -> int
    decreases s.len() - from,
{
    if from < 0 || from >= s.len() || !is_digit_byte(s[from]) {
        from
    } else {
        digits_until(s, from + 1)
    }
}

/// Whether the bytes from `from` to the end spell `word`, in either case.
pub open spec fn spells(s: Seq<u8>, from: int, word: Seq<u8>) -> bool {
    s.len() - from == word.len() && forall|i: int|
        0 <= i < word.len() ==> lower(#[trigger] s[from + i]) == word[i]
}

/// Whether the bytes from `from` to the end are an exponent: `e`, an
/// optional sign, and at least one digit.
pub open spec fn is_exponent(s: Seq<u8>, from: int) -> bool {
    &&& from < s.len()
    &&& lower(s[from]) == 101
    &&& {
        let digits = if from + 1 < s.len() && (s[from + 1] == 43 || s[from + 1] == 45) {
            from + 2
        } else {
            from + 1
        };
        digits < s.len() && digits_until(s, digits) == s.len()
    }
}

/// Whether the bytes from `from` to the end are a number without sign:
/// digits with at most one point among them, at least one digit, and an
/// optional exponent behind them.
pub open spec fn is_plain_number(s: Seq<u8>, from: int) -> bool {
    let whole_end = digits_until(s, from);
    let fraction_start = if whole_end < s.len() && s[whole_end] == 46 {
        whole_end + 1
    } else {
        whole_end
    };
    let fraction_end = digits_until(s, fraction_start);
    let digits = (whole_end - from) + (fraction_end - fraction_start);
    digits > 0 && (fraction_end == s.len() || is_exponent(s, fraction_end))
}

/// Whether the bytes spell a number.
pub open spec fn is_number(s: Seq<u8>) -> bool {
    let from: int = if s.len() > 0 && (s[0] == 43 || s[0] == 45) {
        1
    } else {
        0
    };
    spells(s, from, seq![105u8, 110u8, 102u8]) || spells(
        s,
        from,
        seq![105u8, 110u8, 102u8, 105u8, 110u8, 105u8, 116u8, 121u8],
    ) || spells(s, from, seq![110u8, 97u8, 110u8]) || is_plain_number(s, from)
}

fn to_lower(b: u8) -> (r: u8)
    ensures
        r == lower(b),
{
    if 65 <= b && b <= 90 {
        b + 32
    } else {
        b
    }
}

fn skip_digits(s: &[u8], from: usize) -> (r: usize)
    requires
        from <= s@.len(),
    ensures
        r == digits_until(s@, from as int),
        from <= r <= s@.len(),
{
    let mut i: usize = from;
    while i < s.len() && 48 <= s[i] && s[i] <= 57
        invariant
            from <= i <= s@.len(),
            digits_until(s@, from as int) == digits_until(s@, i as int),
        decreases s@.len() - i,
    {
        i += 1;
    }
    i
}

fn spells_word(s: &[u8], from: usize, word: &[u8]) -> (r: bool)
    requires
        from <= s@.len(),
    ensures
        r == spells(s@, from as int, word@),
{
    let total: usize = s.len();
    if total - from != word.len() {
        return false;
    }
    let mut i: usize = 0;
    while i < word.len()
        invariant
            i <= word@.len(),
            total == s@.len(),
            total - from == word@.len(),
            forall|j: int| 0 <= j < i ==> lower(#[trigger] s@[from + j]) == word@[j],
        decreases word.len() - i,
    {
        if to_lower(s[from + i]) != word[i] {
            return false;
        }
        i += 1;
    }
    true
}

fn exponent_at(s: &[u8], from: usize) -> (r: bool)
    requires
        from <= s@.len(),
    ensures
        r == is_exponent(s@, from as int),
{
    let n: usize = s.len();
    if from >= n || to_lower(s[from]) != 101 {
        return false;
    }
    let digits: usize = if from + 1 < n && (s[from + 1] == 43 || s[from + 1] == 45) {
        from + 2
    } else {
        from + 1
    };
    if digits >= n {
        return false;
    }
    skip_digits(s, digits) == n
}

/// Whether a text spells a number.
pub fn is_number_literal(text: &str) -> (r: bool)
    ensures
        r == is_number(text.spec_bytes()),
{
    let s = text.as_bytes();
    let n: usize = s.len();
    let from: usize = if n > 0 && (s[0] == 43 || s[0] == 45) {
        1
    } else {
        0
    };
    let inf: [u8; 3] = [105, 110, 102];
    let infinity: [u8; 8] = [105, 110, 102, 105, 110, 105, 116, 121];
    let nan: [u8; 3] = [110, 97, 110];
    proof {
        assert(inf@ =~= seq![105u8, 110u8, 102u8]);
        assert(infinity@ =~= seq![105u8, 110u8, 102u8, 105u8, 110u8, 105u8, 116u8, 121u8]);
        assert(nan@ =~= seq![110u8, 97u8, 110u8]);
    }
    if spells_word(s, from, inf.as_slice()) || spells_word(s, from, infinity.as_slice())
        || spells_word(s, from, nan.as_slice()) {
        return true;
    }
    let whole_end = skip_digits(s, from);
    let fraction_start: usize = if whole_end < n && s[whole_end] == 46 {
        whole_end + 1
    } else {
        whole_end
    };
    let fraction_end = skip_digits(s, fraction_start);
    let digits: usize = (whole_end - from) + (fraction_end - fraction_start);
    digits > 0 && (fraction_end == n || exponent_at(s, fraction_end))
}

} // verus!
