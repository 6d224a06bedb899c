//! Parsing of one record: the key/value split and the fixed-point value.
use vstd::prelude::*;
use vstd::slice::slice_subrange;

verus! {

pub const MINUS: u8 = 45;
pub const DOT: u8 = 46;
pub const ZERO: u8 = 48;
pub const NINE: u8 = 57;
pub const SEMICOLON: u8 = 59;
pub const CARRIAGE_RETURN: u8 = 13;
pub const NEWLINE: u8 = 10;

pub open spec fn is_digit(b: u8) -> bool {
    48 <= b <= 57
}

pub open spec fn all_digits(s: Seq<u8>) -> bool {
    forall|i: int| 0 <= i < s.len() ==> is_digit(#[trigger] s[i])
}

/// The number written by a sequence of decimal digits.
pub open spec fn digits_value(s: Seq<u8>) -> int
    decreases s.len(),
{
    if s.len() == 0 {
        0
    } else {
        digits_value(s.drop_last()) * 10 + (s.last() - 48)
    }
}

/// One or more digits, a `.`, and exactly one digit.
pub open spec fn is_unsigned_decimal(s: Seq<u8>) -> bool {
    &&& s.len() >= 3
    &&& s[s.len() - 2] == 46
    &&& all_digits(s.subrange(0, s.len() - 2))
    &&& is_digit(s[s.len() - 1])
}

/// The value × 10 of an unsigned decimal with one fractional digit.
pub open spec fn unsigned_scaled(s: Seq<u8>) -> int {
    digits_value(s.subrange(0, s.len() - 2)) * 10 + (s[s.len() - 1] - 48)
}

pub open spec fn is_negative(s: Seq<u8>) -> bool {
    s.len() > 0 && s[0] == 45
}

/// The largest magnitude an `i16` holds with the sign that `s` has.
pub open spec fn magnitude_limit(s: Seq<u8>) -> int {
    if is_negative(s) {
        32768
    } else {
        32767
    }
}

/// The bytes after an optional leading `-`.
pub open spec fn magnitude_part(s: Seq<u8>) -> Seq<u8> {
    if is_negative(s) {
        s.drop_first()
    } else {
        s
    }
}

/// The scaled value written by `s`, when `s` is an optional `-`, one or more
/// digits, a `.` and one digit, and the value fits in an `i16`.
pub open spec fn fixed_point_value(s: Seq<u8>) -> Option<i16> {
    let m = magnitude_part(s);
    if is_unsigned_decimal(m) && unsigned_scaled(m) <= magnitude_limit(s) {
        Some(
            (if is_negative(s) {
                -unsigned_scaled(m)
            } else {
                unsigned_scaled(m)
            }) as i16,
        )
    } else {
        None
    }
}

/// `i` is where the first `b` in `s` stands, or `s.len()` when there is none.
pub open spec fn is_first_index(s: Seq<u8>, b: u8, i: int) -> bool {
    &&& 0 <= i <= s.len()
    &&& i < s.len() ==> s[i] == b
    &&& forall|j: int| 0 <= j < i ==> s[j] != b
}

/// The position of the first `b` in `s`, or `s.len()` when there is none.
pub open spec fn first_index(s: Seq<u8>, b: u8) -> int
    decreases s.len(),
{
    if s.len() == 0 {
        0
    } else if s[0] == b {
        0
    } else {
        1 + first_index(s.drop_first(), b)
    }
}

pub proof fn lemma_first_index(s: Seq<u8>, b: u8)
    ensures
        is_first_index(s, b, first_index(s, b)),
        forall|i: int| is_first_index(s, b, i) ==> i == first_index(s, b),
    decreases s.len(),
{
    if s.len() > 0 && s[0] != b {
        lemma_first_index(s.drop_first(), b);
        let k = first_index(s.drop_first(), b);
        assert forall|j: int| 0 <= j < first_index(s, b) implies s[j] != b by {
            if j > 0 {
                assert(s[j] == s.drop_first()[j - 1]);
            }
        }
        assert forall|i: int| is_first_index(s, b, i) implies i == first_index(s, b) by {
            if i < first_index(s, b) {
                assert(s.drop_first()[i - 1] == s[i]);
            } else if i > first_index(s, b) {
                assert(s.drop_first()[k] == s[k + 1]);
            }
        }
    }
}

/// The value bytes with one trailing carriage return removed.
pub open spec fn strip_cr(s: Seq<u8>) -> Seq<u8> {
    if s.len() > 0 && s.last() == 13 {
        s.drop_last()
    } else {
        s
    }
}

/// The key and scaled value of a line, or `None` for a line without `;` or
/// with a malformed value.
pub open spec fn record_of(line: Seq<u8>) -> Option<(Seq<u8>, i16)> {
    let i = first_index(line, 59);
    if i < line.len() {
        match fixed_point_value(strip_cr(line.subrange(i + 1, line.len() as int))) {
            Some(v) => Some((line.subrange(0, i), v)),
            None => None,
        }
    } else {
        None
    }
}

/// Relies on memchr::memchr: the index of the first occurrence of `needle`,
/// or `None` when the haystack does not hold it.
pub assume_specification[ memchr::memchr ](needle: u8, haystack: &[u8]) -> (r: Option<usize>)
    ensures
        match r {
            Some(i) => is_first_index(haystack@, needle, i as int) && i < haystack@.len(),
            None => is_first_index(haystack@, needle, haystack@.len() as int),
        },
;

/// Position of the first `b` in `s`, or `s.len()`.
pub fn find_byte(b: u8, s: &[u8]) -> (r: usize)
    ensures
        r == first_index(s@, b),
{
    proof {
        lemma_first_index(s@, b);
    }
    match memchr::memchr(b, s) {
        Some(i) => i,
        None => s.len(),
    }
}

proof fn lemma_digits_nonneg(s: Seq<u8>)
    requires
        all_digits(s),
    ensures
        digits_value(s) >= 0,
    decreases s.len(),
{
    if s.len() > 0 {
        assert(all_digits(s.drop_last())) by {
            assert forall|i: int| 0 <= i < s.len() - 1 implies is_digit(#[trigger] s.drop_last()[i]) by {
                assert(s.drop_last()[i] == s[i]);
            }
        }
        lemma_digits_nonneg(s.drop_last());
        assert(is_digit(s[s.len() - 1]));
    }
}

/// A digit string is worth at least as much as any of its prefixes.
proof fn lemma_digits_prefix_le(s: Seq<u8>, j: int)
    requires
        all_digits(s),
        0 <= j <= s.len(),
    ensures
        digits_value(s.subrange(0, j)) <= digits_value(s),
    decreases s.len(),
{
    if j < s.len() {
        let t = s.drop_last();
        assert(all_digits(t)) by {
            assert forall|i: int| 0 <= i < t.len() implies is_digit(#[trigger] t[i]) by {
                assert(t[i] == s[i]);
            }
        }
        lemma_digits_prefix_le(t, j);
        assert(t.subrange(0, j) =~= s.subrange(0, j));
        lemma_digits_nonneg(t);
        assert(is_digit(s[s.len() - 1]));
    } else {
        assert(s.subrange(0, j) =~= s);
    }
}

/// Parses an optional `-`, one or more digits, a `.` and exactly one digit
/// into the value × 10. Anything else, or a value beyond `i16`, gives
/// `None`.
pub fn parse_fixed_point(temp_bytes: &[u8]) -> (r: Option<i16>)
    ensures
        r == fixed_point_value(temp_bytes@),
{
    let n = temp_bytes.len();
    let negative = n > 0 && temp_bytes[0] == MINUS;
    let start: usize = if negative { 1 } else { 0 };
    let ghost s = temp_bytes@;
    let ghost m = magnitude_part(s);
    assert(m =~= s.subrange(start as int, n as int));
    if n - start < 3 {
        return None;
    }
    if temp_bytes[n - 2] != DOT {
        return None;
    }
    let last = temp_bytes[n - 1];
    if last < ZERO || last > NINE {
        return None;
    }
    let ghost int_part = m.subrange(0, m.len() - 2);
    let mut value: u32 = 0;
    let mut i: usize = start;
    while i < n - 2
        invariant
            n == s.len(),
            s == temp_bytes@,
            n >= start + 3,
            start <= i <= n - 2,
            m =~= s.subrange(start as int, n as int),
            m == magnitude_part(s),
            int_part == m.subrange(0, m.len() - 2),
            all_digits(int_part.subrange(0, i - start)),
            value == digits_value(int_part.subrange(0, i - start)),
            value <= 32768,
            negative == is_negative(s),
        decreases n - 2 - i,
    {
        let b = temp_bytes[i];
        assert(int_part[i - start] == b);
        if b < ZERO || b > NINE {
            assert(!is_digit(int_part[i - start]));
            assert(!all_digits(int_part));
            assert(!is_unsigned_decimal(m));
            return None;
        }
        let ghost prev = int_part.subrange(0, i - start);
        value = value * 10 + (b - ZERO) as u32;
        i = i + 1;
        let ghost cur = int_part.subrange(0, i - start);
        assert(cur.drop_last() =~= prev);
        assert(all_digits(cur)) by {
            assert forall|k: int| 0 <= k < cur.len() implies is_digit(#[trigger] cur[k]) by {
                if k < prev.len() {
                    assert(cur[k] == prev[k]);
                }
            }
        }
        if value > 32768 {
            proof {
                if is_unsigned_decimal(m) {
                    assert(all_digits(int_part));
                    lemma_digits_prefix_le(int_part, i - start);
                    lemma_digits_nonneg(int_part);
                    assert(unsigned_scaled(m) >= digits_value(int_part));
                }
            }
            return None;
        }
    }
    assert(int_part.subrange(0, i - start) =~= int_part);
    let scaled: u32 = value * 10 + (last - ZERO) as u32;
    let limit: u32 = if negative { 32768 } else { 32767 };
    if scaled > limit {
        return None;
    }
    let signed: i32 = if negative { -(scaled as i32) } else { scaled as i32 };
    Some(signed as i16)
}

/// Splits a line at its first `;` and parses what follows, with one trailing
/// carriage return removed. Returns the key's length and the scaled value.
pub fn split_record(line: &[u8]) -> (r: Option<(usize, i16)>)
    ensures
        match r {
            Some((k, v)) => k < line@.len() && record_of(line@) == Some((line@.subrange(0, k as int), v)),
            None => record_of(line@) is None,
        },
{
    let idx = find_byte(SEMICOLON, line);
    if idx >= line.len() {
        return None;
    }
    let mut end = line.len();
    if end > idx + 1 && line[end - 1] == CARRIAGE_RETURN {
        end = end - 1;
    }
    let value_bytes = slice_subrange(line, idx + 1, end);
    assert(value_bytes@ =~= strip_cr(line@.subrange(idx + 1, line@.len() as int)));
    match parse_fixed_point(value_bytes) {
        Some(v) => Some((idx, v)),
        None => None,
    }
}

} // verus!
