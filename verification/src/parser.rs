//! Fixed-point numeric parser for value bytes of the form `-?[0-9]{1,3}\.[0-9]`:
//! at most three integer digits and exactly one fractional digit. The result
//! is the value in tenths of a unit, so no floating point is involved. The
//! narrow format is a deliberate domain constraint of the expected value
//! range; it is validated, not generalized.

use vstd::prelude::*;
use crate::records::MAX_TENTHS;

verus! {

/// The byte that separates a key from its value within a line.
pub const SEMICOLON: u8 = 59;

/// The byte that terminates a record.
pub const NEWLINE: u8 = 10;

/// A leading sign byte.
pub const MINUS: u8 = 45;

/// The decimal point byte.
pub const PERIOD: u8 = 46;

pub open spec fn is_ascii_digit(b: u8) -> bool {
    48 <= b <= 57
}

pub open spec fn all_digits(s: Seq<u8>) -> bool {
    forall|i: int| 0 <= i < s.len() ==> is_ascii_digit(s[i])
}

/// Numeric value of a big-endian run of ASCII digits.
pub open spec fn digits_value(s: Seq<u8>) -> int
    decreases s.len(),
{
    if s.len() == 0 {
        0
    } else {
        10 * digits_value(s.drop_last()) + (s.last() - 48)
    }
}

/// Does `s` match `[0-9]{1,3}\.[0-9]`?
pub open spec fn unsigned_value_format(s: Seq<u8>) -> bool {
    &&& 3 <= s.len() <= 5
    &&& s[s.len() - 2] == PERIOD
    &&& all_digits(s.take(s.len() - 2))
    &&& is_ascii_digit(s.last())
}

/// Value in tenths of `[0-9]{1,3}\.[0-9]`.
pub open spec fn unsigned_tenths(s: Seq<u8>) -> int {
    10 * digits_value(s.take(s.len() - 2)) + (s.last() - 48)
}

/// Does `s` match `-?[0-9]{1,3}\.[0-9]`?
pub open spec fn is_value(s: Seq<u8>) -> bool {
    if s.len() > 0 && s[0] == MINUS {
        unsigned_value_format(s.skip(1))
    } else {
        unsigned_value_format(s)
    }
}

/// Value of `-?[0-9]{1,3}\.[0-9]` in tenths of a unit.
pub open spec fn value_of(s: Seq<u8>) -> int
    recommends
        is_value(s),
{
    if s.len() > 0 && s[0] == MINUS {
        -unsigned_tenths(s.skip(1))
    } else {
        unsigned_tenths(s)
    }
}

proof fn lemma_digits_value_bound(s: Seq<u8>)
    requires
        all_digits(s),
    ensures
        0 <= digits_value(s),
        s.len() <= 1 ==> digits_value(s) <= 9,
        s.len() <= 2 ==> digits_value(s) <= 99,
        s.len() <= 3 ==> digits_value(s) <= 999,
    decreases s.len(),
{
    if s.len() > 0 {
        lemma_digits_value_bound(s.drop_last());
    }
}

/// A value in the accepted format always lies within `-999.9 ..= 999.9`.
pub proof fn lemma_value_range(s: Seq<u8>)
    requires
        is_value(s),
    ensures
        -(MAX_TENTHS as int) <= value_of(s) <= MAX_TENTHS as int,
{
    if s.len() > 0 && s[0] == MINUS {
        lemma_digits_value_bound(s.skip(1).take(s.skip(1).len() - 2));
    } else {
        lemma_digits_value_bound(s.take(s.len() - 2));
    }
}

/// Parse value bytes of the form `-?[0-9]{1,3}\.[0-9]` into tenths of a
/// unit. Returns `None` exactly on input that does not match the format.
pub fn parse_ascii_digits(buffer: &[u8]) -> (r: Option<i32>)
    ensures
        r is Some <==> is_value(buffer@),
        r matches Some(v) ==> v == value_of(buffer@) && -MAX_TENTHS <= v <= MAX_TENTHS,
{
    let n = buffer.len();
    let neg = n > 0 && buffer[0] == MINUS;
    let off: usize = if neg { 1 } else { 0 };
    let ghost u: Seq<u8> = if neg { buffer@.skip(1) } else { buffer@ };
    let m = n - off;
    if m < 3 || m > 5 {
        return None;
    }
    if buffer[n - 2] != PERIOD {
        assert(u[u.len() - 2] == buffer@[n - 2]);
        return None;
    }
    let frac = buffer[n - 1];
    if frac < 48 || frac > 57 {
        assert(u.last() == buffer@[n - 1]);
        return None;
    }
    let mut acc: i32 = 0;
    let mut i: usize = off;
    while i < n - 2
        invariant
            off <= i <= n - 2,
            n == buffer@.len(),
            off <= 1,
            off == 1 <==> (buffer@.len() > 0 && buffer@[0] == MINUS),
            3 <= n - off <= 5,
            u == (if off == 1 { buffer@.skip(1) } else { buffer@ }),
            all_digits(u.take(i - off)),
            acc == digits_value(u.take(i - off)),
            0 <= acc <= 999,
        decreases n - 2 - i,
    {
        let b = buffer[i];
        if b < 48 || b > 57 {
            proof {
                assert(u.take(u.len() - 2)[i - off] == buffer@[i as int]);
                assert(!is_ascii_digit(u.take(u.len() - 2)[i - off]));
                assert(!all_digits(u.take(u.len() - 2)));
            }
            return None;
        }
        proof {
            assert(u.take(i + 1 - off).drop_last() =~= u.take(i - off));
            assert(u.take(i + 1 - off).last() == buffer@[i as int]);
            lemma_digits_value_bound(u.take(i + 1 - off));
        }
        acc = acc * 10 + (b - 48) as i32;
        i = i + 1;
    }
    let v: i32 = acc * 10 + (frac - 48) as i32;
    proof {
        assert(u.take(u.len() - 2) =~= u.take(i - off));
        assert(u.last() == buffer@[n - 1]);
        assert(is_value(buffer@));
        assert(v == unsigned_tenths(u));
    }
    if neg {
        Some(-v)
    } else {
        Some(v)
    }
}

} // verus!
