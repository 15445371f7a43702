//! Parsing one `name;value` record into a station name and a fixed-point
//! temperature.
//!
//! The value is an optionally signed decimal with an implicit scale of ten:
//! every ASCII digit feeds a base-10 accumulator and every other byte (the
//! decimal point in particular) is skipped, so `-3.2` parses to `-32`.

use crate::PipelineError;
use vstd::prelude::*;

verus! {

/// The byte that separates the station name from the value inside a record.
pub const FIELD_SEPARATOR: u8 = 59;

/// The byte that terminates a record.
pub const RECORD_TERMINATOR: u8 = 10;

/// The leading byte that negates a value.
pub const MINUS_SIGN: u8 = 45;

/// Largest magnitude the fixed-point value may take: it must fit in `i16`.
pub const MAX_MAGNITUDE: u16 = 32767;

pub open spec fn is_ascii_digit(b: u8) -> bool {
    48 <= b && b <= 57
}

/// Value of the digit bytes of `s` folded left in base 10, with every
/// non-digit byte skipped.
pub open spec fn digits_value(s: Seq<u8>) -> int
    decreases s.len(),
{
    if s.len() == 0 {
        0
    } else if is_ascii_digit(s.last()) {
        digits_value(s.drop_last()) * 10 + (s.last() - 48)
    } else {
        digits_value(s.drop_last())
    }
}

pub open spec fn has_digit(s: Seq<u8>) -> bool {
    exists|i: int| 0 <= i < s.len() && is_ascii_digit(s[i])
}

/// Does the value field start with a minus sign?
pub open spec fn value_negative(s: Seq<u8>) -> bool {
    s.len() > 0 && s[0] == MINUS_SIGN
}

/// The digit-bearing part of the value field: everything after an optional
/// leading minus sign.
pub open spec fn value_digits(s: Seq<u8>) -> Seq<u8> {
    if value_negative(s) {
        s.skip(1)
    } else {
        s
    }
}

/// The fixed-point number a value field denotes.
pub open spec fn value_of(s: Seq<u8>) -> int {
    if value_negative(s) {
        -digits_value(value_digits(s))
    } else {
        digits_value(value_digits(s))
    }
}

/// A value field is accepted when it is non-empty, holds at least one digit,
/// and its magnitude fits the fixed-point representation.
pub open spec fn value_valid(s: Seq<u8>) -> bool {
    &&& s.len() > 0
    &&& has_digit(value_digits(s))
    &&& digits_value(value_digits(s)) <= MAX_MAGNITUDE
}

pub proof fn lemma_digits_value_nonneg(s: Seq<u8>)
    ensures
        digits_value(s) >= 0,
    decreases s.len(),
{
    if s.len() > 0 {
        lemma_digits_value_nonneg(s.drop_last());
    }
}

/// Appending bytes to a value field never shrinks the accumulated number.
pub proof fn lemma_digits_value_prefix_le(s: Seq<u8>, i: int)
    requires
        0 <= i <= s.len(),
    ensures
        digits_value(s.take(i)) <= digits_value(s),
    decreases s.len() - i,
{
    if i < s.len() {
        lemma_digits_value_prefix_le(s, i + 1);
        assert(s.take(i + 1).drop_last() =~= s.take(i));
        assert(s.take(i + 1).last() == s[i]);
        lemma_digits_value_nonneg(s.take(i));
    } else {
        assert(s.take(i) =~= s);
    }
}

/// Parse the value field of a record: an optional minus sign, then digits in
/// base 10 with non-digit bytes skipped.
pub fn parse_temperature(temp: &[u8]) -> (r: Result<i16, PipelineError>)
    ensures
        r is Ok <==> value_valid(temp@),
        r matches Ok(v) ==> v == value_of(temp@),
        r matches Err(e) ==> e == PipelineError::RecordFormatFailure,
{
    let n = temp.len();
    if n == 0 {
        return Err(PipelineError::RecordFormatFailure);
    }
    let negative = temp[0] == MINUS_SIGN;
    let start: usize = if negative {
        1
    } else {
        0
    };
    let ghost body = value_digits(temp@);
    proof {
        assert(body =~= temp@.skip(start as int));
    }
    let mut acc: u32 = 0;
    let mut found = false;
    let mut j: usize = 0;
    while j < n - start
        invariant
            0 <= start <= 1,
            start <= n == temp@.len(),
            0 <= j <= n - start,
            body == temp@.skip(start as int),
            body == value_digits(temp@),
            negative == value_negative(temp@),
            body.len() == n - start,
            acc == digits_value(body.take(j as int)),
            acc <= MAX_MAGNITUDE,
            found == has_digit(body.take(j as int)),
        decreases n - start - j,
    {
        let b = temp[start + j];
        assert(body[j as int] == b);
        assert(body.take(j + 1).drop_last() =~= body.take(j as int));
        assert(body.take(j + 1).last() == b);
        if 48 <= b && b <= 57 {
            let digit = (b - 48) as u32;
            let next = acc * 10 + digit;
            if next > MAX_MAGNITUDE as u32 {
                proof {
                    assert(digits_value(body.take(j + 1)) == acc * 10 + digit);
                    lemma_digits_value_prefix_le(body, j + 1);
                    assert(digits_value(value_digits(temp@)) > MAX_MAGNITUDE);
                }
                return Err(PipelineError::RecordFormatFailure);
            }
            acc = next;
            found = true;
            proof {
                assert(is_ascii_digit(body.take(j + 1)[j as int]));
            }
        } else {
            proof {
                if has_digit(body.take(j + 1)) {
                    let i = choose|i: int|
                        0 <= i < body.take(j + 1).len() && #[trigger] is_ascii_digit(
                            body.take(j + 1)[i],
                        );
                    assert(i < j && body.take(j as int)[i] == body.take(j + 1)[i]);
                }
                if has_digit(body.take(j as int)) {
                    let i = choose|i: int|
                        0 <= i < body.take(j as int).len() && #[trigger] is_ascii_digit(
                            body.take(j as int)[i],
                        );
                    assert(is_ascii_digit(body.take(j + 1)[i]));
                }
            }
        }
        j = j + 1;
    }
    proof {
        assert(body.take(j as int) =~= body);
    }
    if !found {
        return Err(PipelineError::RecordFormatFailure);
    }
    if negative {
        Ok(-(acc as i16))
    } else {
        Ok(acc as i16)
    }
}

/// Does `s` hold the byte `b` anywhere?
pub open spec fn contains_byte(s: Seq<u8>, b: u8) -> bool {
    exists|i: int| 0 <= i < s.len() && #[trigger] s[i] == b
}

/// Index of the first occurrence of `b` in `s` (meaningful only when one is
/// present).
pub open spec fn first_index_of(s: Seq<u8>, b: u8) -> int
    decreases s.len(),
{
    if s.len() == 0 {
        0
    } else if s[0] == b {
        0
    } else {
        1 + first_index_of(s.skip(1), b)
    }
}

pub proof fn lemma_first_index_of(s: Seq<u8>, b: u8)
    requires
        contains_byte(s, b),
    ensures
        0 <= first_index_of(s, b) < s.len(),
        s[first_index_of(s, b)] == b,
        forall|j: int| 0 <= j < first_index_of(s, b) ==> s[j] != b,
    decreases s.len(),
{
    if s[0] != b {
        let t = s.skip(1);
        assert(contains_byte(t, b)) by {
            let i = choose|i: int| 0 <= i < s.len() && #[trigger] s[i] == b;
            assert(t[i - 1] == s[i]);
        }
        lemma_first_index_of(t, b);
        assert forall|j: int| 0 <= j < first_index_of(s, b) implies s[j] != b by {
            if j > 0 {
                assert(t[j - 1] == s[j]);
            }
        }
    }
}

pub open spec fn has_separator(s: Seq<u8>) -> bool {
    contains_byte(s, FIELD_SEPARATOR)
}

/// Index of the first field separator of `s` (meaningful only when one is
/// present).
pub open spec fn separator_index(s: Seq<u8>) -> int {
    first_index_of(s, FIELD_SEPARATOR)
}

pub proof fn lemma_separator_index(s: Seq<u8>)
    requires
        has_separator(s),
    ensures
        0 <= separator_index(s) < s.len(),
        s[separator_index(s)] == FIELD_SEPARATOR,
        forall|j: int| 0 <= j < separator_index(s) ==> s[j] != FIELD_SEPARATOR,
{
    lemma_first_index_of(s, FIELD_SEPARATOR);
}

/// Everything of a record before its first field separator: the station name.
pub open spec fn record_name(line: Seq<u8>) -> Seq<u8> {
    line.take(separator_index(line))
}

/// The fixed-point value a record denotes: the value of everything after the
/// first field separator.
pub open spec fn record_value(line: Seq<u8>) -> int {
    value_of(line.skip(separator_index(line) + 1))
}

/// A record is accepted when it has a field separator and a valid value
/// field after it.
pub open spec fn record_valid(line: Seq<u8>) -> bool {
    has_separator(line) && value_valid(line.skip(separator_index(line) + 1))
}

/// Split one record at its first field separator into the station name and
/// the fixed-point temperature.  The name is taken as found; text validity
/// is enforced only when the report is rendered.
pub fn parse_measurement(line: &[u8]) -> (r: Result<(Vec<u8>, i16), PipelineError>)
    ensures
        r is Ok <==> record_valid(line@),
        r matches Ok(p) ==> p.0@ == record_name(line@) && p.1 == record_value(line@),
        r matches Err(e) ==> e == PipelineError::RecordFormatFailure,
{
    let n = line.len();
    let mut i: usize = 0;
    while i < n
        invariant
            0 <= i <= n == line@.len(),
            forall|j: int| 0 <= j < i ==> line@[j] != FIELD_SEPARATOR,
        decreases n - i,
    {
        if line[i] == FIELD_SEPARATOR {
            proof {
                lemma_separator_index(line@);
                assert(separator_index(line@) == i) by {
                    let k = separator_index(line@);
                    assert(!(k < i) && !(i < k));
                }
            }
            let name = vstd::slice::slice_to_vec(vstd::slice::slice_subrange(line, 0, i));
            let value_field = vstd::slice::slice_subrange(line, i + 1, n);
            let value = parse_temperature(value_field)?;
            return Ok((name, value));
        }
        i = i + 1;
    }
    proof {
        assert(!has_separator(line@));
    }
    Err(PipelineError::RecordFormatFailure)
}

} // verus!
