//! The bencode grammar, as functions on sequences of bytes.
//!
//! Each function reads one construct that starts at index `pos` of the
//! input `s`.  It yields what it read, paired with the index of the first
//! byte after it, or the failure that stopped it.
//!
//! The grammar is permissive about integers: leading zeros are accepted
//! (`i03e` is 3) and `i-0e` is 0.  A list holds at least one element and a
//! dictionary at least one entry, so `le` and `de` are rejected.  Where a
//! key occurs twice in a dictionary, the later value replaces the earlier
//! one.
use vstd::prelude::*;
use crate::error::{Failure, ParseErrorKind};
use crate::model::{with_entry, Value};

verus! {

/// What reading a construct yields: the construct and the index of the
/// first byte after it, or a failure.
pub type Reading<T> = Result<(T, int), Failure>;

/// `i`, which opens an integer literal.
pub const INTEGER: u8 = 0x69;

/// `l`, which opens a list.
pub const LIST: u8 = 0x6c;

/// `d`, which opens a dictionary.
pub const DICT: u8 = 0x64;

/// `e`, which closes an integer literal, a list and a dictionary.
pub const END: u8 = 0x65;

/// `-`, the sign of a negative integer.
pub const MINUS: u8 = 0x2d;

/// `:`, which ends a length prefix.
pub const COLON: u8 = 0x3a;

/// The digit `0`.
pub const ZERO: u8 = 0x30;

/// The digit `9`.
pub const NINE: u8 = 0x39;

/// The largest magnitude of a negative integer, 2^63.
pub const MAGNITUDE_LIMIT: u64 = 0x8000_0000_0000_0000;

pub open spec fn is_digit(byte: u8) -> bool {
    ZERO <= byte <= NINE
}

/// A failure of the given kind at the given index.
pub open spec fn failure<T>(kind: ParseErrorKind, at: int) -> Reading<T> {
    Err(Failure { kind, at })
}

/// The index just past the longest run of decimal digits that starts at
/// `pos`; `pos` itself where no digit stands there.
pub open spec fn digits_end(s: Seq<u8>, pos: int) -> int
    decreases s.len() - pos,
{
    if 0 <= pos < s.len() && is_digit(s[pos]) {
        digits_end(s, pos + 1)
    } else {
        pos
    }
}

/// The number that a run of decimal digits writes, most significant digit
/// first.
pub open spec fn decimal(digits: Seq<u8>) -> nat
    decreases digits.len(),
{
    if digits.len() == 0 {
        0
    } else {
        (decimal(digits.drop_last()) * 10 + (digits.last() - ZERO)) as nat
    }
}

/// An integer literal: `i`, an optional `-`, one or more digits, `e`.
///
/// A literal that lacks its `i`, its digits or its `e` is malformed, at the
/// index where the missing byte was looked for.  Digits that write a number
/// outside the signed 64-bit range are an overflow, found at the index
/// after the `i` and before the `e` is looked for.
pub open spec fn spec_number(s: Seq<u8>, pos: int) -> Reading<i64> {
    if !(0 <= pos < s.len()) || s[pos] != INTEGER {
        failure(ParseErrorKind::MalformedInteger, pos)
    } else {
        let negative = pos + 1 < s.len() && s[pos + 1] == MINUS;
        let first = if negative { pos + 2 } else { pos + 1 };
        let end = digits_end(s, first);
        let magnitude = decimal(s.subrange(first, end));
        if end == first {
            failure(ParseErrorKind::MalformedInteger, first)
        } else if magnitude > MAGNITUDE_LIMIT || (!negative && magnitude == MAGNITUDE_LIMIT) {
            failure(ParseErrorKind::IntegerOverflow, pos + 1)
        } else if !(end < s.len()) || s[end] != END {
            failure(ParseErrorKind::MalformedInteger, end)
        } else if negative {
            Ok(((-magnitude) as i64, end + 1))
        } else {
            Ok((magnitude as i64, end + 1))
        }
    }
}

/// A length prefix: one or more digits, then `:`.
///
/// A prefix that lacks its digits or its `:` is malformed, at the index
/// after the digits.  A length that no `usize` can hold is reported as
/// truncated input, at the index after the `:`: no slice is long enough to
/// hold that many bytes.
pub open spec fn spec_length(s: Seq<u8>, pos: int) -> Reading<usize> {
    let end = digits_end(s, pos);
    let length = decimal(s.subrange(pos, end));
    if end == pos || !(end < s.len()) || s[end] != COLON {
        failure(ParseErrorKind::MalformedLength, end)
    } else if length > usize::MAX {
        failure(ParseErrorKind::TruncatedInput, end + 1)
    } else {
        Ok((length as usize, end + 1))
    }
}

/// A byte string: a length prefix, then exactly that many bytes.
///
/// Where fewer bytes follow the `:` than the prefix declares, the input is
/// truncated, at the index after the `:`.
pub open spec fn spec_bytes(s: Seq<u8>, pos: int) -> Reading<Seq<u8>> {
    match spec_length(s, pos) {
        Err(f) => Err(f),
        Ok((length, start)) => {
            if length > s.len() - start {
                failure(ParseErrorKind::TruncatedInput, start)
            } else {
                Ok((s.subrange(start, start + length), start + length))
            }
        },
    }
}

/// Any of the four forms, told apart by the first byte: `i` begins an
/// integer, a digit a byte string, `l` a list and `d` a dictionary.  Any
/// other byte, and the end of the input, matches no variant.  `depth` is
/// the number of lists and dictionaries that may still be opened inside one
/// another.  A failure inside a list or a dictionary is the failure of the
/// whole value.
pub open spec fn spec_value(s: Seq<u8>, pos: int, depth: nat) -> Reading<Value>
    decreases s.len() - pos, 1int,
{
    if !(0 <= pos < s.len()) {
        failure(ParseErrorKind::NoMatchingVariant, pos)
    } else if s[pos] == INTEGER {
        match spec_number(s, pos) {
            Ok((n, next)) => Ok((Value::Number(n), next)),
            Err(f) => Err(f),
        }
    } else if is_digit(s[pos]) {
        match spec_bytes(s, pos) {
            Ok((bytes, next)) => Ok((Value::Bytes(bytes), next)),
            Err(f) => Err(f),
        }
    } else if s[pos] == LIST {
        match spec_list(s, pos, depth) {
            Ok((items, next)) => Ok((Value::List(items), next)),
            Err(f) => Err(f),
        }
    } else if s[pos] == DICT {
        match spec_dict(s, pos, depth) {
            Ok((entries, next)) => Ok((Value::Dict(entries), next)),
            Err(f) => Err(f),
        }
    } else {
        failure(ParseErrorKind::NoMatchingVariant, pos)
    }
}

/// A list: `l`, one or more values, `e`.
///
/// With no `l` at `pos` no variant matches; with a `depth` of 0 the list is
/// nested too deep, at `pos`.
pub open spec fn spec_list(s: Seq<u8>, pos: int, depth: nat) -> Reading<Seq<Value>>
    decreases s.len() - pos, 0int,
{
    if !(0 <= pos < s.len()) || s[pos] != LIST {
        failure(ParseErrorKind::NoMatchingVariant, pos)
    } else if depth == 0 {
        failure(ParseErrorKind::NestingTooDeep, pos)
    } else {
        spec_items(s, pos + 1, (depth - 1) as nat, Seq::empty())
    }
}

/// A dictionary: `d`, one or more pairs of a byte string and a value, `e`.
///
/// With no `d` at `pos` no variant matches; with a `depth` of 0 the
/// dictionary is nested too deep, at `pos`.
pub open spec fn spec_dict(s: Seq<u8>, pos: int, depth: nat) -> Reading<Seq<(Seq<u8>, Value)>>
    decreases s.len() - pos, 0int,
{
    if !(0 <= pos < s.len()) || s[pos] != DICT {
        failure(ParseErrorKind::NoMatchingVariant, pos)
    } else if depth == 0 {
        failure(ParseErrorKind::NestingTooDeep, pos)
    } else {
        spec_pairs(s, pos + 1, (depth - 1) as nat, Seq::empty())
    }
}

/// The elements of a list from `pos` up to the closing `e`, appended to
/// those read so far.
///
/// A value spans at least one byte, so the next element always starts
/// further on; the input ending before an `e` leaves the list unterminated.
pub open spec fn spec_items(s: Seq<u8>, pos: int, depth: nat, read: Seq<Value>) -> Reading<
    Seq<Value>,
>
    decreases s.len() - pos, 2int,
{
    if !(0 <= pos < s.len()) {
        failure(ParseErrorKind::UnterminatedContainer, s.len() as int)
    } else {
        match spec_value(s, pos, depth) {
            Err(f) => Err(f),
            Ok((value, next)) => {
                if next < s.len() && s[next] == END {
                    Ok((read.push(value), next + 1))
                } else if pos < next < s.len() {
                    spec_items(s, next, depth, read.push(value))
                } else {
                    failure(ParseErrorKind::UnterminatedContainer, s.len() as int)
                }
            },
        }
    }
}

/// The entries of a dictionary from `pos` up to the closing `e`, set one
/// after another in the entries read so far.
///
/// A key and a value each span at least one byte, so what follows them
/// always starts further on; the input ending before an `e` leaves the
/// dictionary unterminated.
pub open spec fn spec_pairs(
    s: Seq<u8>,
    pos: int,
    depth: nat,
    read: Seq<(Seq<u8>, Value)>,
) -> Reading<Seq<(Seq<u8>, Value)>>
    decreases s.len() - pos, 2int,
{
    if !(0 <= pos < s.len()) {
        failure(ParseErrorKind::UnterminatedContainer, s.len() as int)
    } else {
        match spec_bytes(s, pos) {
            Err(f) => Err(f),
            Ok((key, mid)) => {
                if pos < mid < s.len() {
                    match spec_value(s, mid, depth) {
                        Err(f) => Err(f),
                        Ok((value, next)) => {
                            if next < s.len() && s[next] == END {
                                Ok((with_entry(read, key, value), next + 1))
                            } else if mid < next < s.len() {
                                spec_pairs(s, next, depth, with_entry(read, key, value))
                            } else {
                                failure(ParseErrorKind::UnterminatedContainer, s.len() as int)
                            }
                        },
                    }
                } else {
                    failure(ParseErrorKind::UnterminatedContainer, s.len() as int)
                }
            },
        }
    }
}

/// One value read from the start of `s`, with at most `max_depth` lists and
/// dictionaries inside one another.
pub open spec fn decode(s: Seq<u8>, max_depth: nat) -> Reading<Value> {
    spec_value(s, 0, max_depth)
}

} // verus!
