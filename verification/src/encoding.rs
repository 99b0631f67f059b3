//! The encoding of a value, and what decoding owes to it.
//!
//! [`encoding`] writes a value the way a conformant encoder does: integers
//! in decimal without leading zeros, byte strings behind their length, the
//! elements of a list and the entries of a dictionary in their order.  The
//! proof functions of this module state what the grammar does with such
//! bytes.
use vstd::prelude::*;
use crate::error::{Failure, ParseErrorKind};
use crate::grammar::{
    decimal, decode, digits_end, failure, is_digit, spec_bytes, spec_dict, spec_items,
    spec_length, spec_list, spec_number, spec_pairs, spec_value, COLON, DICT, END, INTEGER,
    LIST, MAGNITUDE_LIMIT, MINUS, ZERO,
};
use crate::model::{distinct_keys, has_key, with_entry_keeps_keys_distinct, with_entry, Value};

verus! {

/// The decimal digits of a number, most significant first, without leading
/// zeros.
pub open spec fn decimal_digits(n: nat) -> Seq<u8>
    decreases n,
{
    if n < 10 {
        seq![(ZERO + n) as u8]
    } else {
        decimal_digits(n / 10).push((ZERO + n % 10) as u8)
    }
}

/// The literal of an integer: `i`, a `-` where it is negative, its digits,
/// `e`.
pub open spec fn integer_literal(n: i64) -> Seq<u8> {
    if n < 0 {
        seq![INTEGER, MINUS] + decimal_digits((-n) as nat) + seq![END]
    } else {
        seq![INTEGER] + decimal_digits(n as nat) + seq![END]
    }
}

/// A byte string behind its length prefix.
pub open spec fn byte_string(bytes: Seq<u8>) -> Seq<u8> {
    decimal_digits(bytes.len()) + seq![COLON] + bytes
}

/// The encoding of a value.
pub open spec fn encoding(v: Value) -> Seq<u8>
    decreases v,
{
    match v {
        Value::Bytes(bytes) => byte_string(bytes),
        Value::Number(n) => integer_literal(n),
        Value::List(items) => seq![LIST] + items_encoding(items) + seq![END],
        Value::Dict(entries) => seq![DICT] + entries_encoding(entries) + seq![END],
    }
}

/// The encodings of the elements of a list, one after another.
pub open spec fn items_encoding(items: Seq<Value>) -> Seq<u8>
    decreases items,
{
    if items.len() == 0 {
        Seq::empty()
    } else {
        encoding(items[0]) + items_encoding(items.drop_first())
    }
}

/// The encodings of the entries of a dictionary, one after another, each
/// key as a byte string before its value.
pub open spec fn entries_encoding(entries: Seq<(Seq<u8>, Value)>) -> Seq<u8>
    decreases entries,
{
    if entries.len() == 0 {
        Seq::empty()
    } else {
        byte_string(entries[0].0) + encoding(entries[0].1) + entries_encoding(
            entries.drop_first(),
        )
    }
}

/// The bytes `e` stand in `s` from index `pos` on.
pub open spec fn stands_at(s: Seq<u8>, pos: int, e: Seq<u8>) -> bool {
    0 <= pos && pos + e.len() <= s.len() && forall|j: int|
        0 <= j < e.len() ==> s[pos + j] == #[trigger] e[j]
}

proof fn lemma_stands_at_parts(s: Seq<u8>, pos: int, a: Seq<u8>, b: Seq<u8>)
    requires
        stands_at(s, pos, a + b),
    ensures
        stands_at(s, pos, a),
        stands_at(s, pos + a.len(), b),
{
    let whole = a + b;
    assert forall|j: int| 0 <= j < a.len() implies s[pos + j] == #[trigger] a[j] by {
        assert(whole[j] == a[j]);
    }
    assert forall|j: int| 0 <= j < b.len() implies s[pos + a.len() + j] == #[trigger] b[j] by {
        assert(whole[a.len() + j] == b[j]);
    }
}

proof fn lemma_decimal_digits(n: nat)
    ensures
        decimal_digits(n).len() >= 1,
        forall|j: int| 0 <= j < decimal_digits(n).len() ==> is_digit(#[trigger] decimal_digits(n)[j]),
        decimal(decimal_digits(n)) == n,
    decreases n,
{
    if n < 10 {
        let d = decimal_digits(n);
        assert(d.drop_last() =~= Seq::<u8>::empty());
        assert(decimal(d.drop_last()) == 0);
    } else {
        lemma_decimal_digits(n / 10);
        let front = decimal_digits(n / 10);
        let d = decimal_digits(n);
        assert(d.drop_last() =~= front);
    }
}

/// A run of exactly `count` digits from `pos` on ends after them.
proof fn lemma_digits_end_of_run(s: Seq<u8>, pos: int, count: nat)
    requires
        0 <= pos,
        pos + count <= s.len(),
        forall|j: int| pos <= j < pos + count ==> is_digit(#[trigger] s[j]),
        pos + count == s.len() || !is_digit(s[pos + count]),
    ensures
        digits_end(s, pos) == pos + count,
    decreases count,
{
    if count > 0 {
        assert(is_digit(s[pos]));
        lemma_digits_end_of_run(s, pos + 1, (count - 1) as nat);
    }
}

/// Where the decimal digits of `n` stand at `pos` and no digit follows
/// them, the run of digits at `pos` is these digits, and it writes `n`.
proof fn lemma_reads_decimal_digits(s: Seq<u8>, pos: int, n: nat)
    requires
        stands_at(s, pos, decimal_digits(n)),
        pos + decimal_digits(n).len() == s.len() || !is_digit(
            s[pos + decimal_digits(n).len()],
        ),
    ensures
        digits_end(s, pos) == pos + decimal_digits(n).len(),
        decimal(s.subrange(pos, digits_end(s, pos))) == n,
        is_digit(s[pos]),
{
    let digits = decimal_digits(n);
    lemma_decimal_digits(n);
    assert forall|j: int| pos <= j < pos + digits.len() implies is_digit(#[trigger] s[j]) by {
        assert(s[pos + (j - pos)] == digits[j - pos]);
    }
    lemma_digits_end_of_run(s, pos, digits.len());
    assert(s.subrange(pos, pos + digits.len()) =~= digits);
    assert(s[pos + 0] == digits[0]);
}

proof fn lemma_integer_literal_at(s: Seq<u8>, pos: int, n: i64)
    requires
        stands_at(s, pos, integer_literal(n)),
    ensures
        spec_number(s, pos) == Ok::<(i64, int), Failure>((n, pos + integer_literal(n).len())),
        s[pos] == INTEGER,
{
    let literal = integer_literal(n);
    if n < 0 {
        let m = (-n) as nat;
        let digits = decimal_digits(m);
        lemma_decimal_digits(m);
        lemma_stands_at_parts(s, pos, seq![INTEGER, MINUS] + digits, seq![END]);
        lemma_stands_at_parts(s, pos, seq![INTEGER, MINUS], digits);
        assert(s[pos + 0] == seq![INTEGER, MINUS][0]);
        assert(s[pos + 1] == seq![INTEGER, MINUS][1]);
        assert(s[pos + 2 + digits.len() + 0] == seq![END][0]);
        lemma_reads_decimal_digits(s, pos + 2, m);
    } else {
        let m = n as nat;
        let digits = decimal_digits(m);
        lemma_decimal_digits(m);
        lemma_stands_at_parts(s, pos, seq![INTEGER] + digits, seq![END]);
        lemma_stands_at_parts(s, pos, seq![INTEGER], digits);
        assert(s[pos + 0] == seq![INTEGER][0]);
        assert(s[pos + 1 + digits.len() + 0] == seq![END][0]);
        assert(s[pos + 1 + 0] == digits[0]);
        lemma_reads_decimal_digits(s, pos + 1, m);
    }
}

proof fn lemma_byte_string_at(s: Seq<u8>, pos: int, bytes: Seq<u8>)
    requires
        stands_at(s, pos, byte_string(bytes)),
        bytes.len() <= usize::MAX,
    ensures
        spec_bytes(s, pos) == Ok::<(Seq<u8>, int), Failure>(
            (bytes, pos + byte_string(bytes).len()),
        ),
        is_digit(s[pos]),
{
    let digits = decimal_digits(bytes.len());
    lemma_decimal_digits(bytes.len());
    lemma_stands_at_parts(s, pos, digits + seq![COLON], bytes);
    lemma_stands_at_parts(s, pos, digits, seq![COLON]);
    assert(s[pos + digits.len() + 0] == seq![COLON][0]);
    lemma_reads_decimal_digits(s, pos, bytes.len());
    let start = pos + digits.len() + 1;
    assert(s.subrange(start, start + bytes.len()) =~= bytes) by {
        assert forall|j: int| 0 <= j < bytes.len() implies s[start + j] == bytes[j] by {
            assert(s[start + j] == bytes[j]);
        }
    }
}

/// No encoding is empty, and none starts with the `e` that closes a list
/// or a dictionary.
proof fn lemma_encoding_starts(v: Value)
    ensures
        encoding(v).len() > 0,
        encoding(v)[0] != END,
{
    match v {
        Value::Bytes(bytes) => {
            lemma_decimal_digits(bytes.len());
            assert(byte_string(bytes)[0] == decimal_digits(bytes.len())[0]);
        },
        Value::Number(n) => {
            if n < 0 {
                assert(integer_literal(n)[0] == seq![INTEGER, MINUS][0]);
            } else {
                assert(integer_literal(n)[0] == seq![INTEGER][0]);
            }
        },
        Value::List(items) => {
            assert(encoding(v)[0] == seq![LIST][0]);
        },
        Value::Dict(entries) => {
            assert(encoding(v)[0] == seq![DICT][0]);
        },
    }
}

proof fn lemma_value_round_trip(s: Seq<u8>, pos: int, v: Value, depth: nat)
    requires
        v.well_formed(),
        v.nests_within(depth),
        stands_at(s, pos, encoding(v)),
    ensures
        spec_value(s, pos, depth) == Ok::<(Value, int), Failure>((v, pos + encoding(v).len())),
    decreases v,
{
    lemma_encoding_starts(v);
    assert(s[pos + 0] == encoding(v)[0]);
    match v {
        Value::Bytes(bytes) => {
            lemma_byte_string_at(s, pos, bytes);
        },
        Value::Number(n) => {
            lemma_integer_literal_at(s, pos, n);
        },
        Value::List(items) => {
            let inner = items_encoding(items);
            lemma_stands_at_parts(s, pos, seq![LIST] + inner, seq![END]);
            lemma_stands_at_parts(s, pos, seq![LIST], inner);
            assert(s[pos + 0] == seq![LIST][0]);
            assert(s[pos + 1 + inner.len() + 0] == seq![END][0]);
            lemma_items_round_trip(s, pos + 1, items, (depth - 1) as nat, Seq::empty());
            assert(Seq::<Value>::empty() + items =~= items);
        },
        Value::Dict(entries) => {
            let inner = entries_encoding(entries);
            lemma_stands_at_parts(s, pos, seq![DICT] + inner, seq![END]);
            lemma_stands_at_parts(s, pos, seq![DICT], inner);
            assert(s[pos + 0] == seq![DICT][0]);
            assert(s[pos + 1 + inner.len() + 0] == seq![END][0]);
            assert(Seq::<(Seq<u8>, Value)>::empty() + entries =~= entries);
            lemma_entries_round_trip(s, pos + 1, entries, (depth - 1) as nat, Seq::empty());
        },
    }
}

proof fn lemma_items_round_trip(
    s: Seq<u8>,
    pos: int,
    items: Seq<Value>,
    depth: nat,
    read: Seq<Value>,
)
    requires
        items.len() > 0,
        forall|i: int|
            0 <= i < items.len() ==> (#[trigger] items[i]).well_formed() && items[i].nests_within(
                depth,
            ),
        stands_at(s, pos, items_encoding(items)),
        pos + items_encoding(items).len() < s.len(),
        s[pos + items_encoding(items).len()] == END,
    ensures
        spec_items(s, pos, depth, read) == Ok::<(Seq<Value>, int), Failure>(
            (read + items, pos + items_encoding(items).len() + 1),
        ),
    decreases items,
{
    let first = items[0];
    let others = items.drop_first();
    lemma_stands_at_parts(s, pos, encoding(first), items_encoding(others));
    lemma_encoding_starts(first);
    lemma_value_round_trip(s, pos, first, depth);
    let next = pos + encoding(first).len();
    if others.len() == 0 {
        assert(read + items =~= read.push(first));
    } else {
        lemma_encoding_starts(others[0]);
        assert(s[next + 0] == items_encoding(others)[0]);
        assert forall|i: int| 0 <= i < others.len() implies (#[trigger] others[i]).well_formed()
            && others[i].nests_within(depth) by {
            assert(others[i] == items[i + 1]);
        }
        lemma_items_round_trip(s, next, others, depth, read.push(first));
        assert(read.push(first) + others =~= read + items);
    }
}

proof fn lemma_entries_round_trip(
    s: Seq<u8>,
    pos: int,
    entries: Seq<(Seq<u8>, Value)>,
    depth: nat,
    read: Seq<(Seq<u8>, Value)>,
)
    requires
        entries.len() > 0,
        distinct_keys(read + entries),
        forall|i: int|
            0 <= i < entries.len() ==> (#[trigger] entries[i]).0.len() <= usize::MAX
                && entries[i].1.well_formed() && entries[i].1.nests_within(depth),
        stands_at(s, pos, entries_encoding(entries)),
        pos + entries_encoding(entries).len() < s.len(),
        s[pos + entries_encoding(entries).len()] == END,
    ensures
        spec_pairs(s, pos, depth, read) == Ok::<(Seq<(Seq<u8>, Value)>, int), Failure>(
            (read + entries, pos + entries_encoding(entries).len() + 1),
        ),
    decreases entries,
{
    let key = entries[0].0;
    let value = entries[0].1;
    let others = entries.drop_first();
    let all = read + entries;
    lemma_stands_at_parts(
        s,
        pos,
        byte_string(key) + encoding(value),
        entries_encoding(others),
    );
    lemma_stands_at_parts(s, pos, byte_string(key), encoding(value));
    lemma_byte_string_at(s, pos, key);
    let mid = pos + byte_string(key).len();
    lemma_encoding_starts(value);
    lemma_value_round_trip(s, mid, value, depth);
    let next = mid + encoding(value).len();
    assert(!has_key(read, key)) by {
        assert forall|i: int| 0 <= i < read.len() implies (#[trigger] read[i]).0 != key by {
            assert(all[i] == read[i]);
            assert(all[read.len() as int] == entries[0]);
        }
    }
    let extended = read.push((key, value));
    assert(with_entry(read, key, value) == extended);
    if others.len() == 0 {
        assert(read + entries =~= extended);
    } else {
        lemma_decimal_digits(others[0].0.len());
        assert(entries_encoding(others)[0] == decimal_digits(others[0].0.len())[0]);
        assert(s[next + 0] == entries_encoding(others)[0]);
        assert forall|i: int| 0 <= i < others.len() implies (#[trigger] others[i]).0.len()
            <= usize::MAX && others[i].1.well_formed() && others[i].1.nests_within(depth) by {
            assert(others[i] == entries[i + 1]);
        }
        assert(extended + others =~= all);
        lemma_entries_round_trip(s, next, others, depth, extended);
    }
}

/// Decoding the literal of an integer yields that integer, whatever
/// follows the literal.
pub proof fn integer_literal_decodes(n: i64, rest: Seq<u8>, max_depth: nat)
    ensures
        decode(integer_literal(n) + rest, max_depth) == Ok::<(Value, int), Failure>(
            (Value::Number(n), integer_literal(n).len() as int),
        ),
{
    round_trip(Value::Number(n), rest, max_depth);
}

/// Decoding a byte string behind its length yields exactly these bytes,
/// whatever follows them.
pub proof fn byte_string_decodes(bytes: Seq<u8>, rest: Seq<u8>, max_depth: nat)
    requires
        bytes.len() <= usize::MAX,
    ensures
        decode(byte_string(bytes) + rest, max_depth) == Ok::<(Value, int), Failure>(
            (Value::Bytes(bytes), byte_string(bytes).len() as int),
        ),
{
    round_trip(Value::Bytes(bytes), rest, max_depth);
}

/// A byte string that declares more bytes than follow its `:` is refused
/// as truncated input, at the index after the `:`.
pub proof fn short_byte_string_is_truncated(declared: nat, bytes: Seq<u8>, max_depth: nat)
    requires
        bytes.len() < declared,
    ensures
        decode(decimal_digits(declared) + seq![COLON] + bytes, max_depth) == failure::<Value>(
            ParseErrorKind::TruncatedInput,
            (decimal_digits(declared).len() + 1) as int,
        ),
{
    let digits = decimal_digits(declared);
    let s = digits + seq![COLON] + bytes;
    lemma_decimal_digits(declared);
    assert(stands_at(s, 0, digits));
    assert(s[digits.len() as int] == COLON);
    lemma_reads_decimal_digits(s, 0, declared);
}

/// Round trip: decoding the encoding of a well-formed value yields the
/// value and uses exactly the encoding, whatever follows it, as long as the
/// value nests no deeper than the decoder allows.
pub proof fn round_trip(v: Value, rest: Seq<u8>, max_depth: nat)
    requires
        v.well_formed(),
        v.nests_within(max_depth),
    ensures
        decode(encoding(v) + rest, max_depth) == Ok::<(Value, int), Failure>(
            (v, encoding(v).len() as int),
        ),
{
    let s = encoding(v) + rest;
    assert(stands_at(s, 0, encoding(v)));
    lemma_value_round_trip(s, 0, v, max_depth);
}

/// More lists opened one inside another than the decoder allows are
/// refused as nested too deep, at the list that goes beyond the bound.
pub proof fn deep_nesting_is_refused(s: Seq<u8>, max_depth: nat)
    requires
        max_depth < s.len(),
        forall|j: int| 0 <= j <= max_depth ==> s[j] == LIST,
    ensures
        decode(s, max_depth) == failure::<Value>(
            ParseErrorKind::NestingTooDeep,
            max_depth as int,
        ),
{
    lemma_nested_lists(s, 0, max_depth);
}

proof fn lemma_nested_lists(s: Seq<u8>, pos: int, depth: nat)
    requires
        0 <= pos,
        pos + depth < s.len(),
        forall|j: int| pos <= j <= pos + depth ==> s[j] == LIST,
    ensures
        spec_value(s, pos, depth) == failure::<Value>(ParseErrorKind::NestingTooDeep, pos + depth),
    decreases depth,
{
    assert(s[pos] == LIST);
    if depth > 0 {
        lemma_nested_lists(s, pos + 1, (depth - 1) as nat);
    }
}

proof fn lemma_digits_end_bounds(s: Seq<u8>, pos: int)
    requires
        0 <= pos <= s.len(),
    ensures
        pos <= digits_end(s, pos) <= s.len(),
    decreases s.len() - pos,
{
    if pos < s.len() && is_digit(s[pos]) {
        lemma_digits_end_bounds(s, pos + 1);
    }
}

/// What the grammar reads as a byte string fits a slice, and it spans at
/// least one byte of the input.
proof fn lemma_bytes_sound(s: Seq<u8>, pos: int)
    requires
        0 <= pos <= s.len(),
    ensures
        spec_bytes(s, pos) matches Ok((bytes, next)) ==> bytes.len() <= usize::MAX && pos < next
            <= s.len(),
{
    lemma_digits_end_bounds(s, pos);
}

/// What the grammar reads as a value is well formed, nests no deeper than
/// was allowed, and spans at least one byte of the input.
proof fn lemma_value_sound(s: Seq<u8>, pos: int, depth: nat)
    ensures
        spec_value(s, pos, depth) matches Ok((v, next)) ==> v.well_formed() && v.nests_within(
            depth,
        ) && pos < next <= s.len(),
    decreases s.len() - pos, 1int,
{
    if 0 <= pos < s.len() {
        if s[pos] == INTEGER {
            lemma_digits_end_bounds(s, pos + 1);
            if pos + 1 < s.len() {
                lemma_digits_end_bounds(s, pos + 2);
            }
        } else if is_digit(s[pos]) {
            lemma_bytes_sound(s, pos);
        } else if s[pos] == LIST {
            if depth > 0 {
                lemma_items_sound(s, pos + 1, (depth - 1) as nat, Seq::empty());
            }
        } else if s[pos] == DICT {
            if depth > 0 {
                lemma_pairs_sound(s, pos + 1, (depth - 1) as nat, Seq::empty());
            }
        }
    }
}

proof fn lemma_items_sound(s: Seq<u8>, pos: int, depth: nat, read: Seq<Value>)
    requires
        forall|i: int|
            0 <= i < read.len() ==> (#[trigger] read[i]).well_formed() && read[i].nests_within(
                depth,
            ),
    ensures
        spec_items(s, pos, depth, read) matches Ok((items, next)) ==> items.len() > 0 && pos < next
            <= s.len() && forall|i: int|
            0 <= i < items.len() ==> (#[trigger] items[i]).well_formed() && items[i].nests_within(
                depth,
            ),
    decreases s.len() - pos, 2int,
{
    if 0 <= pos < s.len() {
        lemma_value_sound(s, pos, depth);
        match spec_value(s, pos, depth) {
            Err(_) => {},
            Ok((value, next)) => {
                if next < s.len() && s[next] == END {
                } else if pos < next < s.len() {
                    lemma_items_sound(s, next, depth, read.push(value));
                }
            },
        }
    }
}

proof fn lemma_pairs_sound(s: Seq<u8>, pos: int, depth: nat, read: Seq<(Seq<u8>, Value)>)
    requires
        distinct_keys(read),
        forall|i: int|
            0 <= i < read.len() ==> (#[trigger] read[i]).0.len() <= usize::MAX
                && read[i].1.well_formed() && read[i].1.nests_within(depth),
    ensures
        spec_pairs(s, pos, depth, read) matches Ok((entries, next)) ==> entries.len() > 0 && pos
            < next <= s.len() && distinct_keys(entries) && forall|i: int|
            0 <= i < entries.len() ==> (#[trigger] entries[i]).0.len() <= usize::MAX
                && entries[i].1.well_formed() && entries[i].1.nests_within(depth),
    decreases s.len() - pos, 2int,
{
    if 0 <= pos < s.len() {
        lemma_bytes_sound(s, pos);
        match spec_bytes(s, pos) {
            Err(_) => {},
            Ok((key, mid)) => {
                if pos < mid < s.len() {
                    lemma_value_sound(s, mid, depth);
                    match spec_value(s, mid, depth) {
                        Err(_) => {},
                        Ok((value, next)) => {
                            with_entry_keeps_keys_distinct(read, key, value);
                            if next < s.len() && s[next] == END {
                            } else if mid < next < s.len() {
                                lemma_pairs_sound(s, next, depth, with_entry(read, key, value));
                            }
                        },
                    }
                }
            },
        }
    }
}

/// Every decoded value is well formed and nests no deeper than the decoder
/// allowed, and decoding it used at least one byte and no more than the
/// input holds.
pub proof fn decoded_value_is_well_formed(s: Seq<u8>, max_depth: nat)
    ensures
        decode(s, max_depth) matches Ok((v, next)) ==> v.well_formed() && v.nests_within(max_depth)
            && 0 < next <= s.len(),
{
    lemma_value_sound(s, 0, max_depth);
}

/// Encoding a decoded value and decoding the result yields the value
/// again.
pub proof fn reencoded_value_decodes_alike(s: Seq<u8>, max_depth: nat)
    ensures
        decode(s, max_depth) matches Ok((v, _)) ==> decode(encoding(v), max_depth) == Ok::<
            (Value, int),
            Failure,
        >((v, encoding(v).len() as int)),
{
    if let Ok((v, _)) = decode(s, max_depth) {
        decoded_value_is_well_formed(s, max_depth);
        round_trip(v, Seq::empty(), max_depth);
        assert(encoding(v) + Seq::<u8>::empty() =~= encoding(v));
    }
}

} // verus!
