//! Decoded values, their typed accessors, and the decoder.
use vstd::prelude::*;
use vstd::utf8::{decode_utf8, encode_utf8_decode_utf8, valid_utf8};
use vstd::slice::{slice_subrange, slice_to_vec};
use vstd::std_specs::cmp::PartialEqSpecImpl;
use crate::error::{AccessError, Failure, ParseError, ParseErrorKind, ValueKind};
use crate::grammar::{
    decimal, decode, digits_end, is_digit, spec_bytes, spec_dict, spec_items, spec_length, spec_list,
    spec_number, spec_pairs, spec_value, Reading, COLON, DICT, END, INTEGER, LIST,
    MAGNITUDE_LIMIT, MINUS, NINE, ZERO,
};
use crate::model::{
    distinct_keys, has_key, index_of_key, with_entry_keeps_keys_distinct, lookup, with_entry, Value,
};
use crate::text::text_of;

verus! {

/// A decoded bencode value.
///
/// Two values are equal when they have the same shape and the same
/// content: lists element by element, dictionaries key by key.
#[derive(Debug)]
pub enum BValue {
    BBytes(Vec<u8>),
    BNumber(i64),
    BList(Vec<BValue>),
    BDict(Dict),
}

/// A dictionary: byte-string keys, each mapped to one value.  No key occurs
/// twice.  The entries keep the order in which their keys were first
/// stored; two dictionaries are equal when they map the same keys to equal
/// values, in whatever order.
#[derive(Debug)]
pub struct Dict {
    entries: Vec<(Vec<u8>, BValue)>,
}

impl View for BValue {
    type V = Value;

    open spec fn view(&self) -> Value
        decreases self,
    {
        match self {
            BValue::BBytes(bytes) => Value::Bytes(bytes@),
            BValue::BNumber(n) => Value::Number(*n),
            BValue::BList(items) => Value::List(views(items@)),
            BValue::BDict(dict) => Value::Dict(dict@),
        }
    }
}

impl View for Dict {
    type V = Seq<(Seq<u8>, Value)>;

    closed spec fn view(&self) -> Seq<(Seq<u8>, Value)>
        decreases self,
    {
        entry_views(self.entries@)
    }
}

/// The models of a vector of values, in order: the model of a list.
pub open spec fn views(items: Seq<BValue>) -> Seq<Value>
    decreases items,
{
    Seq::new(
        items.len(),
        |i: int|
            if 0 <= i < items.len() {
                items[i]@
            } else {
                arbitrary()
            },
    )
}

/// The models of a vector of entries, in order: the model of a dictionary.
pub open spec fn entry_views(entries: Seq<(Vec<u8>, BValue)>) -> Seq<(Seq<u8>, Value)>
    decreases entries,
{
    Seq::new(
        entries.len(),
        |i: int|
            if 0 <= i < entries.len() {
                (entries[i].0@, entries[i].1@)
            } else {
                arbitrary()
            },
    )
}

/// Whether two slices hold the same bytes.
fn same_bytes(a: &[u8], b: &[u8]) -> (same: bool)
    ensures
        same == (a@ == b@),
{
    if a.len() != b.len() {
        return false;
    }
    let mut i: usize = 0;
    while i < a.len()
        invariant
            a.len() == b.len(),
            i <= a.len(),
            forall|j: int| 0 <= j < i ==> a@[j] == b@[j],
        decreases a.len() - i,
    {
        if a[i] != b[i] {
            return false;
        }
        i += 1;
    }
    assert(a@ =~= b@);
    true
}

impl Dict {
    #[verifier::type_invariant]
    spec fn keys_are_distinct(&self) -> bool {
        distinct_keys(self@)
    }

    /// An empty dictionary.
    pub fn new() -> (dict: Dict)
        ensures
            dict@ == Seq::<(Seq<u8>, Value)>::empty(),
    {
        let dict = Dict { entries: Vec::new() };
        assert(dict@ =~= Seq::<(Seq<u8>, Value)>::empty());
        dict
    }

    /// The number of entries.
    pub fn len(&self) -> (n: usize)
        ensures
            n == self@.len(),
            distinct_keys(self@),
    {
        proof {
            use_type_invariant(self);
        }
        self.entries.len()
    }

    /// The entries, each key with its value, in the order in which the keys
    /// were first stored.
    pub fn entries(&self) -> (entries: &Vec<(Vec<u8>, BValue)>)
        ensures
            entry_views(entries@) == self@,
            distinct_keys(self@),
    {
        proof {
            use_type_invariant(self);
        }
        &self.entries
    }

    /// The index of the entry with the given key.
    fn position(&self, key: &[u8]) -> (found: Option<usize>)
        ensures
            distinct_keys(self@),
            found is Some <==> has_key(self@, key@),
            found matches Some(i) ==> i == index_of_key(self@, key@) && i < self@.len(),
    {
        proof {
            use_type_invariant(self);
        }
        let mut i: usize = 0;
        while i < self.entries.len()
            invariant
                i <= self.entries@.len(),
                self@.len() == self.entries@.len(),
                distinct_keys(self@),
                forall|j: int| 0 <= j < i ==> (#[trigger] self@[j]).0 != key@,
            decreases self.entries.len() - i,
        {
            if same_bytes(self.entries[i].0.as_slice(), key) {
                assert(self@[i as int].0 == key@);
                return Some(i);
            }
            i += 1;
        }
        None
    }

    /// The value stored under the key, if there is one.
    pub fn get(&self, key: &[u8]) -> (found: Option<&BValue>)
        ensures
            distinct_keys(self@),
            match found {
                Some(value) => lookup(self@, key@) == Some(value@),
                None => lookup(self@, key@) is None,
            },
    {
        match self.position(key) {
            Some(i) => Some(&self.entries[i].1),
            None => None,
        }
    }

    /// Stores the value under the key.  An entry that already has the key
    /// keeps its place and takes the new value; a new key is added after
    /// the entries that are there.
    pub fn insert(&mut self, key: Vec<u8>, value: BValue)
        ensures
            final(self)@ == with_entry(old(self)@, key@, value@),
            distinct_keys(final(self)@),
    {
        let ghost before = self@;
        let found = self.position(key.as_slice());
        let mut entries: Vec<(Vec<u8>, BValue)> = Vec::new();
        core::mem::swap(&mut self.entries, &mut entries);
        assert(self@ =~= Seq::empty());
        match found {
            Some(i) => {
                entries.set(i, (key, value));
            },
            None => {
                entries.push((key, value));
            },
        }
        proof {
            assert(entry_views(entries@) =~= with_entry(before, key@, value@));
            with_entry_keeps_keys_distinct(before, key@, value@);
        }
        self.entries = entries;
    }
}

impl PartialEq for BValue {
    fn eq(&self, other: &BValue) -> (r: bool) {
        same_value(self, other)
    }
}

impl PartialEqSpecImpl for BValue {
    open spec fn obeys_eq_spec() -> bool {
        true
    }

    open spec fn eq_spec(&self, other: &BValue) -> bool {
        self@.same_as(other@)
    }
}

impl Eq for BValue {

}

impl PartialEq for Dict {
    fn eq(&self, other: &Dict) -> (r: bool) {
        same_entries(self, other)
    }
}

impl PartialEqSpecImpl for Dict {
    open spec fn obeys_eq_spec() -> bool {
        true
    }

    open spec fn eq_spec(&self, other: &Dict) -> bool {
        Value::Dict(self@).same_as(Value::Dict(other@))
    }
}

impl Eq for Dict {

}

/// Whether two values are equal.
fn same_value(a: &BValue, b: &BValue) -> (same: bool)
    ensures
        same == a@.same_as(b@),
    decreases a,
{
    match a {
        BValue::BBytes(x) => match b {
            BValue::BBytes(y) => same_bytes(x.as_slice(), y.as_slice()),
            _ => false,
        },
        BValue::BNumber(x) => match b {
            BValue::BNumber(y) => *x == *y,
            _ => false,
        },
        BValue::BList(x) => match b {
            BValue::BList(y) => same_items(x, y),
            _ => false,
        },
        BValue::BDict(x) => match b {
            BValue::BDict(y) => same_entries(x, y),
            _ => false,
        },
    }
}

/// Whether two lists are equal, element by element.
fn same_items(a: &Vec<BValue>, b: &Vec<BValue>) -> (same: bool)
    ensures
        same == Value::List(views(a@)).same_as(Value::List(views(b@))),
    decreases a,
{
    if a.len() != b.len() {
        return false;
    }
    let mut i: usize = 0;
    while i < a.len()
        invariant
            i <= a.len(),
            a.len() == b.len(),
            forall|j: int| 0 <= j < i ==> (#[trigger] views(a@)[j]).same_as(views(b@)[j]),
        decreases a.len() - i,
    {
        if !same_value(&a[i], &b[i]) {
            assert(!views(a@)[i as int].same_as(views(b@)[i as int]));
            return false;
        }
        i += 1;
    }
    true
}

/// Whether two dictionaries are equal, key by key.
fn same_entries(a: &Dict, b: &Dict) -> (same: bool)
    ensures
        same == Value::Dict(a@).same_as(Value::Dict(b@)),
    decreases a,
{
    if a.entries.len() != b.entries.len() {
        return false;
    }
    let mut i: usize = 0;
    while i < a.entries.len()
        invariant
            i <= a.entries.len(),
            a@.len() == a.entries@.len(),
            a@.len() == b@.len(),
            forall|j: int|
                0 <= j < i ==> has_key(b@, (#[trigger] a@[j]).0) && a@[j].1.same_as(
                    b@[index_of_key(b@, a@[j].0)].1,
                ),
        decreases a.entries.len() - i,
    {
        match b.position(a.entries[i].0.as_slice()) {
            None => {
                assert(!has_key(b@, a@[i as int].0));
                return false;
            },
            Some(j) => {
                if !same_value(&a.entries[i].1, &b.entries[j].1) {
                    assert(!a@[i as int].1.same_as(b@[index_of_key(b@, a@[i as int].0)].1));
                    return false;
                }
            },
        }
        i += 1;
    }
    true
}

impl BValue {
    /// The shape of the value.
    pub fn kind(&self) -> (kind: ValueKind)
        ensures
            kind == self@.kind(),
    {
        match self {
            BValue::BBytes(_) => ValueKind::ByteString,
            BValue::BNumber(_) => ValueKind::Integer,
            BValue::BList(_) => ValueKind::List,
            BValue::BDict(_) => ValueKind::Dict,
        }
    }

    /// The elements of a list; any other value is refused and left as it is.
    pub fn get_list(&self) -> (r: Result<&Vec<BValue>, AccessError>)
        ensures
            match self {
                BValue::BList(items) => r == Ok::<&Vec<BValue>, AccessError>(items),
                _ => r == Err::<&Vec<BValue>, AccessError>(
                    (AccessError::WrongVariant {
                        expected: ValueKind::List,
                        actual: self@.kind(),
                    }),
                ),
            },
    {
        match self {
            BValue::BList(items) => Ok(items),
            _ => Err(AccessError::WrongVariant { expected: ValueKind::List, actual: self.kind() }),
        }
    }

    /// The entries of a dictionary; any other value is refused and left as
    /// it is.
    pub fn get_dict(&self) -> (r: Result<&Dict, AccessError>)
        ensures
            match self {
                BValue::BDict(dict) => r == Ok::<&Dict, AccessError>(dict),
                _ => r == Err::<&Dict, AccessError>(
                    (AccessError::WrongVariant {
                        expected: ValueKind::Dict,
                        actual: self@.kind(),
                    }),
                ),
            },
    {
        match self {
            BValue::BDict(dict) => Ok(dict),
            _ => Err(AccessError::WrongVariant { expected: ValueKind::Dict, actual: self.kind() }),
        }
    }

    /// The integer; any other value is refused and left as it is.
    pub fn get_number(&self) -> (r: Result<&i64, AccessError>)
        ensures
            match self {
                BValue::BNumber(n) => r == Ok::<&i64, AccessError>(n),
                _ => r == Err::<&i64, AccessError>(
                    (AccessError::WrongVariant {
                        expected: ValueKind::Integer,
                        actual: self@.kind(),
                    }),
                ),
            },
    {
        match self {
            BValue::BNumber(n) => Ok(n),
            _ => Err(
                AccessError::WrongVariant { expected: ValueKind::Integer, actual: self.kind() },
            ),
        }
    }

    /// The bytes of a byte string; any other value is refused and left as
    /// it is.
    pub fn get_bytes(&self) -> (r: Result<&Vec<u8>, AccessError>)
        ensures
            match self {
                BValue::BBytes(bytes) => r == Ok::<&Vec<u8>, AccessError>(bytes),
                _ => r == Err::<&Vec<u8>, AccessError>(
                    (AccessError::WrongVariant {
                        expected: ValueKind::ByteString,
                        actual: self@.kind(),
                    }),
                ),
            },
    {
        match self {
            BValue::BBytes(bytes) => Ok(bytes),
            _ => Err(
                AccessError::WrongVariant { expected: ValueKind::ByteString, actual: self.kind() },
            ),
        }
    }

    /// The bytes of a byte string read as text.  Bytes that are not valid
    /// UTF-8 are refused as invalid text, any value but a byte string as
    /// the wrong variant.
    pub fn get_string(&self) -> (r: Result<&str, AccessError>)
        ensures
            match self {
                BValue::BBytes(bytes) => if valid_utf8(bytes@) {
                    r matches Ok(text) && text@ == decode_utf8(bytes@)
                } else {
                    r == Err::<&str, AccessError>(AccessError::InvalidText)
                },
                _ => r == Err::<&str, AccessError>(
                    (AccessError::WrongVariant {
                        expected: ValueKind::ByteString,
                        actual: self@.kind(),
                    }),
                ),
            },
    {
        match self {
            BValue::BBytes(bytes) => match text_of(bytes.as_slice()) {
                Some(text) => {
                    proof {
                        encode_utf8_decode_utf8(text@);
                    }
                    Ok(text)
                },
                None => Err(AccessError::InvalidText),
            },
            _ => Err(
                AccessError::WrongVariant { expected: ValueKind::ByteString, actual: self.kind() },
            ),
        }
    }
}

/// The deepest nesting of lists and dictionaries that [`parse`] accepts.
pub const DEFAULT_MAX_DEPTH: usize = 256;

/// An executable reader's outcome is the grammar's reading: on success the
/// same construct, by its model, and the same index after it; on failure
/// the same kind at the same offset.
spec fn reads<T: View>(r: Result<(T, usize), ParseError>, reading: Reading<T::V>) -> bool {
    match reading {
        Ok((value, next)) => r matches Ok((v, n)) && v@ == value && n == next,
        Err(f) => r matches Err(e) && e@ == f,
    }
}

/// As [`reads`], for a list: the elements are compared by their models.
spec fn reads_list(
    r: Result<(Vec<BValue>, usize), ParseError>,
    reading: Reading<Seq<Value>>,
) -> bool {
    match reading {
        Ok((items, next)) => r matches Ok((v, n)) && views(v@) == items && n == next,
        Err(f) => r matches Err(e) && e@ == f,
    }
}

/// A number as far as it stays within a limit.
spec fn within(n: nat, limit: u64) -> Option<u64> {
    if n <= limit {
        Some(n as u64)
    } else {
        None
    }
}

fn digit(byte: u8) -> (is: bool)
    ensures
        is == is_digit(byte),
{
    ZERO <= byte && byte <= NINE
}

fn fail<T>(kind: ParseErrorKind, offset: usize) -> (r: Result<T, ParseError>)
    ensures
        r == Err::<T, ParseError>(ParseError { kind, offset }),
{
    Err(ParseError { kind, offset })
}

/// Reads the run of digits that starts at `start`: where it ends, and the
/// number it writes unless that is above `limit`.
fn read_decimal(input: &[u8], start: usize, limit: u64) -> (r: (usize, Option<u64>))
    requires
        start <= input.len(),
    ensures
        r.0 == digits_end(input@, start as int),
        start <= r.0 <= input.len(),
        r.1 == within(decimal(input@.subrange(start as int, r.0 as int)), limit),
{
    let mut at: usize = start;
    let mut value: Option<u64> = Some(0);
    assert(input@.subrange(start as int, start as int) =~= Seq::empty());
    while at < input.len() && digit(input[at])
        invariant
            start <= at <= input.len(),
            digits_end(input@, start as int) == digits_end(input@, at as int),
            value == within(decimal(input@.subrange(start as int, at as int)), limit),
        decreases input.len() - at,
    {
        let d: u64 = (input[at] - ZERO) as u64;
        proof {
            let longer = input@.subrange(start as int, at + 1);
            assert(longer.drop_last() =~= input@.subrange(start as int, at as int));
            assert(longer.last() == input@[at as int]);
        }
        value =
        match value {
            Some(v) => if d > limit || v > (limit - d) / 10 {
                None
            } else {
                Some(v * 10 + d)
            },
            None => None,
        };
        at += 1;
    }
    (at, value)
}

/// Reads the integer literal at `pos`.
fn number_at(input: &[u8], pos: usize) -> (r: Result<(i64, usize), ParseError>)
    requires
        pos <= input.len(),
    ensures
        reads(r, spec_number(input@, pos as int)),
        r matches Ok((_, next)) ==> pos < next <= input.len(),
{
    if pos >= input.len() || input[pos] != INTEGER {
        return fail(ParseErrorKind::MalformedInteger, pos);
    }
    let negative = pos + 1 < input.len() && input[pos + 1] == MINUS;
    let first: usize = if negative {
        pos + 2
    } else {
        pos + 1
    };
    let (end, magnitude) = read_decimal(input, first, MAGNITUDE_LIMIT);
    if end == first {
        return fail(ParseErrorKind::MalformedInteger, first);
    }
    match magnitude {
        None => fail(ParseErrorKind::IntegerOverflow, pos + 1),
        Some(m) => {
            if !negative && m == MAGNITUDE_LIMIT {
                fail(ParseErrorKind::IntegerOverflow, pos + 1)
            } else if end >= input.len() || input[end] != END {
                fail(ParseErrorKind::MalformedInteger, end)
            } else if m == MAGNITUDE_LIMIT {
                Ok((i64::MIN, end + 1))
            } else if negative {
                Ok((-(m as i64), end + 1))
            } else {
                Ok((m as i64, end + 1))
            }
        },
    }
}

/// Reads the length prefix at `pos`.
fn length_at(input: &[u8], pos: usize) -> (r: Result<(usize, usize), ParseError>)
    requires
        pos <= input.len(),
    ensures
        reads(r, spec_length(input@, pos as int)),
        r matches Ok((_, next)) ==> pos < next <= input.len(),
{
    let (end, length) = read_decimal(input, pos, usize::MAX as u64);
    if end == pos || end >= input.len() || input[end] != COLON {
        return fail(ParseErrorKind::MalformedLength, end);
    }
    match length {
        None => fail(ParseErrorKind::TruncatedInput, end + 1),
        Some(n) => Ok((n as usize, end + 1)),
    }
}

/// Reads the byte string at `pos`.
fn bytes_at(input: &[u8], pos: usize) -> (r: Result<(Vec<u8>, usize), ParseError>)
    requires
        pos <= input.len(),
    ensures
        reads(r, spec_bytes(input@, pos as int)),
        r matches Ok((_, next)) ==> pos < next <= input.len(),
{
    match length_at(input, pos) {
        Err(e) => Err(e),
        Ok((length, start)) => {
            if length > input.len() - start {
                fail(ParseErrorKind::TruncatedInput, start)
            } else {
                let bytes = slice_to_vec(slice_subrange(input, start, start + length));
                Ok((bytes, start + length))
            }
        },
    }
}

/// Reads the value at `pos`, with at most `depth` lists and dictionaries
/// inside one another.
fn value_at(input: &[u8], pos: usize, depth: usize) -> (r: Result<(BValue, usize), ParseError>)
    requires
        pos <= input.len(),
    ensures
        reads(r, spec_value(input@, pos as int, depth as nat)),
        r matches Ok((_, next)) ==> pos < next <= input.len(),
    decreases depth, 1nat,
{
    if pos >= input.len() {
        return fail(ParseErrorKind::NoMatchingVariant, pos);
    }
    let first: u8 = input[pos];
    if first == INTEGER {
        match number_at(input, pos) {
            Ok((n, next)) => Ok((BValue::BNumber(n), next)),
            Err(e) => Err(e),
        }
    } else if digit(first) {
        match bytes_at(input, pos) {
            Ok((bytes, next)) => Ok((BValue::BBytes(bytes), next)),
            Err(e) => Err(e),
        }
    } else if first == LIST {
        match list_at(input, pos, depth) {
            Ok((items, next)) => Ok((BValue::BList(items), next)),
            Err(e) => Err(e),
        }
    } else if first == DICT {
        match dict_at(input, pos, depth) {
            Ok((dict, next)) => Ok((BValue::BDict(dict), next)),
            Err(e) => Err(e),
        }
    } else {
        fail(ParseErrorKind::NoMatchingVariant, pos)
    }
}

/// Reads the list at `pos`.
fn list_at(input: &[u8], pos: usize, depth: usize) -> (r: Result<(Vec<BValue>, usize), ParseError>)
    requires
        pos <= input.len(),
    ensures
        reads_list(r, spec_list(input@, pos as int, depth as nat)),
        r matches Ok((_, next)) ==> pos < next <= input.len(),
    decreases depth, 0nat,
{
    if pos >= input.len() || input[pos] != LIST {
        return fail(ParseErrorKind::NoMatchingVariant, pos);
    }
    if depth == 0 {
        return fail(ParseErrorKind::NestingTooDeep, pos);
    }
    let mut items: Vec<BValue> = Vec::new();
    let mut at: usize = pos + 1;
    if at >= input.len() {
        return fail(ParseErrorKind::UnterminatedContainer, input.len());
    }
    assert(views(items@) =~= Seq::empty());
    loop
        invariant
            pos < at < input.len(),
            depth > 0,
            spec_list(input@, pos as int, depth as nat) == spec_items(
                input@,
                at as int,
                (depth - 1) as nat,
                views(items@),
            ),
        decreases input.len() - at,
    {
        match value_at(input, at, depth - 1) {
            Err(e) => {
                return Err(e);
            },
            Ok((value, next)) => {
                let ghost before = views(items@);
                items.push(value);
                assert(views(items@) =~= before.push(value@));
                if next < input.len() && input[next] == END {
                    return Ok((items, next + 1));
                }
                if next >= input.len() {
                    return fail(ParseErrorKind::UnterminatedContainer, input.len());
                }
                at = next;
            },
        }
    }
}

/// Reads the dictionary at `pos`.
fn dict_at(input: &[u8], pos: usize, depth: usize) -> (r: Result<(Dict, usize), ParseError>)
    requires
        pos <= input.len(),
    ensures
        reads(r, spec_dict(input@, pos as int, depth as nat)),
        r matches Ok((_, next)) ==> pos < next <= input.len(),
    decreases depth, 0nat,
{
    if pos >= input.len() || input[pos] != DICT {
        return fail(ParseErrorKind::NoMatchingVariant, pos);
    }
    if depth == 0 {
        return fail(ParseErrorKind::NestingTooDeep, pos);
    }
    let mut dict = Dict::new();
    let mut at: usize = pos + 1;
    if at >= input.len() {
        return fail(ParseErrorKind::UnterminatedContainer, input.len());
    }
    loop
        invariant
            pos < at < input.len(),
            depth > 0,
            spec_dict(input@, pos as int, depth as nat) == spec_pairs(
                input@,
                at as int,
                (depth - 1) as nat,
                dict@,
            ),
        decreases input.len() - at,
    {
        let (key, mid) = match bytes_at(input, at) {
            Err(e) => {
                return Err(e);
            },
            Ok(read) => read,
        };
        if mid >= input.len() {
            return fail(ParseErrorKind::UnterminatedContainer, input.len());
        }
        match value_at(input, mid, depth - 1) {
            Err(e) => {
                return Err(e);
            },
            Ok((value, next)) => {
                dict.insert(key, value);
                if next < input.len() && input[next] == END {
                    return Ok((dict, next + 1));
                }
                if next >= input.len() {
                    return fail(ParseErrorKind::UnterminatedContainer, input.len());
                }
                at = next;
            },
        }
    }
}

/// A decoder's outcome is the grammar's reading of the whole slice from its
/// start: on success the same construct, by its model, and the bytes after
/// it; on failure the same kind at the same offset.
pub open spec fn parsed<T: View>(
    input: Seq<u8>,
    r: Result<(&[u8], T), ParseError>,
    reading: Reading<T::V>,
) -> bool {
    match reading {
        Ok((value, next)) => r matches Ok((rest, v)) && v@ == value && rest@ == input.subrange(
            next,
            input.len() as int,
        ),
        Err(f) => r matches Err(e) && e@ == f,
    }
}

/// As [`parsed`], for a list: the elements are compared by their models.
pub open spec fn parsed_list(
    input: Seq<u8>,
    r: Result<(&[u8], Vec<BValue>), ParseError>,
    reading: Reading<Seq<Value>>,
) -> bool {
    match reading {
        Ok((items, next)) => r matches Ok((rest, v)) && views(v@) == items && rest@
            == input.subrange(next, input.len() as int),
        Err(f) => r matches Err(e) && e@ == f,
    }
}

/// Turns the index after a construct into the bytes after it.
fn remainder<'a, T>(input: &'a [u8], read: Result<(T, usize), ParseError>) -> (r: Result<
    (&'a [u8], T),
    ParseError,
>)
    requires
        read matches Ok((_, next)) ==> next <= input.len(),
    ensures
        match read {
            Ok((value, next)) => r matches Ok((rest, v)) && v == value && rest@
                == input@.subrange(next as int, input@.len() as int),
            Err(e) => r == Err::<(&'a [u8], T), ParseError>(e),
        },
{
    match read {
        Ok((value, next)) => Ok((slice_subrange(input, next, input.len()), value)),
        Err(e) => Err(e),
    }
}

/// Decodes an integer literal from the start of `i`: `i`, an optional `-`,
/// one or more digits, `e`.
pub fn parse_number(i: &[u8]) -> (r: Result<(&[u8], i64), ParseError>)
    ensures
        parsed(i@, r, spec_number(i@, 0)),
{
    remainder(i, number_at(i, 0))
}

/// Decodes a length prefix from the start of `i`: one or more digits, then
/// `:`.
pub fn parse_length(i: &[u8]) -> (r: Result<(&[u8], usize), ParseError>)
    ensures
        parsed(i@, r, spec_length(i@, 0)),
{
    remainder(i, length_at(i, 0))
}

/// Decodes a byte string from the start of `i`: a length prefix, then
/// exactly that many bytes.
pub fn parse_bytes(i: &[u8]) -> (r: Result<(&[u8], Vec<u8>), ParseError>)
    ensures
        parsed(i@, r, spec_bytes(i@, 0)),
{
    remainder(i, bytes_at(i, 0))
}

/// Decodes a list from the start of `i`: `l`, one or more values, `e`.
/// The list and what it holds may nest [`DEFAULT_MAX_DEPTH`] deep.
pub fn parse_list(i: &[u8]) -> (r: Result<(&[u8], Vec<BValue>), ParseError>)
    ensures
        parsed_list(i@, r, spec_list(i@, 0, DEFAULT_MAX_DEPTH as nat)),
{
    remainder(i, list_at(i, 0, DEFAULT_MAX_DEPTH))
}

/// Decodes a dictionary from the start of `i`: `d`, one or more pairs of a
/// byte string and a value, `e`.  The dictionary and what it holds may nest
/// [`DEFAULT_MAX_DEPTH`] deep.
pub fn parse_dict(i: &[u8]) -> (r: Result<(&[u8], Dict), ParseError>)
    ensures
        parsed(i@, r, spec_dict(i@, 0, DEFAULT_MAX_DEPTH as nat)),
{
    remainder(i, dict_at(i, 0, DEFAULT_MAX_DEPTH))
}

/// Decodes one value from the start of `i` and hands back the bytes after
/// it, which need not be empty.  Lists and dictionaries may nest
/// [`DEFAULT_MAX_DEPTH`] deep.
pub fn parse(i: &[u8]) -> (r: Result<(&[u8], BValue), ParseError>)
    ensures
        parsed(i@, r, decode(i@, DEFAULT_MAX_DEPTH as nat)),
{
    remainder(i, value_at(i, 0, DEFAULT_MAX_DEPTH))
}

/// As [`parse`], with the deepest nesting of lists and dictionaries chosen
/// by the caller.  The decoder calls itself once for each level, and a value
/// is compared and dropped level by level, so the bound also limits the
/// stack that is used: choose one that the stack can bear.
pub fn parse_with_depth(i: &[u8], max_depth: usize) -> (r: Result<(&[u8], BValue), ParseError>)
    ensures
        parsed(i@, r, decode(i@, max_depth as nat)),
{
    remainder(i, value_at(i, 0, max_depth))
}

} // verus!
