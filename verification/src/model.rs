//! The mathematical model of a decoded value.
use vstd::prelude::*;
use crate::error::ValueKind;

verus! {

/// A bencode value as a mathematical object.
///
/// A dictionary is the sequence of its entries in the order in which their
/// keys first appeared; in a well-formed value no key occurs twice.
pub enum Value {
    Bytes(Seq<u8>),
    Number(i64),
    List(Seq<Value>),
    Dict(Seq<(Seq<u8>, Value)>),
}

impl Value {
    /// What holds of every decoded value, at every level: a list has at
    /// least one element, a dictionary has at least one entry and no key
    /// twice, and no byte string or key is longer than a slice can be.
    pub open spec fn well_formed(self) -> bool
        decreases self,
    {
        match self {
            Value::Bytes(bytes) => bytes.len() <= usize::MAX,
            Value::Number(_) => true,
            Value::List(items) => items.len() > 0 && forall|i: int|
                0 <= i < items.len() ==> (#[trigger] items[i]).well_formed(),
            Value::Dict(entries) => entries.len() > 0 && distinct_keys(entries) && forall|i: int|
                0 <= i < entries.len() ==> (#[trigger] entries[i]).0.len() <= usize::MAX
                    && entries[i].1.well_formed(),
        }
    }

    /// Lists and dictionaries are at most `depth` deep inside one another;
    /// a value that is neither has depth 0.
    pub open spec fn nests_within(self, depth: nat) -> bool
        decreases self,
    {
        match self {
            Value::Bytes(_) => true,
            Value::Number(_) => true,
            Value::List(items) => depth > 0 && forall|i: int|
                0 <= i < items.len() ==> (#[trigger] items[i]).nests_within((depth - 1) as nat),
            Value::Dict(entries) => depth > 0 && forall|i: int|
                0 <= i < entries.len() ==> (#[trigger] entries[i]).1.nests_within(
                    (depth - 1) as nat,
                ),
        }
    }

    /// Equality of values: byte strings and integers are the same, lists
    /// are equal element by element, and dictionaries are equal key by key,
    /// whatever the order of their entries.
    pub open spec fn same_as(self, other: Value) -> bool
        decreases self,
    {
        match self {
            Value::Bytes(a) => other matches Value::Bytes(b) && a == b,
            Value::Number(a) => other matches Value::Number(b) && a == b,
            Value::List(a) => other matches Value::List(b) && a.len() == b.len() && forall|i: int|
                0 <= i < a.len() ==> (#[trigger] a[i]).same_as(b[i]),
            Value::Dict(a) => other matches Value::Dict(b) && a.len() == b.len() && forall|i: int|
                0 <= i < a.len() ==> has_key(b, (#[trigger] a[i]).0) && a[i].1.same_as(
                    b[index_of_key(b, a[i].0)].1,
                ),
        }
    }

    /// The shape of the value.
    pub open spec fn kind(self) -> ValueKind {
        match self {
            Value::Bytes(_) => ValueKind::ByteString,
            Value::Number(_) => ValueKind::Integer,
            Value::List(_) => ValueKind::List,
            Value::Dict(_) => ValueKind::Dict,
        }
    }
}

/// No key occurs in two entries.
pub open spec fn distinct_keys(entries: Seq<(Seq<u8>, Value)>) -> bool {
    forall|i: int, j: int|
        0 <= i < j < entries.len() ==> (#[trigger] entries[i]).0 != (#[trigger] entries[j]).0
}

/// Some entry has the key.
pub open spec fn has_key(entries: Seq<(Seq<u8>, Value)>, key: Seq<u8>) -> bool {
    exists|i: int| 0 <= i < entries.len() && (#[trigger] entries[i]).0 == key
}

/// The index of an entry with the key; the only one where the keys are
/// distinct.
pub open spec fn index_of_key(entries: Seq<(Seq<u8>, Value)>, key: Seq<u8>) -> int {
    choose|i: int| 0 <= i < entries.len() && (#[trigger] entries[i]).0 == key
}

/// The entries after `key` has been set to `value`: an entry that already
/// has the key keeps its place and takes the new value, a new key goes to
/// the end.
pub open spec fn with_entry(entries: Seq<(Seq<u8>, Value)>, key: Seq<u8>, value: Value) -> Seq<
    (Seq<u8>, Value),
> {
    if has_key(entries, key) {
        entries.update(index_of_key(entries, key), (key, value))
    } else {
        entries.push((key, value))
    }
}

/// The value stored under the key, if any.
pub open spec fn lookup(entries: Seq<(Seq<u8>, Value)>, key: Seq<u8>) -> Option<Value> {
    if has_key(entries, key) {
        Some(entries[index_of_key(entries, key)].1)
    } else {
        None
    }
}

/// Setting a key keeps the keys distinct.
pub proof fn with_entry_keeps_keys_distinct(entries: Seq<(Seq<u8>, Value)>, key: Seq<u8>, value: Value)
    requires
        distinct_keys(entries),
    ensures
        distinct_keys(with_entry(entries, key, value)),
{
}

/// The last value set for a key is the one found under it, and setting a
/// key changes what is found under no other key.
pub proof fn last_value_set_is_found(
    entries: Seq<(Seq<u8>, Value)>,
    key: Seq<u8>,
    value: Value,
    other: Seq<u8>,
)
    requires
        distinct_keys(entries),
    ensures
        lookup(with_entry(entries, key, value), key) == Some(value),
        other != key ==> lookup(with_entry(entries, key, value), other) == lookup(entries, other),
{
    let after = with_entry(entries, key, value);
    with_entry_keeps_keys_distinct(entries, key, value);
    if has_key(entries, key) {
        let at = index_of_key(entries, key);
        assert(after[at].0 == key);
        assert(index_of_key(after, key) == at);
        if other != key {
            if has_key(entries, other) {
                let i = index_of_key(entries, other);
                assert(after[i] == entries[i]);
                assert(index_of_key(after, other) == i);
            } else {
                assert forall|i: int| 0 <= i < after.len() implies (#[trigger] after[i]).0
                    != other by {
                    if i != at {
                        assert(after[i] == entries[i]);
                    }
                }
            }
        }
    } else {
        let at = entries.len() as int;
        assert(after[at].0 == key);
        assert(index_of_key(after, key) == at);
        if other != key {
            if has_key(entries, other) {
                let i = index_of_key(entries, other);
                assert(after[i] == entries[i]);
                assert(index_of_key(after, other) == i);
            } else {
                assert forall|i: int| 0 <= i < after.len() implies (#[trigger] after[i]).0
                    != other by {
                    if i != at {
                        assert(after[i] == entries[i]);
                    }
                }
            }
        }
    }
}

} // verus!
