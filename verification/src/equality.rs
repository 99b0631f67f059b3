//! Equality of values is an equivalence.
//!
//! [`Value::same_as`] compares dictionaries key by key.  On well-formed
//! values, where no dictionary holds a key twice, it is reflexive,
//! symmetric and transitive.
use vstd::prelude::*;
use crate::model::{distinct_keys, has_key, index_of_key, Value};

verus! {

/// A well-formed value is equal to itself.
pub proof fn equal_to_itself(v: Value)
    requires
        v.well_formed(),
    ensures
        v.same_as(v),
    decreases v,
{
    match v {
        Value::Bytes(_) => {},
        Value::Number(_) => {},
        Value::List(items) => {
            assert forall|i: int| 0 <= i < items.len() implies (#[trigger] items[i]).same_as(
                items[i],
            ) by {
                equal_to_itself(items[i]);
            }
        },
        Value::Dict(entries) => {
            assert forall|i: int| 0 <= i < entries.len() implies has_key(
                entries,
                (#[trigger] entries[i]).0,
            ) && entries[i].1.same_as(entries[index_of_key(entries, entries[i].0)].1) by {
                equal_to_itself(entries[i].1);
            }
        },
    }
}

/// Of two dictionaries of the same size without repeated keys, where one
/// holds every key of the other, the other holds every key of the one.
proof fn lemma_keys_cover(a: Seq<(Seq<u8>, Value)>, b: Seq<(Seq<u8>, Value)>)
    requires
        distinct_keys(a),
        distinct_keys(b),
        a.len() == b.len(),
        forall|i: int| 0 <= i < a.len() ==> has_key(b, (#[trigger] a[i]).0),
    ensures
        forall|j: int| 0 <= j < b.len() ==> has_key(a, (#[trigger] b[j]).0),
    decreases a.len(),
{
    if a.len() > 0 {
        let last = a.len() - 1;
        let key = a[last].0;
        let fewer = a.drop_last();
        let at = index_of_key(b, key);
        let others = b.remove(at);
        assert forall|i: int| 0 <= i < fewer.len() implies has_key(
            others,
            (#[trigger] fewer[i]).0,
        ) by {
            assert(fewer[i] == a[i]);
            let j = index_of_key(b, a[i].0);
            assert(b[j].0 == a[i].0);
            assert(j != at);
            if j < at {
                assert(others[j] == b[j]);
            } else {
                assert(others[j - 1] == b[j]);
            }
        }
        assert(distinct_keys(fewer)) by {
            assert forall|i: int, j: int| 0 <= i < j < fewer.len() implies (#[trigger] fewer[i]).0
                != (#[trigger] fewer[j]).0 by {
                assert(fewer[i] == a[i]);
                assert(fewer[j] == a[j]);
            }
        }
        assert(distinct_keys(others)) by {
            assert forall|i: int, j: int| 0 <= i < j < others.len() implies (
            #[trigger] others[i]).0 != (#[trigger] others[j]).0 by {
                let from_i = if i < at { i } else { i + 1 };
                let from_j = if j < at { j } else { j + 1 };
                assert(others[i] == b[from_i]);
                assert(others[j] == b[from_j]);
            }
        }
        lemma_keys_cover(fewer, others);
        assert forall|j: int| 0 <= j < b.len() implies has_key(a, (#[trigger] b[j]).0) by {
            if j == at {
                assert(a[last].0 == b[j].0);
            } else {
                let moved = if j < at { j } else { j - 1 };
                assert(others[moved] == b[j]);
                let i = index_of_key(fewer, others[moved].0);
                assert(fewer[i] == a[i]);
                assert(a[i].0 == b[j].0);
            }
        }
    }
}

/// Equality does not depend on the side: where one well-formed value is
/// equal to another, the other is equal to the one.
pub proof fn equal_either_way(a: Value, b: Value)
    requires
        a.well_formed(),
        b.well_formed(),
        a.same_as(b),
    ensures
        b.same_as(a),
    decreases a,
{
    match a {
        Value::Bytes(_) => {},
        Value::Number(_) => {},
        Value::List(x) => {
            let y = b->List_0;
            assert forall|i: int| 0 <= i < y.len() implies (#[trigger] y[i]).same_as(x[i]) by {
                assert(x[i].same_as(y[i]));
                equal_either_way(x[i], y[i]);
            }
        },
        Value::Dict(x) => {
            let y = b->Dict_0;
            lemma_keys_cover(x, y);
            assert forall|j: int| 0 <= j < y.len() implies has_key(x, (#[trigger] y[j]).0)
                && y[j].1.same_as(x[index_of_key(x, y[j].0)].1) by {
                let i = index_of_key(x, y[j].0);
                assert(x[i].0 == y[j].0);
                assert(has_key(y, x[i].0));
                assert(index_of_key(y, x[i].0) == j);
                assert(x[i].1.same_as(y[j].1));
                equal_either_way(x[i].1, y[j].1);
            }
        },
    }
}

/// Two well-formed values that are equal to a third are equal to one
/// another.
pub proof fn equal_through_a_third(a: Value, b: Value, c: Value)
    requires
        a.well_formed(),
        b.well_formed(),
        c.well_formed(),
        a.same_as(b),
        b.same_as(c),
    ensures
        a.same_as(c),
    decreases a,
{
    match a {
        Value::Bytes(_) => {},
        Value::Number(_) => {},
        Value::List(x) => {
            let y = b->List_0;
            let z = c->List_0;
            assert forall|i: int| 0 <= i < x.len() implies (#[trigger] x[i]).same_as(z[i]) by {
                assert(x[i].same_as(y[i]));
                assert(y[i].same_as(z[i]));
                equal_through_a_third(x[i], y[i], z[i]);
            }
        },
        Value::Dict(x) => {
            let y = b->Dict_0;
            let z = c->Dict_0;
            assert forall|i: int| 0 <= i < x.len() implies has_key(z, (#[trigger] x[i]).0)
                && x[i].1.same_as(z[index_of_key(z, x[i].0)].1) by {
                let j = index_of_key(y, x[i].0);
                assert(y[j].0 == x[i].0);
                assert(x[i].1.same_as(y[j].1));
                let k = index_of_key(z, y[j].0);
                assert(z[k].0 == y[j].0);
                assert(y[j].1.same_as(z[k].1));
                equal_through_a_third(x[i].1, y[j].1, z[k].1);
            }
        },
    }
}

} // verus!
