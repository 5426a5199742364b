//! The mathematical model of a JSON value: what a tree is, what editing
//! does to it, and when two trees are equal.

use vstd::prelude::*;
use crate::numeral::is_numeral;

verus! {

/// The mathematical model of a JSON value.
///
/// An object is the sequence of its members in the order in which they were
/// first inserted. A number is held as its decimal text.
pub enum Value {
    Object(Seq<(Seq<char>, Value)>),
    Array(Seq<Value>),
    String(Seq<char>),
    Number(Seq<char>),
    Bool(bool),
    Null,
}

/// The position of the first member at or after `from` whose key is `key`,
/// or the number of members where there is none.
pub open spec fn key_index(members: Seq<(Seq<char>, Value)>, key: Seq<char>, from: int) -> int
    decreases members.len() - from,
{
    if from < 0 || from >= members.len() || members[from].0 == key {
        from
    } else {
        key_index(members, key, from + 1)
    }
}

/// No two members share a key.
pub open spec fn distinct_keys(members: Seq<(Seq<char>, Value)>) -> bool {
    forall|i: int, j: int|
        0 <= i < j < members.len() ==> (#[trigger] members[i]).0 != (#[trigger] members[j]).0
}

/// The members after `key` is given `value`: the first member with that key
/// has its value replaced and stays in its place; where no member has it,
/// the new member comes last.
pub open spec fn upsert(members: Seq<(Seq<char>, Value)>, key: Seq<char>, value: Value) -> Seq<
    (Seq<char>, Value),
> {
    let i = key_index(members, key, 0);
    if i < members.len() {
        members.update(i, (key, value))
    } else {
        members.push((key, value))
    }
}

/// The members without the first one whose key is `key`; the others keep
/// their order.
pub open spec fn without(members: Seq<(Seq<char>, Value)>, key: Seq<char>) -> Seq<
    (Seq<char>, Value),
> {
    let i = key_index(members, key, 0);
    if i < members.len() {
        members.remove(i)
    } else {
        members
    }
}

/// No character of `text` is a double quote.
pub open spec fn no_quote(text: Seq<char>) -> bool {
    forall|k: int| 0 <= k < text.len() ==> #[trigger] text[k] != '"'
}

/// The members have distinct keys, no key holds a quote, and each value is
/// readable.
pub open spec fn readable_members(members: Seq<(Seq<char>, Value)>) -> bool
    decreases members,
{
    &&& distinct_keys(members)
    &&& forall|i: int|
        0 <= i < members.len() ==> no_quote((#[trigger] members[i]).0) && members[i].1.readable()
}

/// Each item is readable.
pub open spec fn readable_items(items: Seq<Value>) -> bool
    decreases items,
{
    forall|i: int| 0 <= i < items.len() ==> (#[trigger] items[i]).readable()
}

impl Value {
    /// Whether the value can be read back from its own text. These are
    /// also the values that the parser can give: every object and array in
    /// the tree has at least one member or item, the keys of an object are
    /// distinct, no key and no string holds a double quote, and every
    /// number is a numeral.
    pub open spec fn readable(self) -> bool
        decreases self,
    {
        match self {
            Value::Object(members) => members.len() > 0 && readable_members(members),
            Value::Array(items) => items.len() > 0 && readable_items(items),
            Value::String(text) => no_quote(text),
            Value::Number(text) => is_numeral(text),
            _ => true,
        }
    }

    /// Every object in the tree has members with distinct keys.
    pub open spec fn wf(self) -> bool
        decreases self,
    {
        match self {
            Value::Object(members) => {
                &&& distinct_keys(members)
                &&& forall|i: int| 0 <= i < members.len() ==> (#[trigger] members[i]).1.wf()
            },
            Value::Array(items) => forall|i: int| 0 <= i < items.len() ==> (#[trigger] items[i]).wf(),
            _ => true,
        }
    }

    /// The value under `key` where `self` is an object that has the key.
    pub open spec fn get(self, key: Seq<char>) -> Option<Value> {
        match self {
            Value::Object(members) => {
                let i = key_index(members, key, 0);
                if i < members.len() {
                    Some(members[i].1)
                } else {
                    None
                }
            },
            _ => None,
        }
    }

    /// `self` with `key` given `value` where `self` is an object; `self`
    /// itself where it is not.
    pub open spec fn insert(self, key: Seq<char>, value: Value) -> Value {
        match self {
            Value::Object(members) => Value::Object(upsert(members, key, value)),
            _ => self,
        }
    }

    /// `self` without `key` where `self` is an object; `self` itself where
    /// it is not.
    pub open spec fn remove(self, key: Seq<char>) -> Value {
        match self {
            Value::Object(members) => Value::Object(without(members, key)),
            _ => self,
        }
    }

    /// `self` with `value` added at the end where `self` is an array; `self`
    /// itself where it is not.
    pub open spec fn push(self, value: Value) -> Value {
        match self {
            Value::Array(items) => Value::Array(items.push(value)),
            _ => self,
        }
    }

    /// Whether two values are equal when the order of an object's members
    /// is left aside: two objects are equal if they have as many members
    /// and each key of the first has an equal value in the second; two
    /// arrays, if they are as long and equal item by item.
    pub open spec fn same(self, other: Value) -> bool
        decreases self,
    {
        match (self, other) {
            (Value::Object(xs), Value::Object(ys)) => {
                &&& xs.len() == ys.len()
                &&& forall|i: int|
                    0 <= i < xs.len() ==> {
                        let j = key_index(ys, (#[trigger] xs[i]).0, 0);
                        j < ys.len() && xs[i].1.same(ys[j].1)
                    }
            },
            (Value::Array(xs), Value::Array(ys)) => {
                &&& xs.len() == ys.len()
                &&& forall|i: int| 0 <= i < xs.len() ==> (#[trigger] xs[i]).same(ys[i])
            },
            (Value::String(x), Value::String(y)) => x == y,
            (Value::Number(x), Value::Number(y)) => x == y,
            (Value::Bool(x), Value::Bool(y)) => x == y,
            (Value::Null, Value::Null) => true,
            _ => false,
        }
    }

    /// The item at `index` where `self` is an array that long.
    pub open spec fn pull(self, index: int) -> Option<Value> {
        match self {
            Value::Array(items) => if 0 <= index < items.len() {
                Some(items[index])
            } else {
                None
            },
            _ => None,
        }
    }
}

/// The position of a key lies between the start and the number of members;
/// no member before it has the key, and the member at it has.
pub proof fn lemma_key_index(members: Seq<(Seq<char>, Value)>, key: Seq<char>, from: int)
    requires
        0 <= from <= members.len(),
    ensures
        from <= key_index(members, key, from) <= members.len(),
        key_index(members, key, from) < members.len() ==> members[key_index(
            members,
            key,
            from,
        )].0 == key,
        forall|k: int|
            from <= k < key_index(members, key, from) ==> (#[trigger] members[k]).0 != key,
    decreases members.len() - from,
{
    if from < members.len() && members[from].0 != key {
        lemma_key_index(members, key, from + 1);
    }
}

/// Giving a key a value keeps the keys distinct.
pub proof fn lemma_upsert_distinct(members: Seq<(Seq<char>, Value)>, key: Seq<char>, value: Value)
    requires
        distinct_keys(members),
    ensures
        distinct_keys(upsert(members, key, value)),
{
    lemma_key_index(members, key, 0);
    let i = key_index(members, key, 0);
    let after = upsert(members, key, value);
    assert forall|a: int, b: int| 0 <= a < b < after.len() implies (#[trigger] after[a]).0 != (
    #[trigger] after[b]).0 by {
        if i < members.len() {
            assert(after[a].0 == members[a].0);
            assert(after[b].0 == members[b].0);
        } else {
            if b < members.len() {
                assert(after[a] == members[a]);
                assert(after[b] == members[b]);
            } else {
                assert(after[a] == members[a]);
            }
        }
    }
}

/// Giving a key a well-formed value keeps an object well-formed.
pub proof fn lemma_upsert_wf(members: Seq<(Seq<char>, Value)>, key: Seq<char>, value: Value)
    requires
        Value::Object(members).wf(),
        value.wf(),
    ensures
        Value::Object(upsert(members, key, value)).wf(),
{
    lemma_upsert_distinct(members, key, value);
    lemma_key_index(members, key, 0);
    let after = upsert(members, key, value);
    assert forall|i: int| 0 <= i < after.len() implies (#[trigger] after[i]).1.wf() by {
        if i < members.len() && i != key_index(members, key, 0) {
            assert(after[i] == members[i]);
        }
    }
}

/// Adding a well-formed item keeps an array well-formed.
pub proof fn lemma_push_wf(items: Seq<Value>, value: Value)
    requires
        Value::Array(items).wf(),
        value.wf(),
    ensures
        Value::Array(items.push(value)).wf(),
{
    let after = items.push(value);
    assert forall|i: int| 0 <= i < after.len() implies (#[trigger] after[i]).wf() by {
        if i < items.len() {
            assert(after[i] == items[i]);
            assert(Value::Array(items)->Array_0 == items);
        } else {
            assert(after[i] == value);
        }
    }
}

/// Taking a key out keeps an object well-formed.
pub proof fn lemma_without_wf(members: Seq<(Seq<char>, Value)>, key: Seq<char>)
    requires
        Value::Object(members).wf(),
    ensures
        Value::Object(without(members, key)).wf(),
{
    lemma_key_index(members, key, 0);
    let at = key_index(members, key, 0);
    let after = without(members, key);
    assert(Value::Object(members)->Object_0 == members);
    assert(Value::Object(after)->Object_0 == after);
    if at < members.len() {
        assert forall|i: int| 0 <= i < after.len() implies (#[trigger] after[i]).1.wf() by {
            if i < at {
                assert(after[i] == members[i]);
            } else {
                assert(after[i] == members[i + 1]);
            }
        }
        assert forall|a: int, b: int| 0 <= a < b < after.len() implies (#[trigger] after[a]).0 != (
        #[trigger] after[b]).0 by {
            let a0 = if a < at {
                a
            } else {
                a + 1
            };
            let b0 = if b < at {
                b
            } else {
                b + 1
            };
            assert(after[a] == members[a0]);
            assert(after[b] == members[b0]);
        }
    }
}

/// Giving a key without quotes a readable value keeps the members readable.
pub proof fn lemma_upsert_readable(members: Seq<(Seq<char>, Value)>, key: Seq<char>, value: Value)
    requires
        readable_members(members),
        no_quote(key),
        value.readable(),
    ensures
        readable_members(upsert(members, key, value)),
        upsert(members, key, value).len() > 0,
{
    lemma_upsert_distinct(members, key, value);
    lemma_key_index(members, key, 0);
    let after = upsert(members, key, value);
    assert forall|i: int| 0 <= i < after.len() implies no_quote((#[trigger] after[i]).0)
        && after[i].1.readable() by {
        if i < members.len() && i != key_index(members, key, 0) {
            assert(after[i] == members[i]);
        }
    }
}

/// Adding a readable item keeps the items readable.
pub proof fn lemma_push_readable(items: Seq<Value>, value: Value)
    requires
        readable_items(items),
        value.readable(),
    ensures
        readable_items(items.push(value)),
{
    let after = items.push(value);
    assert forall|i: int| 0 <= i < after.len() implies (#[trigger] after[i]).readable() by {
        if i < items.len() {
            assert(after[i] == items[i]);
        }
    }
}

/// A readable value is well-formed.
pub proof fn lemma_readable_wf(value: Value)
    requires
        value.readable(),
    ensures
        value.wf(),
    decreases value,
{
    match value {
        Value::Object(members) => {
            assert forall|i: int| 0 <= i < members.len() implies (#[trigger] members[i]).1.wf() by {
                lemma_readable_wf(members[i].1);
            }
        },
        Value::Array(items) => {
            assert forall|i: int| 0 <= i < items.len() implies (#[trigger] items[i]).wf() by {
                lemma_readable_wf(items[i]);
            }
        },
        _ => {},
    }
}

} // verus!
