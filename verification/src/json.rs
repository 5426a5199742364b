//! The JSON value tree: the type that programs hold, with its editing and
//! lookup operations and its equality.

use vstd::prelude::*;
use crate::model::{
    key_index, lemma_push_wf, lemma_upsert_wf, lemma_without_wf, upsert, without, Value,
};

verus! {

/// A JSON value.
///
/// `Object` keeps its members in the order in which their keys were first
/// inserted, and no two members are meant to share a key: `new_object`,
/// `insert`, `remove` and `parse` keep it so. Where members written by hand
/// do share one, `get`, `insert` and `remove` act on the first of them.
/// `Number` keeps the decimal text of the number, so that the library
/// itself never rounds.
#[derive(Debug)]
pub enum Json {
    Object(Vec<(String, Json)>),
    Array(Vec<Json>),
    String(String),
    Number(String),
    Bool(bool),
    Null,
}

/// The models of the items of an array, in order.
pub open spec fn items_view(items: Seq<Json>) -> Seq<Value>
    decreases items,
{
    Seq::new(
        items.len(),
        |i: int|
            if 0 <= i < items.len() {
                items[i].view()
            } else {
                Value::Null
            },
    )
}

/// The models of the members of an object, in order.
pub open spec fn members_view(members: Seq<(String, Json)>) -> Seq<(Seq<char>, Value)>
    decreases members,
{
    Seq::new(
        members.len(),
        |i: int|
            if 0 <= i < members.len() {
                (members[i].0@, members[i].1.view())
            } else {
                (Seq::empty(), Value::Null)
            },
    )
}

impl View for Json {
    type V = Value;

    open spec fn view(&self) -> Value
        decreases self,
    {
        match self {
            Json::Object(members) => Value::Object(members_view(members@)),
            Json::Array(items) => Value::Array(items_view(items@)),
            Json::String(text) => Value::String(text@),
            Json::Number(text) => Value::Number(text@),
            Json::Bool(b) => Value::Bool(*b),
            Json::Null => Value::Null,
        }
    }
}

/// The position of the first member whose key is `key`, or the number of
/// members where there is none.
pub(crate) fn find_key(members: &Vec<(String, Json)>, key: &String) -> (at: usize)
    ensures
        at == key_index(members_view(members@), key@, 0),
        at <= members.len(),
{
    let mut at: usize = 0;
    while at < members.len() && !(members[at].0 == *key)
        invariant
            at <= members.len(),
            key_index(members_view(members@), key@, 0) == key_index(
                members_view(members@),
                key@,
                at as int,
            ),
        decreases members.len() - at,
    {
        at += 1;
    }
    at
}

/// Gives `key` the value `value` among `members`.
pub(crate) fn put(members: &mut Vec<(String, Json)>, key: String, value: Json)
    ensures
        members_view(final(members)@) == upsert(members_view(old(members)@), key@, value@),
{
    let at = find_key(members, &key);
    if at < members.len() {
        members.set(at, (key, value));
    } else {
        members.push((key, value));
    }
    assert(members_view(members@) =~= upsert(members_view(old(members)@), key@, value@));
}

impl Json {
    /// An object without members.
    pub fn new_object() -> (r: Json)
        ensures
            r@ == Value::Object(Seq::empty()),
    {
        let r = Json::Object(Vec::new());
        assert(r@->Object_0 =~= Seq::empty());
        r
    }

    /// An array without items.
    pub fn new_array() -> (r: Json)
        ensures
            r@ == Value::Array(Seq::empty()),
    {
        let r = Json::Array(Vec::new());
        assert(r@->Array_0 =~= Seq::empty());
        r
    }

    /// The string value that holds `value`.
    pub fn string_from(value: &str) -> (r: Json)
        ensures
            r@ == Value::String(value@),
    {
        Json::String(value.to_owned())
    }

    /// Whether the value is an object.
    pub fn is_object(&self) -> (r: bool)
        ensures
            r == (self@ is Object),
    {
        match self {
            Json::Object(_) => true,
            _ => false,
        }
    }

    /// Whether the value is an array.
    pub fn is_array(&self) -> (r: bool)
        ensures
            r == (self@ is Array),
    {
        match self {
            Json::Array(_) => true,
            _ => false,
        }
    }

    /// Gives `name` the value `value` in an object: a member with that key
    /// has its value replaced, else the new member comes last. On any other
    /// kind of value nothing happens.
    pub fn insert(&mut self, name: &str, value: Json)
        ensures
            final(self)@ == old(self)@.insert(name@, value@),
            !(old(self)@ is Object) ==> *final(self) == *old(self),
            old(self)@.wf() && value@.wf() ==> final(self)@.wf(),
    {
        match self {
            Json::Object(members) => {
                proof {
                    if Value::Object(members_view(members@)).wf() && value@.wf() {
                        lemma_upsert_wf(members_view(members@), name@, value@);
                    }
                }
                put(members, name.to_owned(), value);
            },
            _ => {},
        }
    }

    /// The value under `name` in an object. `None` where the object has no
    /// such key, and on any other kind of value.
    pub fn get(&mut self, name: &str) -> (r: Option<&Json>)
        ensures
            match old(self)@.get(name@) {
                Some(value) => r is Some && r->Some_0@ == value,
                None => r is None,
            },
            *final(self) == *old(self),
    {
        match self {
            Json::Object(members) => {
                let key = name.to_owned();
                let at = find_key(members, &key);
                if at < members.len() {
                    Some(&members[at].1)
                } else {
                    None
                }
            },
            _ => None,
        }
    }

    /// Takes the member with the key `name` out of an object; the other
    /// members keep their order. Nothing happens where the object has no
    /// such key, and on any other kind of value.
    pub fn remove(&mut self, name: &str)
        ensures
            final(self)@ == old(self)@.remove(name@),
            !(old(self)@ is Object) ==> *final(self) == *old(self),
            old(self)@.wf() ==> final(self)@.wf(),
    {
        match self {
            Json::Object(members) => {
                proof {
                    if Value::Object(members_view(members@)).wf() {
                        lemma_without_wf(members_view(members@), name@);
                    }
                }
                let ghost before = members_view(members@);
                let key = name.to_owned();
                let at = find_key(members, &key);
                if at < members.len() {
                    members.remove(at);
                }
                assert(members_view(members@) =~= without(before, name@));
            },
            _ => {},
        }
    }

    /// Adds `new_value` at the end of an array. On any other kind of value
    /// nothing happens.
    pub fn push(&mut self, new_value: Json)
        ensures
            final(self)@ == old(self)@.push(new_value@),
            !(old(self)@ is Array) ==> *final(self) == *old(self),
            old(self)@.wf() && new_value@.wf() ==> final(self)@.wf(),
    {
        match self {
            Json::Array(values) => {
                proof {
                    if Value::Array(items_view(values@)).wf() && new_value@.wf() {
                        lemma_push_wf(items_view(values@), new_value@);
                    }
                }
                let ghost before = items_view(values@);
                values.push(new_value);
                assert(items_view(values@) =~= before.push(new_value@));
            },
            _ => {},
        }
    }

    /// The item at `index` of an array. `None` where the array is not that
    /// long, and on any other kind of value.
    pub fn pull(&self, index: usize) -> (r: Option<&Json>)
        ensures
            match self@.pull(index as int) {
                Some(value) => r is Some && r->Some_0@ == value,
                None => r is None,
            },
    {
        match self {
            Json::Array(values) => {
                if index < values.len() {
                    Some(&values[index])
                } else {
                    None
                }
            },
            _ => None,
        }
    }

    /// Whether two values are equal, the order of an object's members left
    /// aside.
    fn equals(&self, other: &Json) -> (r: bool)
        ensures
            r == self@.same(other@),
        decreases self,
    {
        match self {
            Json::Object(xs) => match other {
                Json::Object(ys) => {
                    assert(self@->Object_0 == members_view(xs@));
                    assert(other@->Object_0 == members_view(ys@));
                    assert(members_view(xs@).len() == xs.len());
                    assert(members_view(ys@).len() == ys.len());
                    if xs.len() != ys.len() {
                        return false;
                    }
                    let mut i: usize = 0;
                    while i < xs.len()
                        invariant
                            i <= xs.len(),
                            self == Json::Object(*xs),
                            other == Json::Object(*ys),
                            xs.len() == ys.len(),
                            self@->Object_0 == members_view(xs@),
                            other@->Object_0 == members_view(ys@),
                            members_view(xs@).len() == xs.len(),
                            members_view(ys@).len() == ys.len(),
                            forall|k: int|
                                0 <= k < i ==> {
                                    let j = key_index(
                                        members_view(ys@),
                                        (#[trigger] members_view(xs@)[k]).0,
                                        0,
                                    );
                                    j < ys.len() && members_view(xs@)[k].1.same(
                                        members_view(ys@)[j].1,
                                    )
                                },
                        decreases xs.len() - i,
                    {
                        let at = find_key(ys, &xs[i].0);
                        if at >= ys.len() {
                            assert(members_view(xs@)[i as int].0 == xs[i as int].0@);
                            return false;
                        }
                        proof {
                            assert(decreases_to!(self => self->Object_0));
                            assert(decreases_to!(self->Object_0 => self->Object_0[i as int]));
                            assert(decreases_to!(self->Object_0[i as int] => self->Object_0[i as int].1));
                        }
                        if !xs[i].1.equals(&ys[at].1) {
                            assert(members_view(xs@)[i as int].0 == xs[i as int].0@);
                            return false;
                        }
                        i += 1;
                    }
                    true
                },
                _ => false,
            },
            Json::Array(xs) => match other {
                Json::Array(ys) => {
                    assert(self@->Array_0 == items_view(xs@));
                    assert(other@->Array_0 == items_view(ys@));
                    assert(items_view(xs@).len() == xs.len());
                    assert(items_view(ys@).len() == ys.len());
                    if xs.len() != ys.len() {
                        return false;
                    }
                    let mut i: usize = 0;
                    while i < xs.len()
                        invariant
                            i <= xs.len(),
                            self == Json::Array(*xs),
                            other == Json::Array(*ys),
                            xs.len() == ys.len(),
                            self@->Array_0 == items_view(xs@),
                            other@->Array_0 == items_view(ys@),
                            items_view(xs@).len() == xs.len(),
                            items_view(ys@).len() == ys.len(),
                            forall|k: int|
                                0 <= k < i ==> (#[trigger] items_view(xs@)[k]).same(
                                    items_view(ys@)[k],
                                ),
                        decreases xs.len() - i,
                    {
                        proof {
                            assert(decreases_to!(self => self->Array_0));
                            assert(decreases_to!(self->Array_0 => self->Array_0[i as int]));
                        }
                        if !xs[i].equals(&ys[i]) {
                            assert(items_view(xs@)[i as int] == xs[i as int]@);
                            return false;
                        }
                        i += 1;
                    }
                    true
                },
                _ => false,
            },
            Json::String(x) => match other {
                Json::String(y) => *x == *y,
                _ => false,
            },
            Json::Number(x) => match other {
                Json::Number(y) => *x == *y,
                _ => false,
            },
            Json::Bool(x) => match other {
                Json::Bool(y) => *x == *y,
                _ => false,
            },
            Json::Null => match other {
                Json::Null => true,
                _ => false,
            },
        }
    }
}

impl PartialEq for Json {
    /// Equality of values, the order of an object's members left aside.
    fn eq(&self, other: &Json) -> (r: bool) {
        self.equals(other)
    }
}

impl vstd::std_specs::cmp::PartialEqSpecImpl for Json {
    open spec fn obeys_eq_spec() -> bool {
        true
    }

    open spec fn eq_spec(&self, other: &Json) -> bool {
        self@.same(other@)
    }
}

} // verus!
