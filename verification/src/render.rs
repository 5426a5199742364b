//! The serializer: a value as compact text.
//!
//! Members and items are joined by commas, with no whitespace anywhere.
//! The members of an object come in the order in which the object holds
//! them. A string's characters are written between quotes as they are:
//! nothing in them is escaped. A number is written as the text it holds.

use vstd::prelude::*;
use vstd::string::*;
use crate::grammar::{word_false, word_null, word_true};
use crate::json::{items_view, members_view, Json};
use crate::model::Value;

verus! {

/// What stands before the item or member at position `k` of a container:
/// a comma, but nothing before the first.
pub open spec fn separator(k: int) -> Seq<char> {
    if k == 0 {
        Seq::empty()
    } else {
        seq![',']
    }
}

/// The text of a value.
pub open spec fn render(value: Value) -> Seq<char>
    decreases value, 0int,
{
    match value {
        Value::Object(members) => seq!['{'] + members_text(members, 0) + seq!['}'],
        Value::Array(items) => seq!['['] + items_text(items, 0) + seq![']'],
        Value::String(text) => seq!['"'] + text + seq!['"'],
        Value::Number(text) => text,
        Value::Bool(b) => if b {
            word_true()
        } else {
            word_false()
        },
        Value::Null => word_null(),
    }
}

/// The text of the items from position `k` on, each but the very first of
/// the array with a comma before it.
pub open spec fn items_text(items: Seq<Value>, k: int) -> Seq<char>
    decreases items, items.len() - k,
{
    if k < 0 || k >= items.len() {
        Seq::empty()
    } else {
        separator(k) + render(items[k]) + items_text(items, k + 1)
    }
}

/// The text of the members from position `k` on, each as its key in
/// quotes, a colon and its value, and each but the very first of the object
/// with a comma before it.
pub open spec fn members_text(members: Seq<(Seq<char>, Value)>, k: int) -> Seq<char>
    decreases members, members.len() - k,
{
    if k < 0 || k >= members.len() {
        Seq::empty()
    } else {
        separator(k) + seq!['"'] + members[k].0 + seq!['"', ':'] + render(members[k].1)
            + members_text(members, k + 1)
    }
}

impl Json {
    /// The value as compact text.
    ///
    /// The text is a function of the value's model alone, so the same tree
    /// always gives the same text.
    pub fn to_string(&self) -> (text: String)
        ensures
            text@ == render(self@),
        decreases self,
    {
        match self {
            Json::Object(members) => {
                let ghost model = members_view(members@);
                let mut output = String::new();
                output.push('{');
                assert(output@ =~= seq!['{']);
                let mut i: usize = 0;
                while i < members.len()
                    invariant
                        i <= members.len(),
                        model == members_view(members@),
                        self == Json::Object(*members),
                        output@ + members_text(model, i as int) == seq!['{'] + members_text(
                            model,
                            0,
                        ),
                    decreases members.len() - i,
                {
                    let ghost before = output@;
                    if i > 0 {
                        output.push(',');
                    }
                    output.push('"');
                    output.append(members[i].0.as_str());
                    output.push('"');
                    output.push(':');
                    proof {
                        assert(decreases_to!(self => self->Object_0));
                        assert(decreases_to!(self->Object_0 => self->Object_0[i as int]));
                        assert(decreases_to!(self->Object_0[i as int] => self->Object_0[i as int].1));
                    }
                    let inner = members[i].1.to_string();
                    output.append(inner.as_str());
                    assert(output@ + members_text(model, i + 1) =~= before + members_text(
                        model,
                        i as int,
                    ));
                    i += 1;
                }
                output.push('}');
                assert(output@ =~= render(self@));
                output
            },
            Json::Array(items) => {
                let ghost model = items_view(items@);
                let mut output = String::new();
                output.push('[');
                assert(output@ =~= seq!['[']);
                let mut i: usize = 0;
                while i < items.len()
                    invariant
                        i <= items.len(),
                        model == items_view(items@),
                        self == Json::Array(*items),
                        output@ + items_text(model, i as int) == seq!['['] + items_text(model, 0),
                    decreases items.len() - i,
                {
                    let ghost before = output@;
                    if i > 0 {
                        output.push(',');
                    }
                    proof {
                        assert(decreases_to!(self => self->Array_0));
                        assert(decreases_to!(self->Array_0 => self->Array_0[i as int]));
                    }
                    let inner = items[i].to_string();
                    output.append(inner.as_str());
                    assert(output@ + items_text(model, i + 1) =~= before + items_text(
                        model,
                        i as int,
                    ));
                    i += 1;
                }
                output.push(']');
                assert(output@ =~= render(self@));
                output
            },
            Json::String(text) => {
                let mut output = String::new();
                output.push('"');
                output.append(text.as_str());
                output.push('"');
                assert(output@ =~= render(self@));
                output
            },
            Json::Number(text) => text.clone(),
            Json::Bool(b) => {
                proof {
                    reveal_strlit("true");
                    reveal_strlit("false");
                }
                let output = if *b {
                    "true".to_owned()
                } else {
                    "false".to_owned()
                };
                assert(output@ =~= render(self@));
                output
            },
            Json::Null => {
                proof {
                    reveal_strlit("null");
                }
                let output = "null".to_owned();
                assert(output@ =~= render(self@));
                output
            },
        }
    }
}

} // verus!
