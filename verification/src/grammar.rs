//! What the parser accepts, and the value it gives: the grammar as
//! functions on a text and a position in it.
//!
//! Each function that reads a value returns the value together with the
//! position behind it, or `None` where the text is refused there.

use vstd::prelude::*;
use crate::numeral::is_numeral;
use crate::scan::{first_stop, is_blank, is_digit, Stop};
use crate::model::{upsert, Value};

verus! {

/// Whether `s` holds the characters of `word` from position `i` on.
pub open spec fn has_text_at(s: Seq<char>, i: int, word: Seq<char>) -> bool {
    0 <= i && i + word.len() <= s.len() && s.subrange(i, i + word.len()) == word
}

/// The word `true`.
pub open spec fn word_true() -> Seq<char> {
    seq!['t', 'r', 'u', 'e']
}

/// The word `false`.
pub open spec fn word_false() -> Seq<char> {
    seq!['f', 'a', 'l', 's', 'e']
}

/// The word `null`.
pub open spec fn word_null() -> Seq<char> {
    seq!['n', 'u', 'l', 'l']
}

/// A literal word at `i` that stands for `value`. The word is read
/// exactly; what follows it up to the next `,`, `]` or `}` is passed over.
pub open spec fn literal_at(s: Seq<char>, i: int, word: Seq<char>, value: Value) -> Option<
    (Value, int),
> {
    if has_text_at(s, i, word) {
        Some((value, first_stop(s, i + word.len(), Stop::Closer)))
    } else {
        None
    }
}

/// The text of a string whose opening quote is at `i`, and the position
/// behind it. The text runs up to the next quote, or to the end of `s`
/// where no quote follows; no character in it is an escape. What follows
/// the closing quote up to the next `,`, `]`, `}` or `:` is passed over.
pub open spec fn string_at(s: Seq<char>, i: int) -> (Seq<char>, int) {
    let close = first_stop(s, i + 1, Stop::Quote);
    (s.subrange(i + 1, close), first_stop(s, close, Stop::CloserOrColon))
}

/// A number that starts at `i`. Its text is the longest run of digits,
/// points and exponent marks from `i` on, and must be a numeral. What
/// follows it up to the next `,`, `]` or `}` is passed over.
pub open spec fn number_at(s: Seq<char>, i: int) -> Option<(Value, int)> {
    let end = first_stop(s, i, Stop::NonNumeral);
    let text = s.subrange(i, end);
    if is_numeral(text) {
        Some((Value::Number(text), first_stop(s, end, Stop::Closer)))
    } else {
        None
    }
}

/// A value at or after `i`: whitespace is passed over, and the first other
/// character decides what is read.
pub open spec fn value_at(s: Seq<char>, i: int) -> Option<(Value, int)>
    decreases s.len() - i, 0int,
{
    if i < 0 || i >= s.len() {
        None
    } else if is_blank(s[i]) {
        value_at(s, i + 1)
    } else if s[i] == '{' {
        members_at(s, i + 1, Seq::empty())
    } else if s[i] == '[' {
        items_at(s, i + 1, Seq::empty())
    } else if s[i] == '"' {
        Some((Value::String(string_at(s, i).0), string_at(s, i).1))
    } else if is_digit(s[i]) {
        number_at(s, i)
    } else if s[i] == 't' {
        literal_at(s, i, word_true(), Value::Bool(true))
    } else if s[i] == 'f' {
        literal_at(s, i, word_false(), Value::Bool(false))
    } else if s[i] == 'n' {
        literal_at(s, i, word_null(), Value::Null)
    } else {
        None
    }
}

/// The rest of an array from `i` on, `done` being the items read so far.
/// Each item is a value followed at once by `,`, after which the next item
/// is read, or by `]`, which ends the array.
pub open spec fn items_at(s: Seq<char>, i: int, done: Seq<Value>) -> Option<(Value, int)>
    decreases s.len() - i, 1int,
{
    match value_at(s, i) {
        None => None,
        Some((item, j)) => {
            if !(i < j < s.len()) {
                None
            } else if s[j] == ',' {
                items_at(s, j + 1, done.push(item))
            } else if s[j] == ']' {
                Some((Value::Array(done.push(item)), j + 1))
            } else {
                None
            }
        },
    }
}

/// The rest of an object from `i` on, `done` being the members read so far.
/// Each member is a key in quotes, before which whitespace is passed over,
/// then `:` and a value. The value is followed at once by `,`, after which
/// the next member is read, or by `}`, which ends the object. A key that
/// comes again replaces the value it had.
pub open spec fn members_at(s: Seq<char>, i: int, done: Seq<(Seq<char>, Value)>) -> Option<
    (Value, int),
>
    decreases s.len() - i, 1int,
{
    if i < 0 || i >= s.len() {
        None
    } else if is_blank(s[i]) {
        members_at(s, i + 1, done)
    } else if s[i] != '"' {
        None
    } else {
        let (key, j) = string_at(s, i);
        if !(i < j < s.len()) || s[j] != ':' {
            None
        } else {
            match value_at(s, j + 1) {
                None => None,
                Some((value, k)) => {
                    if !(j < k < s.len()) {
                        None
                    } else if s[k] == ',' {
                        members_at(s, k + 1, upsert(done, key, value))
                    } else if s[k] == '}' {
                        Some((Value::Object(upsert(done, key, value)), k + 1))
                    } else {
                        None
                    }
                },
            }
        }
    }
}

/// The value that a text stands for: the first value in it. What follows
/// that value is not looked at.
pub open spec fn parse_text(s: Seq<char>) -> Option<Value> {
    match value_at(s, 0) {
        Some((value, _)) => Some(value),
        None => None,
    }
}

} // verus!
