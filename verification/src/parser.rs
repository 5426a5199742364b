//! The parser: one pass over the characters of a text, with a cursor that
//! every step moves forward.

use vstd::prelude::*;
use crate::grammar::{
    items_at, literal_at, members_at, number_at, parse_text, string_at, value_at,
    word_false, word_null, word_true,
};
use crate::numeral::{lemma_numeral_chars, numeral};
use crate::laws::lemma_read_is_readable;
use crate::scan::{blank, chars_of, digit, skip_to, text_between, Stop};
use crate::json::{items_view, members_view, put, Json};
use crate::model::{lemma_readable_wf, Value};

verus! {

/// Whether the result of a parsing step and the cursor it left are what the
/// grammar gives: on success the value and the position behind it, and a
/// failure exactly where the grammar refuses.
pub open spec fn agrees(r: Result<Json, ()>, cursor: int, expected: Option<(Value, int)>) -> bool {
    match expected {
        Some((value, next)) => r is Ok && r->Ok_0@ == value && cursor == next,
        None => r is Err,
    }
}

/// Reads the string whose opening quote is under the cursor and leaves the
/// cursor behind it.
fn quoted(input: &Vec<char>, index: &mut usize) -> (text: String)
    requires
        *old(index) < input.len(),
    ensures
        text@ == string_at(input@, *old(index) as int).0,
        *final(index) == string_at(input@, *old(index) as int).1,
        *old(index) < *final(index) <= input.len(),
{
    let open: usize = *index;
    let close = skip_to(input, open + 1, Stop::Quote);
    let text = text_between(input, open + 1, close);
    *index = skip_to(input, close, Stop::CloserOrColon);
    text
}

impl Json {
    /// Reads the first value in `input`.
    ///
    /// The result is the value that the grammar gives for the text, and a
    /// failure exactly where the grammar refuses it. What follows the value
    /// is not looked at. A value that was read is readable: its text reads
    /// back as the same value. The calls nest as deep as the containers in
    /// the text do.
    pub fn parse(input: &str) -> (r: Result<Json, ()>)
        ensures
            match parse_text(input@) {
                Some(value) => r is Ok && r->Ok_0@ == value,
                None => r is Err,
            },
            r is Ok ==> r->Ok_0@.readable() && r->Ok_0@.wf(),
    {
        let chars = chars_of(input);
        let mut index: usize = 0;
        let r = Self::parse_value(&chars, &mut index);
        proof {
            lemma_read_is_readable(chars@, 0);
            if r is Ok {
                lemma_readable_wf(r->Ok_0@);
            }
        }
        r
    }

    /// Reads the members of an object whose `{` is under the cursor.
    fn parse_object(input: &Vec<char>, index: &mut usize) -> (r: Result<Json, ()>)
        requires
            *old(index) < input.len(),
        ensures
            agrees(
                r,
                *final(index) as int,
                members_at(input@, *old(index) + 1, Seq::empty()),
            ),
            r is Ok ==> *old(index) < *final(index) <= input.len(),
        decreases input.len() - *old(index), 0int,
    {
        let start: usize = *index;
        *index += 1;
        let mut object: Vec<(String, Json)> = Vec::new();
        assert(members_view(object@) =~= Seq::empty());
        while *index < input.len()
            invariant
                start == *old(index),
                start < *index <= input.len(),
                members_at(input@, start + 1, Seq::empty()) == members_at(
                    input@,
                    *index as int,
                    members_view(object@),
                ),
            decreases input.len() - *index,
        {
            let c = input[*index];
            if blank(c) {
                *index += 1;
            } else if c != '"' {
                return Err(());
            } else {
                let name = quoted(input, index);
                if *index >= input.len() || input[*index] != ':' {
                    return Err(());
                }
                *index += 1;
                let value = match Self::parse_value(input, index) {
                    Ok(value) => value,
                    Err(_) => {
                        return Err(());
                    },
                };
                if *index >= input.len() {
                    return Err(());
                }
                let c = input[*index];
                if c == ',' {
                    put(&mut object, name, value);
                    *index += 1;
                } else if c == '}' {
                    put(&mut object, name, value);
                    *index += 1;
                    return Ok(Json::Object(object));
                } else {
                    return Err(());
                }
            }
        }
        Err(())
    }

    /// Reads the items of an array whose `[` is under the cursor.
    fn parse_array(input: &Vec<char>, index: &mut usize) -> (r: Result<Json, ()>)
        requires
            *old(index) < input.len(),
        ensures
            agrees(r, *final(index) as int, items_at(input@, *old(index) + 1, Seq::empty())),
            r is Ok ==> *old(index) < *final(index) <= input.len(),
        decreases input.len() - *old(index), 0int,
    {
        let start: usize = *index;
        *index += 1;
        let mut array: Vec<Json> = Vec::new();
        assert(items_view(array@) =~= Seq::empty());
        while *index < input.len()
            invariant
                start == *old(index),
                start < *index <= input.len(),
                items_at(input@, start + 1, Seq::empty()) == items_at(
                    input@,
                    *index as int,
                    items_view(array@),
                ),
            decreases input.len() - *index,
        {
            let ghost done = items_view(array@);
            let value = match Self::parse_value(input, index) {
                Ok(value) => value,
                Err(_) => {
                    return Err(());
                },
            };
            if *index >= input.len() {
                return Err(());
            }
            let c = input[*index];
            array.push(value);
            assert(items_view(array@) =~= done.push(value@));
            if c == ',' {
                *index += 1;
            } else if c == ']' {
                *index += 1;
                return Ok(Json::Array(array));
            } else {
                return Err(());
            }
        }
        Err(())
    }

    /// Reads the value at or after the cursor: passes over whitespace and
    /// lets the first other character decide what is read.
    fn parse_value(input: &Vec<char>, index: &mut usize) -> (r: Result<Json, ()>)
        requires
            *old(index) <= input.len(),
        ensures
            agrees(r, *final(index) as int, value_at(input@, *old(index) as int)),
            r is Ok ==> *old(index) < *final(index) <= input.len(),
        decreases input.len() - *old(index), 1int,
    {
        let start: usize = *index;
        while *index < input.len()
            invariant
                start == *old(index),
                start <= *index <= input.len(),
                value_at(input@, start as int) == value_at(input@, *index as int),
            decreases input.len() - *index,
        {
            let c = input[*index];
            if !blank(c) {
                if c == '{' {
                    return Self::parse_object(input, index);
                }
                if c == '[' {
                    return Self::parse_array(input, index);
                }
                if c == '"' {
                    return Self::parse_string(input, index);
                }
                if digit(c) {
                    return Self::parse_number(input, index);
                }
                if c == 't' {
                    return Self::parse_true(input, index);
                }
                if c == 'f' {
                    return Self::parse_false(input, index);
                }
                if c == 'n' {
                    return Self::parse_null(input, index);
                }
                return Err(());
            }
            *index += 1;
        }
        Err(())
    }

    /// Reads the string whose opening quote is under the cursor.
    fn parse_string(input: &Vec<char>, index: &mut usize) -> (r: Result<Json, ()>)
        requires
            *old(index) < input.len(),
        ensures
            r is Ok,
            r->Ok_0@ == Value::String(string_at(input@, *old(index) as int).0),
            *final(index) == string_at(input@, *old(index) as int).1,
            *old(index) < *final(index) <= input.len(),
    {
        let text = quoted(input, index);
        Ok(Json::String(text))
    }

    /// Reads the number that starts under the cursor.
    fn parse_number(input: &Vec<char>, index: &mut usize) -> (r: Result<Json, ()>)
        requires
            *old(index) <= input.len(),
        ensures
            agrees(r, *final(index) as int, number_at(input@, *old(index) as int)),
            r is Ok ==> *old(index) < *final(index) <= input.len(),
    {
        let start: usize = *index;
        let end = skip_to(input, start, Stop::NonNumeral);
        let number = text_between(input, start, end);
        let figures = chars_of(number.as_str());
        if numeral(&figures) {
            proof {
                lemma_numeral_chars(figures@);
            }
            *index = skip_to(input, end, Stop::Closer);
            Ok(Json::Number(number))
        } else {
            Err(())
        }
    }

    /// Reads the word `true`, whose `t` is under the cursor.
    fn parse_true(input: &Vec<char>, index: &mut usize) -> (r: Result<Json, ()>)
        requires
            *old(index) < input.len(),
            input[*old(index) as int] == 't',
        ensures
            agrees(
                r,
                *final(index) as int,
                literal_at(input@, *old(index) as int, word_true(), Value::Bool(true)),
            ),
            r is Ok ==> *old(index) < *final(index) <= input.len(),
    {
        let at: usize = *index;
        if input.len() - at < 4 {
            return Err(());
        }
        if input[at + 1] != 'r' || input[at + 2] != 'u' || input[at + 3] != 'e' {
            proof {
                let window = input@.subrange(at as int, at + 4);
                assert(window[1] == input@[at + 1]);
                assert(window[2] == input@[at + 2]);
                assert(window[3] == input@[at + 3]);
            }
            return Err(());
        }
        assert(input@.subrange(at as int, at + 4) =~= word_true());
        *index = skip_to(input, at + 4, Stop::Closer);
        Ok(Json::Bool(true))
    }

    /// Reads the word `false`, whose `f` is under the cursor.
    fn parse_false(input: &Vec<char>, index: &mut usize) -> (r: Result<Json, ()>)
        requires
            *old(index) < input.len(),
            input[*old(index) as int] == 'f',
        ensures
            agrees(
                r,
                *final(index) as int,
                literal_at(input@, *old(index) as int, word_false(), Value::Bool(false)),
            ),
            r is Ok ==> *old(index) < *final(index) <= input.len(),
    {
        let at: usize = *index;
        if input.len() - at < 5 {
            return Err(());
        }
        if input[at + 1] != 'a' || input[at + 2] != 'l' || input[at + 3] != 's' || input[at + 4]
            != 'e' {
            proof {
                let window = input@.subrange(at as int, at + 5);
                assert(window[1] == input@[at + 1]);
                assert(window[2] == input@[at + 2]);
                assert(window[3] == input@[at + 3]);
                assert(window[4] == input@[at + 4]);
            }
            return Err(());
        }
        assert(input@.subrange(at as int, at + 5) =~= word_false());
        *index = skip_to(input, at + 5, Stop::Closer);
        Ok(Json::Bool(false))
    }

    /// Reads the word `null`, whose `n` is under the cursor.
    fn parse_null(input: &Vec<char>, index: &mut usize) -> (r: Result<Json, ()>)
        requires
            *old(index) < input.len(),
            input[*old(index) as int] == 'n',
        ensures
            agrees(
                r,
                *final(index) as int,
                literal_at(input@, *old(index) as int, word_null(), Value::Null),
            ),
            r is Ok ==> *old(index) < *final(index) <= input.len(),
    {
        let at: usize = *index;
        if input.len() - at < 4 {
            return Err(());
        }
        if input[at + 1] != 'u' || input[at + 2] != 'l' || input[at + 3] != 'l' {
            proof {
                let window = input@.subrange(at as int, at + 4);
                assert(window[1] == input@[at + 1]);
                assert(window[2] == input@[at + 2]);
                assert(window[3] == input@[at + 3]);
            }
            return Err(());
        }
        assert(input@.subrange(at as int, at + 4) =~= word_null());
        *index = skip_to(input, at + 4, Stop::Closer);
        Ok(Json::Null)
    }
}

} // verus!
