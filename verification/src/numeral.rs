//! The text of a number.
//!
//! A numeral is one or more digits, then optionally a point and any number
//! of digits, then optionally an exponent mark (`e` or `E`) and one or more
//! digits. It carries no sign, neither in front nor in the exponent.

use vstd::prelude::*;
use crate::scan::{first_stop, is_digit, is_numeral_char, lemma_first_stop, skip_to, stops, Stop};

verus! {

/// Where the whole part of `t` ends: behind its leading digits.
pub open spec fn whole_end(t: Seq<char>) -> int {
    first_stop(t, 0, Stop::NonDigit)
}

/// Where the mantissa of `t` ends: behind the whole part, and behind the
/// point and the digits after it where a point follows the whole part.
pub open spec fn mantissa_end(t: Seq<char>) -> int {
    let a = whole_end(t);
    if a < t.len() && t[a] == '.' {
        first_stop(t, a + 1, Stop::NonDigit)
    } else {
        a
    }
}

/// Whether `t` is a numeral.
pub open spec fn is_numeral(t: Seq<char>) -> bool {
    let b = mantissa_end(t);
    &&& whole_end(t) >= 1
    &&& b == t.len() || {
        &&& (t[b] == 'e' || t[b] == 'E')
        &&& b + 1 < t.len()
        &&& first_stop(t, b + 1, Stop::NonDigit) == t.len()
    }
}

/// A numeral starts with a digit and holds only digits, points and
/// exponent marks.
pub proof fn lemma_numeral_chars(t: Seq<char>)
    requires
        is_numeral(t),
    ensures
        t.len() >= 1,
        is_digit(t[0]),
        forall|k: int| 0 <= k < t.len() ==> is_numeral_char(#[trigger] t[k]),
{
    let a = whole_end(t);
    let b = mantissa_end(t);
    lemma_first_stop(t, 0, Stop::NonDigit);
    if a < t.len() && t[a] == '.' {
        lemma_first_stop(t, a + 1, Stop::NonDigit);
    }
    if b < t.len() {
        lemma_first_stop(t, b + 1, Stop::NonDigit);
    }
    assert forall|k: int| 0 <= k < t.len() implies is_numeral_char(#[trigger] t[k]) by {
        if k < a {
        } else if k < b {
            if k > a {
                assert(!stops(Stop::NonDigit, t[k]));
            }
        } else if k > b {
            assert(!stops(Stop::NonDigit, t[k]));
        }
    }
}

/// Whether `text` is a numeral.
pub(crate) fn numeral(text: &Vec<char>) -> (r: bool)
    ensures
        r == is_numeral(text@),
{
    let n = text.len();
    let a = skip_to(text, 0, Stop::NonDigit);
    if a == 0 {
        return false;
    }
    let b = if a < n && text[a] == '.' {
        skip_to(text, a + 1, Stop::NonDigit)
    } else {
        a
    };
    if b == n {
        return true;
    }
    if text[b] != 'e' && text[b] != 'E' {
        return false;
    }
    if b + 1 >= n {
        return false;
    }
    skip_to(text, b + 1, Stop::NonDigit) == n
}

} // verus!
