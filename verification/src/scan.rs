//! Character classes and forward scans over a text held as characters.

use vstd::prelude::*;

verus! {

/// ASCII whitespace: space, tab, line feed, form feed, carriage return.
pub open spec fn is_blank(c: char) -> bool {
    c == ' ' || c == '\t' || c == '\n' || c == '\x0C' || c == '\r'
}

/// An ASCII decimal digit.
pub open spec fn is_digit(c: char) -> bool {
    '0' <= c && c <= '9'
}

/// A character a number's text may hold: a digit, the point, or an exponent mark.
pub open spec fn is_numeral_char(c: char) -> bool {
    is_digit(c) || c == '.' || c == 'e' || c == 'E'
}

/// A character that closes a value inside a container: `,`, `]` or `}`.
pub open spec fn is_closer(c: char) -> bool {
    c == ',' || c == ']' || c == '}'
}

/// What a forward scan looks for.
#[derive(Clone, Copy, Debug)]
pub enum Stop {
    /// A double quote.
    Quote,
    /// One of `,`, `]`, `}`.
    Closer,
    /// One of `,`, `]`, `}`, `:`.
    CloserOrColon,
    /// Anything that is not a digit, a point or an exponent mark.
    NonNumeral,
    /// Anything that is not a digit.
    NonDigit,
}

/// Whether a scan for `stop` ends on the character `c`.
pub open spec fn stops(stop: Stop, c: char) -> bool {
    match stop {
        Stop::Quote => c == '"',
        Stop::Closer => is_closer(c),
        Stop::CloserOrColon => is_closer(c) || c == ':',
        Stop::NonNumeral => !is_numeral_char(c),
        Stop::NonDigit => !is_digit(c),
    }
}

/// The first position at or after `i` whose character ends a scan for `stop`,
/// or the end of `s` where there is none.
pub open spec fn first_stop(s: Seq<char>, i: int, stop: Stop) -> int
    decreases s.len() - i,
{
    if i < 0 || i >= s.len() || stops(stop, s[i]) {
        i
    } else {
        first_stop(s, i + 1, stop)
    }
}

/// A scan ends inside the text or at its end, on a stopping character if
/// inside, and passes over none.
pub proof fn lemma_first_stop(s: Seq<char>, i: int, stop: Stop)
    requires
        0 <= i <= s.len(),
    ensures
        i <= first_stop(s, i, stop) <= s.len(),
        first_stop(s, i, stop) < s.len() ==> stops(stop, s[first_stop(s, i, stop)]),
        forall|k: int| i <= k < first_stop(s, i, stop) ==> !stops(stop, #[trigger] s[k]),
    decreases s.len() - i,
{
    if i < s.len() && !stops(stop, s[i]) {
        lemma_first_stop(s, i + 1, stop);
    }
}

/// A scan ends at `j` when nothing from `i` up to `j` stops it and `j` is the
/// end of the text or holds a stopping character.
pub proof fn lemma_first_stop_is(s: Seq<char>, i: int, j: int, stop: Stop)
    requires
        0 <= i <= j <= s.len(),
        forall|k: int| i <= k < j ==> !stops(stop, #[trigger] s[k]),
        j == s.len() || stops(stop, s[j]),
    ensures
        first_stop(s, i, stop) == j,
    decreases j - i,
{
    if i < j {
        lemma_first_stop_is(s, i + 1, j, stop);
    }
}

/// Whether `c` is ASCII whitespace.
pub(crate) fn blank(c: char) -> (r: bool)
    ensures
        r == is_blank(c),
{
    c == ' ' || c == '\t' || c == '\n' || c == '\x0C' || c == '\r'
}

/// Whether `c` is an ASCII decimal digit.
pub(crate) fn digit(c: char) -> (r: bool)
    ensures
        r == is_digit(c),
{
    '0' <= c && c <= '9'
}

/// Whether a scan for `stop` ends on `c`.
pub(crate) fn ends_scan(stop: Stop, c: char) -> (r: bool)
    ensures
        r == stops(stop, c),
{
    match stop {
        Stop::Quote => c == '"',
        Stop::Closer => c == ',' || c == ']' || c == '}',
        Stop::CloserOrColon => c == ',' || c == ']' || c == '}' || c == ':',
        Stop::NonNumeral => !(digit(c) || c == '.' || c == 'e' || c == 'E'),
        Stop::NonDigit => !digit(c),
    }
}

/// Moves forward from `from` to the first character that ends a scan for
/// `stop`, or to the end of the text.
pub(crate) fn skip_to(input: &Vec<char>, from: usize, stop: Stop) -> (to: usize)
    requires
        from <= input.len(),
    ensures
        to == first_stop(input@, from as int, stop),
        from <= to <= input.len(),
{
    let mut at: usize = from;
    while at < input.len() && !ends_scan(stop, input[at])
        invariant
            from <= at <= input.len(),
            first_stop(input@, from as int, stop) == first_stop(input@, at as int, stop),
        decreases input.len() - at,
    {
        at += 1;
    }
    at
}

/// The characters of `input` from `from` up to `to`, as a string.
pub(crate) fn text_between(input: &Vec<char>, from: usize, to: usize) -> (text: String)
    requires
        from <= to <= input.len(),
    ensures
        text@ == input@.subrange(from as int, to as int),
{
    let mut text = String::new();
    let mut at: usize = from;
    while at < to
        invariant
            from <= at <= to <= input.len(),
            text@ == input@.subrange(from as int, at as int),
        decreases to - at,
    {
        text.push(input[at]);
        at += 1;
        assert(text@ =~= input@.subrange(from as int, at as int));
    }
    assert(text@ =~= input@.subrange(from as int, to as int));
    text
}

/// The characters of a string, in order.
pub(crate) fn chars_of(text: &str) -> (chars: Vec<char>)
    ensures
        chars@ == text@,
{
    let mut chars: Vec<char> = Vec::new();
    for c in it: text.chars()
        invariant
            chars@ == it.seq().take(it.index() as int),
            it.seq() == text@,
    {
        chars.push(c);
    }
    chars
}

/// `String::push` appends one character to the end of the string.
pub assume_specification[ std::string::String::push ](s: &mut std::string::String, c: char)
    ensures
        final(s)@ == old(s)@.push(c),
;

} // verus!
