//! What holds of the parser and the serializer together.

use vstd::prelude::*;
use crate::grammar::{
    has_text_at, items_at, members_at, parse_text, string_at, value_at, word_false, word_null,
    word_true,
};
use crate::numeral::{is_numeral, lemma_numeral_chars};
use crate::render::{items_text, members_text, render, separator};
use crate::scan::{
    first_stop, is_blank, is_closer, is_digit, lemma_first_stop, lemma_first_stop_is, stops, Stop,
};
use crate::json::Json;
use crate::model::{
    distinct_keys, key_index, lemma_key_index, lemma_push_readable, lemma_readable_wf,
    lemma_upsert_readable, no_quote, readable_items, readable_members, upsert, Value,
};

verus! {

/// Whether a value may end at `j`: the text ends there, or a `,`, `]` or
/// `}` stands there.
pub open spec fn ends_value(s: Seq<char>, j: int) -> bool {
    j == s.len() || (0 <= j < s.len() && is_closer(s[j]))
}

/// A text that stands at `i` gives the characters from `i` on.
pub proof fn lemma_text_char(s: Seq<char>, i: int, word: Seq<char>, k: int)
    requires
        has_text_at(s, i, word),
        0 <= k < word.len(),
    ensures
        s[i + k] == word[k],
{
    assert(s.subrange(i, i + word.len())[k] == s[i + k]);
}

/// Where two texts stand one behind the other, each stands at its place.
pub proof fn lemma_text_split(s: Seq<char>, i: int, a: Seq<char>, b: Seq<char>)
    requires
        has_text_at(s, i, a + b),
    ensures
        has_text_at(s, i, a),
        has_text_at(s, i + a.len(), b),
{
    let whole = a + b;
    assert forall|k: int| 0 <= k < a.len() implies #[trigger] s.subrange(i, i + a.len())[k]
        == a[k] by {
        lemma_text_char(s, i, whole, k);
    }
    assert(s.subrange(i, i + a.len()) =~= a);
    assert forall|k: int| 0 <= k < b.len() implies #[trigger] s.subrange(
        i + a.len(),
        i + a.len() + b.len(),
    )[k] == b[k] by {
        lemma_text_char(s, i, whole, a.len() + k);
    }
    assert(s.subrange(i + a.len(), i + a.len() + b.len()) =~= b);
}

/// The text of a readable value is not empty.
pub proof fn lemma_render_nonempty(value: Value)
    requires
        value.readable(),
    ensures
        render(value).len() >= 1,
{
    match value {
        Value::Number(text) => {
            lemma_numeral_chars(text);
        },
        _ => {},
    }
}

/// Among members with distinct keys, giving the first `k` of them the key
/// and value of the next one adds that member at the end.
pub proof fn lemma_upsert_next(members: Seq<(Seq<char>, Value)>, k: int)
    requires
        distinct_keys(members),
        0 <= k < members.len(),
    ensures
        upsert(members.take(k), members[k].0, members[k].1) == members.take(k + 1),
{
    let done = members.take(k);
    let key = members[k].0;
    lemma_key_index(done, key, 0);
    let at = key_index(done, key, 0);
    if at < done.len() {
        assert(done[at] == members[at]);
        assert(members[at].0 != members[k].0);
    }
    assert(upsert(done, key, members[k].1) =~= members.take(k + 1));
}

/// A readable value whose text stands at `i`, with the end of the text or
/// a `,`, `]` or `}` behind it, is the value that the grammar reads at `i`,
/// and the grammar reads exactly that text.
pub proof fn lemma_value_in_place(s: Seq<char>, i: int, value: Value)
    requires
        value.readable(),
        has_text_at(s, i, render(value)),
        ends_value(s, i + render(value).len()),
    ensures
        value_at(s, i) == Some((value, i + render(value).len())),
    decreases value, 0int,
{
    let text = render(value);
    let end = i + text.len();
    lemma_render_nonempty(value);
    lemma_text_char(s, i, text, 0);
    match value {
        Value::Object(members) => {
            let body = members_text(members, 0);
            assert(text =~= seq!['{'] + (body + seq!['}']));
            lemma_text_split(s, i, seq!['{'], body + seq!['}']);
            lemma_members_in_place(s, i + 1, members, 0);
            assert(members.take(0) =~= Seq::empty());
        },
        Value::Array(items) => {
            let body = items_text(items, 0);
            assert(text =~= seq!['['] + (body + seq![']']));
            lemma_text_split(s, i, seq!['['], body + seq![']']);
            lemma_items_in_place(s, i + 1, items, 0);
            assert(items.take(0) =~= Seq::empty());
        },
        Value::String(inner) => {
            let close = i + 1 + inner.len();
            assert(text =~= seq!['"'] + (inner + seq!['"']));
            lemma_text_split(s, i, seq!['"'], inner + seq!['"']);
            lemma_text_split(s, i + 1, inner, seq!['"']);
            lemma_text_char(s, close, seq!['"'], 0);
            assert forall|k: int| i + 1 <= k < close implies !stops(Stop::Quote, #[trigger] s[k]) by {
                lemma_text_char(s, i + 1, inner, k - (i + 1));
            }
            lemma_first_stop_is(s, i + 1, close, Stop::Quote);
            lemma_first_stop_is(s, close, close + 1, Stop::CloserOrColon);
        },
        Value::Number(inner) => {
            lemma_numeral_chars(inner);
            assert forall|k: int| i <= k < end implies !stops(Stop::NonNumeral, #[trigger] s[k]) by {
                lemma_text_char(s, i, inner, k - i);
            }
            lemma_first_stop_is(s, i, end, Stop::NonNumeral);
            lemma_first_stop_is(s, end, end, Stop::Closer);
        },
        Value::Bool(b) => {
            lemma_first_stop_is(s, end, end, Stop::Closer);
        },
        Value::Null => {
            lemma_first_stop_is(s, end, end, Stop::Closer);
        },
    }
}

/// Readable items from the one at position `k` on, whose text up to the
/// closing bracket stands at `q`, are what the grammar reads there after
/// the first `k` items, and it reads exactly that text.
pub proof fn lemma_items_in_place(s: Seq<char>, q: int, items: Seq<Value>, k: int)
    requires
        readable_items(items),
        0 <= k < items.len(),
        has_text_at(s, q, items_text(items, k) + seq![']']),
    ensures
        items_at(s, q + separator(k).len(), items.take(k)) == Some(
            (Value::Array(items), q + items_text(items, k).len() + 1),
        ),
    decreases items, items.len() - k,
{
    let sep = separator(k);
    let item = items[k];
    let r = render(item);
    let rest = items_text(items, k + 1);
    let close = seq![']'];
    let tail = rest + close;
    let p = q + sep.len();
    let e = p + r.len();
    assert(items_text(items, k) + close =~= sep + (r + tail));
    lemma_text_split(s, q, sep, r + tail);
    lemma_text_split(s, p, r, tail);
    lemma_render_nonempty(item);
    lemma_text_char(s, e, tail, 0);
    if k + 1 < items.len() {
        assert(rest == separator(k + 1) + render(items[k + 1]) + items_text(items, k + 2));
        assert(tail[0] == ',');
    } else {
        assert(rest =~= Seq::empty());
        assert(tail[0] == ']');
    }
    lemma_value_in_place(s, p, item);
    assert(items.take(k).push(item) =~= items.take(k + 1));
    if k + 1 < items.len() {
        lemma_items_in_place(s, e, items, k + 1);
    } else {
        assert(items.take(k + 1) =~= items);
    }
}

/// Readable members from the one at position `k` on, whose text up to the
/// closing brace stands at `q`, are what the grammar reads there after the
/// first `k` members, and it reads exactly that text.
pub proof fn lemma_members_in_place(
    s: Seq<char>,
    q: int,
    members: Seq<(Seq<char>, Value)>,
    k: int,
)
    requires
        readable_members(members),
        0 <= k < members.len(),
        has_text_at(s, q, members_text(members, k) + seq!['}']),
    ensures
        members_at(s, q + separator(k).len(), members.take(k)) == Some(
            (Value::Object(members), q + members_text(members, k).len() + 1),
        ),
    decreases members, members.len() - k,
{
    let sep = separator(k);
    let key = members[k].0;
    let value = members[k].1;
    let r = render(value);
    let rest = members_text(members, k + 1);
    let close = seq!['}'];
    let tail = rest + close;
    let quote = seq!['"'];
    let mark = seq!['"', ':'];
    let p = q + sep.len();
    let c = p + 1 + key.len();
    let e = c + 2 + r.len();
    assert(members_text(members, k) + close =~= sep + (quote + (key + (mark + (r + tail)))));
    lemma_text_split(s, q, sep, quote + (key + (mark + (r + tail))));
    lemma_text_split(s, p, quote, key + (mark + (r + tail)));
    lemma_text_split(s, p + 1, key, mark + (r + tail));
    lemma_text_split(s, c, mark, r + tail);
    lemma_text_split(s, c + 2, r, tail);
    lemma_text_char(s, p, quote, 0);
    lemma_text_char(s, c, mark, 0);
    lemma_text_char(s, c, mark, 1);
    lemma_render_nonempty(value);
    lemma_text_char(s, e, tail, 0);
    if k + 1 < members.len() {
        assert(rest == separator(k + 1) + seq!['"'] + members[k + 1].0 + seq!['"', ':'] + render(
            members[k + 1].1,
        ) + members_text(members, k + 2));
        assert(tail[0] == ',');
    } else {
        assert(rest =~= Seq::empty());
        assert(tail[0] == '}');
    }
    assert forall|n: int| p + 1 <= n < c implies !stops(Stop::Quote, #[trigger] s[n]) by {
        lemma_text_char(s, p + 1, key, n - (p + 1));
    }
    lemma_first_stop_is(s, p + 1, c, Stop::Quote);
    lemma_first_stop_is(s, c, c + 1, Stop::CloserOrColon);
    assert(string_at(s, p) == (key, c + 1));
    lemma_value_in_place(s, c + 2, value);
    lemma_upsert_next(members, k);
    if k + 1 < members.len() {
        lemma_members_in_place(s, e, members, k + 1);
    } else {
        assert(members.take(k + 1) =~= members);
    }
}

/// Reading the text of a readable value gives the value back, with the
/// members of every object in their order; so what is read equals the
/// value, also where the order of members is left aside.
pub proof fn lemma_round_trip(value: Value)
    requires
        value.readable(),
    ensures
        parse_text(render(value)) == Some(value),
        value.same(value),
{
    let text = render(value);
    assert(text.subrange(0, text.len() as int) =~= text);
    lemma_value_in_place(text, 0, value);
    lemma_readable_wf(value);
    lemma_same_reflexive(value);
}

/// What the grammar reads at a position is a readable value, and the
/// position behind it lies further on, within the text. So the values that
/// can be read are exactly the readable ones.
pub proof fn lemma_read_is_readable(s: Seq<char>, i: int)
    requires
        0 <= i,
    ensures
        value_at(s, i) matches Some((value, next)) ==> value.readable() && i < next <= s.len(),
    decreases s.len() - i, 0int,
{
    if i < s.len() {
        if is_blank(s[i]) {
            lemma_read_is_readable(s, i + 1);
        } else if s[i] == '{' {
            lemma_members_read(s, i + 1, Seq::empty());
        } else if s[i] == '[' {
            lemma_items_read(s, i + 1, Seq::empty());
        } else if s[i] == '"' {
            lemma_string_read(s, i);
        } else if is_digit(s[i]) {
            let end = first_stop(s, i, Stop::NonNumeral);
            lemma_first_stop(s, i, Stop::NonNumeral);
            lemma_first_stop(s, end, Stop::Closer);
            if is_numeral(s.subrange(i, end)) {
                lemma_numeral_chars(s.subrange(i, end));
            }
        } else if s[i] == 't' {
            if has_text_at(s, i, word_true()) {
                lemma_first_stop(s, i + 4, Stop::Closer);
            }
        } else if s[i] == 'f' {
            if has_text_at(s, i, word_false()) {
                lemma_first_stop(s, i + 5, Stop::Closer);
            }
        } else if s[i] == 'n' {
            if has_text_at(s, i, word_null()) {
                lemma_first_stop(s, i + 4, Stop::Closer);
            }
        }
    }
}

/// The text of a string whose opening quote is at `i` holds no quote, and
/// the position behind the string lies further on, within the text.
pub proof fn lemma_string_read(s: Seq<char>, i: int)
    requires
        0 <= i < s.len(),
    ensures
        no_quote(string_at(s, i).0),
        i < string_at(s, i).1 <= s.len(),
{
    let close = first_stop(s, i + 1, Stop::Quote);
    lemma_first_stop(s, i + 1, Stop::Quote);
    lemma_first_stop(s, close, Stop::CloserOrColon);
    let text = s.subrange(i + 1, close);
    assert forall|k: int| 0 <= k < text.len() implies #[trigger] text[k] != '"' by {
        assert(!stops(Stop::Quote, s[i + 1 + k]));
    }
}

/// What the grammar reads as the rest of an array after readable items is
/// a readable array, and the position behind it lies further on.
pub proof fn lemma_items_read(s: Seq<char>, i: int, done: Seq<Value>)
    requires
        0 <= i,
        readable_items(done),
    ensures
        items_at(s, i, done) matches Some((value, next)) ==> value.readable() && i < next
            <= s.len(),
    decreases s.len() - i, 1int,
{
    lemma_read_is_readable(s, i);
    match value_at(s, i) {
        None => {},
        Some((item, j)) => {
            if i < j < s.len() {
                lemma_push_readable(done, item);
                if s[j] == ',' {
                    lemma_items_read(s, j + 1, done.push(item));
                }
            }
        },
    }
}

/// What the grammar reads as the rest of an object after readable members
/// is a readable object, and the position behind it lies further on.
pub proof fn lemma_members_read(s: Seq<char>, i: int, done: Seq<(Seq<char>, Value)>)
    requires
        0 <= i,
        readable_members(done),
    ensures
        members_at(s, i, done) matches Some((value, next)) ==> value.readable() && i < next
            <= s.len(),
    decreases s.len() - i, 1int,
{
    if i < s.len() {
        if is_blank(s[i]) {
            lemma_members_read(s, i + 1, done);
        } else if s[i] == '"' {
            let (key, j) = string_at(s, i);
            lemma_string_read(s, i);
            if j < s.len() && s[j] == ':' {
                lemma_read_is_readable(s, j + 1);
                match value_at(s, j + 1) {
                    None => {},
                    Some((value, k)) => {
                        if j < k < s.len() {
                            lemma_upsert_readable(done, key, value);
                            if s[k] == ',' {
                                lemma_members_read(s, k + 1, upsert(done, key, value));
                            }
                        }
                    },
                }
            }
        }
    }
}

/// A well-formed value equals itself.
pub proof fn lemma_same_reflexive(value: Value)
    requires
        value.wf(),
    ensures
        value.same(value),
    decreases value,
{
    match value {
        Value::Object(members) => {
            assert forall|i: int| 0 <= i < members.len() implies {
                let j = key_index(members, (#[trigger] members[i]).0, 0);
                j < members.len() && members[i].1.same(members[j].1)
            } by {
                lemma_key_index(members, members[i].0, 0);
                let j = key_index(members, members[i].0, 0);
                assert(j == i) by {
                    if j < i {
                        assert(members[j].0 != members[i].0);
                    }
                }
                lemma_same_reflexive(members[i].1);
            }
        },
        Value::Array(items) => {
            assert forall|i: int| 0 <= i < items.len() implies (#[trigger] items[i]).same(
                items[i],
            ) by {
                lemma_same_reflexive(items[i]);
            }
        },
        _ => {},
    }
}

/// Whitespace before a value does not change what is read.
pub proof fn lemma_leading_blanks(s: Seq<char>, i: int, j: int)
    requires
        0 <= i <= j <= s.len(),
        forall|k: int| i <= k < j ==> is_blank(#[trigger] s[k]),
    ensures
        value_at(s, i) == value_at(s, j),
    decreases j - i,
{
    if i < j {
        lemma_leading_blanks(s, i + 1, j);
    }
}

/// Two trees with the same model have the same text.
pub proof fn lemma_text_of_model(a: Json, b: Json)
    requires
        a@ == b@,
    ensures
        render(a@) == render(b@),
{
}

} // verus!
