//! What the grammar reads in a text that stands inside a longer one, with
//! anything before it and only whitespace behind it.
use vstd::prelude::*;
use crate::ast::JsonValue;
use crate::grammar::{
    at, bare_value_at, char_at, colon_end, digits_end, escape_run, escape_unit, escape_units,
    exponent_end, fraction_end, hex_number, hex_unit, hex_value, integer_end, is_digit,
    is_whitespace, items_at, lemma_bare_value_moves, lemma_digits_end, lemma_escape_units_moves,
    lemma_member_moves, lemma_number_moves, lemma_skip_ws, lemma_string_moves, lemma_value_moves,
    literal_end, member_at, members_at, number_at, number_end, skip_ws, string_at, string_body,
    value_at, Failure,
};
use crate::object::put;
use crate::reading::{holds, is_blank, lemma_skip_blank};

verus! {

/// The text `t` stands in `s` at position `d`, and only whitespace follows
/// it there.
pub open spec fn embeds(s: Seq<char>, d: int, t: Seq<char>) -> bool {
    &&& holds(s, d, t)
    &&& forall|k: int| d + t.len() <= k < s.len() ==> is_whitespace(#[trigger] s[k])
}

/// Where a position of `t` lies in `s` that was reached by skipping
/// whitespace: the end of `t` becomes the end of `s`.
pub open spec fn carried(s: Seq<char>, d: int, t: Seq<char>, j: int) -> int {
    if j < t.len() {
        d + j
    } else {
        s.len() as int
    }
}

/// The characters of `t` are those of `s`, and at the end of `t` the longer
/// text has whitespace or ends too.
proof fn lemma_embedded_char(s: Seq<char>, d: int, t: Seq<char>, k: int)
    requires
        embeds(s, d, t),
        0 <= k,
    ensures
        k < t.len() ==> char_at(s, d + k) == char_at(t, k),
        k >= t.len() ==> char_at(t, k) is None,
        k == t.len() ==> (char_at(s, d + k) matches Some(c) ==> is_whitespace(c)),
{
    if k < t.len() {
        assert(s[d + k] == t[k]);
    }
}

/// Whitespace is skipped in the longer text as in `t`, and at the end of
/// `t` to the end of the longer text.
proof fn lemma_embedded_skip_ws(s: Seq<char>, d: int, t: Seq<char>, i: int)
    requires
        embeds(s, d, t),
        0 <= i <= t.len(),
    ensures
        skip_ws(s, d + i) == carried(s, d, t, skip_ws(t, i)),
    decreases t.len() - i,
{
    lemma_embedded_char(s, d, t, i);
    if i < t.len() {
        if is_whitespace(t[i]) {
            lemma_embedded_skip_ws(s, d, t, i + 1);
        }
    } else {
        let rest = s.subrange(d + i, s.len() as int);
        assert(holds(s, d + i, rest));
        assert(is_blank(rest)) by {
            assert forall|k: int| 0 <= k < rest.len() implies is_whitespace(#[trigger] rest[k]) by {
                assert(is_whitespace(s[d + i + k]));
            }
        }
        lemma_skip_blank(s, d + i, rest);
    }
}

/// A literal name is read in the longer text as in `t`.
proof fn lemma_embedded_literal(s: Seq<char>, d: int, t: Seq<char>, i: int, name: Seq<char>)
    requires
        embeds(s, d, t),
        0 <= i,
        literal_end(t, i, name) is Ok,
    ensures
        literal_end(s, d + i, name) == Ok::<int, Failure>(d + literal_end(t, i, name)->Ok_0),
    decreases name.len(),
{
    if name.len() > 0 {
        lemma_embedded_char(s, d, t, i);
        lemma_embedded_literal(s, d, t, i + 1, name.drop_first());
    }
}

/// Digits end in the longer text where they end in `t`.
proof fn lemma_embedded_digits(s: Seq<char>, d: int, t: Seq<char>, i: int)
    requires
        embeds(s, d, t),
        0 <= i <= t.len(),
    ensures
        digits_end(s, d + i) == d + digits_end(t, i),
    decreases t.len() - i,
{
    lemma_embedded_char(s, d, t, i);
    if i < t.len() && is_digit(t[i]) {
        lemma_embedded_digits(s, d, t, i + 1);
    }
}

/// A number is read in the longer text as in `t`.
proof fn lemma_embedded_number(s: Seq<char>, d: int, t: Seq<char>, i: int)
    requires
        embeds(s, d, t),
        0 <= i,
        number_end(t, i) is Ok,
    ensures
        number_end(s, d + i) == Ok::<int, Failure>(d + number_end(t, i)->Ok_0),
        number_at(s, d + i) == Ok::<(JsonValue, int), Failure>(
            (number_at(t, i)->Ok_0.0, d + number_end(t, i)->Ok_0),
        ),
{
    let j = number_end(t, i)->Ok_0;
    let start = if at(t, i, '-') {
        i + 1
    } else {
        i
    };
    let a = integer_end(t, start)->Ok_0;
    let b = fraction_end(t, a)->Ok_0;
    lemma_number_moves(t, i);
    lemma_digits_end(t, start + 1);
    lemma_digits_end(t, a + 1);
    lemma_digits_end(t, b + 1);
    lemma_digits_end(t, b + 2);
    lemma_embedded_char(s, d, t, i);
    lemma_embedded_char(s, d, t, start);
    lemma_embedded_char(s, d, t, a);
    lemma_embedded_char(s, d, t, b);
    lemma_embedded_char(s, d, t, b + 1);
    if start + 1 <= t.len() {
        lemma_embedded_digits(s, d, t, start + 1);
    }
    assert(integer_end(s, d + start) == Ok::<int, Failure>(d + a));
    if a + 1 <= t.len() {
        lemma_embedded_digits(s, d, t, a + 1);
    }
    assert(fraction_end(s, d + a) == Ok::<int, Failure>(d + b));
    if b + 1 <= t.len() {
        lemma_embedded_digits(s, d, t, b + 1);
    }
    if b + 2 <= t.len() {
        lemma_embedded_digits(s, d, t, b + 2);
    }
    assert(exponent_end(s, d + b) == Ok::<int, Failure>(d + j));
    assert(s.subrange(d + i, d + j) =~= t.subrange(i, j)) by {
        assert forall|k: int| 0 <= k < j - i implies #[trigger] s.subrange(d + i, d + j)[k]
            == t.subrange(i, j)[k] by {
            lemma_embedded_char(s, d, t, i + k);
        }
    }
}

/// Hexadecimal digits are read in the longer text as in `t`.
proof fn lemma_embedded_hex(s: Seq<char>, d: int, t: Seq<char>, i: int, n: nat, high: int)
    requires
        embeds(s, d, t),
        0 <= i,
        hex_number(t, i, n, high) is Ok,
    ensures
        hex_number(s, d + i, n, high) == hex_number(t, i, n, high),
    decreases n,
{
    if n > 0 {
        lemma_embedded_char(s, d, t, i);
        let low = hex_value(t[i])->Some_0;
        lemma_embedded_hex(s, d, t, i + 1, (n - 1) as nat, 16 * high + low);
    }
}

/// An escape is read in the longer text as in `t`.
proof fn lemma_embedded_escape_unit(s: Seq<char>, d: int, t: Seq<char>, i: int)
    requires
        embeds(s, d, t),
        0 <= i,
        escape_unit(t, i) is Ok,
    ensures
        escape_unit(s, d + i) == Ok::<(u16, int), Failure>(
            (escape_unit(t, i)->Ok_0.0, d + escape_unit(t, i)->Ok_0.1),
        ),
{
    lemma_embedded_char(s, d, t, i);
    if t[i] == 'u' {
        lemma_embedded_hex(s, d, t, i + 1, 4, 0);
        assert(hex_unit(s, d + i + 1) == Ok::<(u16, int), Failure>(
            (hex_unit(t, i + 1)->Ok_0.0, d + i + 5),
        ));
    }
}

/// A run of escapes is read in the longer text as in `t`.
proof fn lemma_embedded_escape_units(s: Seq<char>, d: int, t: Seq<char>, i: int, run: Seq<u16>)
    requires
        embeds(s, d, t),
        0 <= i,
        escape_units(t, i, run) is Ok,
    ensures
        escape_units(s, d + i, run) == Ok::<(Seq<u16>, int), Failure>(
            (escape_units(t, i, run)->Ok_0.0, d + escape_units(t, i, run)->Ok_0.1),
        ),
    decreases t.len() - i,
{
    lemma_embedded_escape_unit(s, d, t, i);
    let (unit, j) = escape_unit(t, i)->Ok_0;
    lemma_embedded_char(s, d, t, j);
    if char_at(t, j) == Some('\\') {
        lemma_embedded_escape_units(s, d, t, j + 1, run.push(unit));
    }
}

/// The characters of a string are read in the longer text as in `t`.
proof fn lemma_embedded_string_body(s: Seq<char>, d: int, t: Seq<char>, i: int, done: Seq<char>)
    requires
        embeds(s, d, t),
        0 <= i,
        string_body(t, i, done) is Ok,
    ensures
        string_body(s, d + i, done) == Ok::<(Seq<char>, int), Failure>(
            (string_body(t, i, done)->Ok_0.0, d + string_body(t, i, done)->Ok_0.1),
        ),
    decreases t.len() - i,
{
    lemma_embedded_char(s, d, t, i);
    let c = t[i];
    if c == '"' {
    } else if c == '\\' {
        lemma_escape_units_moves(t, i + 1, Seq::empty());
        lemma_embedded_escape_units(s, d, t, i + 1, Seq::empty());
        let (decoded, j) = escape_run(t, i + 1)->Ok_0;
        assert(escape_run(s, d + i + 1) == Ok::<(Seq<char>, int), Failure>((decoded, d + j)));
        lemma_embedded_string_body(s, d, t, j, done + decoded);
    } else {
        lemma_embedded_string_body(s, d, t, i + 1, done.push(c));
    }
}

/// A string is read in the longer text as in `t`.
proof fn lemma_embedded_string(s: Seq<char>, d: int, t: Seq<char>, i: int)
    requires
        embeds(s, d, t),
        0 <= i,
        string_at(t, i) is Ok,
    ensures
        string_at(s, d + i) == Ok::<(Seq<char>, int), Failure>(
            (string_at(t, i)->Ok_0.0, d + string_at(t, i)->Ok_0.1),
        ),
{
    lemma_embedded_char(s, d, t, i);
    lemma_embedded_string_body(s, d, t, i + 1, Seq::empty());
}

/// A value is read in the longer text as in `t`, with the whitespace that
/// follows it there.
pub proof fn lemma_embedded_value(s: Seq<char>, d: int, t: Seq<char>, i: int, room: nat)
    requires
        embeds(s, d, t),
        0 <= i,
        value_at(t, i, room) is Ok,
    ensures
        value_at(s, d + i, room) == Ok::<(JsonValue, int), Failure>(
            (value_at(t, i, room)->Ok_0.0, carried(s, d, t, value_at(t, i, room)->Ok_0.1)),
        ),
    decreases t.len() - i, 2int,
{
    lemma_embedded_char(s, d, t, i);
    if is_whitespace(t[i]) {
        lemma_embedded_value(s, d, t, i + 1, room);
    } else {
        lemma_embedded_bare_value(s, d, t, i, room);
        lemma_bare_value_moves(t, i, room);
        lemma_embedded_skip_ws(s, d, t, bare_value_at(t, i, room)->Ok_0.1);
    }
}

/// A value is read in the longer text as in `t`.
proof fn lemma_embedded_bare_value(s: Seq<char>, d: int, t: Seq<char>, i: int, room: nat)
    requires
        embeds(s, d, t),
        0 <= i,
        bare_value_at(t, i, room) is Ok,
    ensures
        bare_value_at(s, d + i, room) == Ok::<(JsonValue, int), Failure>(
            (bare_value_at(t, i, room)->Ok_0.0, d + bare_value_at(t, i, room)->Ok_0.1),
        ),
    decreases t.len() - i, 1int,
{
    lemma_embedded_char(s, d, t, i);
    let c = t[i];
    if c == 'n' {
        lemma_embedded_literal(s, d, t, i, seq!['n', 'u', 'l', 'l']);
    } else if c == 't' {
        lemma_embedded_literal(s, d, t, i, seq!['t', 'r', 'u', 'e']);
    } else if c == 'f' {
        lemma_embedded_literal(s, d, t, i, seq!['f', 'a', 'l', 's', 'e']);
    } else if c == '-' || is_digit(c) {
        lemma_embedded_number(s, d, t, i);
    } else if c == '"' {
        lemma_embedded_string(s, d, t, i);
    } else if c == '[' {
        lemma_skip_ws(t, i + 1);
        lemma_embedded_skip_ws(s, d, t, i + 1);
        lemma_embedded_char(s, d, t, skip_ws(t, i + 1));
        if t[skip_ws(t, i + 1)] != ']' {
            lemma_embedded_items(s, d, t, i + 1, (room - 1) as nat, Seq::empty());
        }
    } else if c == '{' {
        lemma_skip_ws(t, i + 1);
        lemma_embedded_skip_ws(s, d, t, i + 1);
        lemma_embedded_char(s, d, t, skip_ws(t, i + 1));
        if t[skip_ws(t, i + 1)] != '}' {
            lemma_embedded_members(s, d, t, i + 1, (room - 1) as nat, Seq::empty());
        }
    }
}

/// The items of an array are read in the longer text as in `t`.
proof fn lemma_embedded_items(
    s: Seq<char>,
    d: int,
    t: Seq<char>,
    i: int,
    room: nat,
    done: Seq<JsonValue>,
)
    requires
        embeds(s, d, t),
        0 <= i,
        items_at(t, i, room, done) is Ok,
    ensures
        items_at(s, d + i, room, done) == Ok::<(Seq<JsonValue>, int), Failure>(
            (items_at(t, i, room, done)->Ok_0.0, d + items_at(t, i, room, done)->Ok_0.1),
        ),
    decreases t.len() - i, 3int,
{
    lemma_value_moves(t, i, room);
    lemma_embedded_value(s, d, t, i, room);
    let (v, j) = value_at(t, i, room)->Ok_0;
    lemma_embedded_char(s, d, t, j);
    if char_at(t, j) == Some(',') {
        lemma_embedded_items(s, d, t, j + 1, room, done.push(v));
    }
}

/// A member is read in the longer text as in `t`, with the whitespace that
/// follows it there.
proof fn lemma_embedded_member(s: Seq<char>, d: int, t: Seq<char>, i: int, room: nat)
    requires
        embeds(s, d, t),
        0 <= i,
        member_at(t, i, room) is Ok,
    ensures
        member_at(s, d + i, room) == Ok::<((Seq<char>, JsonValue), int), Failure>(
            (member_at(t, i, room)->Ok_0.0, carried(s, d, t, member_at(t, i, room)->Ok_0.1)),
        ),
    decreases t.len() - i, 3int,
{
    lemma_string_moves(t, i);
    lemma_embedded_string(s, d, t, i);
    let (key, k) = string_at(t, i)->Ok_0;
    lemma_skip_ws(t, k);
    lemma_embedded_skip_ws(s, d, t, k);
    lemma_embedded_char(s, d, t, skip_ws(t, k));
    let c = colon_end(t, k)->Ok_0;
    assert(colon_end(s, d + k) == Ok::<int, Failure>(d + c));
    lemma_embedded_value(s, d, t, c, room);
}

/// The members of an object are read in the longer text as in `t`.
proof fn lemma_embedded_members(
    s: Seq<char>,
    d: int,
    t: Seq<char>,
    i: int,
    room: nat,
    done: Seq<(Seq<char>, JsonValue)>,
)
    requires
        embeds(s, d, t),
        0 <= i,
        members_at(t, i, room, done) is Ok,
    ensures
        members_at(s, d + i, room, done) == Ok::<(Seq<(Seq<char>, JsonValue)>, int), Failure>(
            (members_at(t, i, room, done)->Ok_0.0, d + members_at(t, i, room, done)->Ok_0.1),
        ),
    decreases t.len() - i, 4int,
{
    lemma_embedded_char(s, d, t, i);
    if i < t.len() && is_whitespace(t[i]) {
        lemma_embedded_members(s, d, t, i + 1, room, done);
    } else {
        lemma_member_moves(t, i, room);
        lemma_embedded_member(s, d, t, i, room);
        let ((key, v), j) = member_at(t, i, room)->Ok_0;
        lemma_embedded_char(s, d, t, j);
        if char_at(t, j) == Some(',') {
            lemma_embedded_members(s, d, t, j + 1, room, put(done, key, v));
        }
    }
}

} // verus!
