//! The laws of reading and writing.
use vstd::prelude::*;
use crate::ast::JsonValue;
use crate::grammar::{
    at, bare_value_at, char_at, colon_end, digits_end, exponent_end, fraction_end, integer_end,
    is_digit, is_number_literal, is_whitespace, items_at, lemma_digits_end, lemma_member_moves,
    lemma_number_moves, lemma_skip_ws, lemma_string_moves, lemma_value_moves, lemma_value_skips,
    member_at, members_at, number_end, parse_text, skip_ws, string_at, value_at, Failure,
    MAX_NESTING,
};
use crate::embedding::{embeds, lemma_embedded_value};
use crate::layout::{rendered, Mode};
use crate::object::{keys_ascend, lemma_put_ascends, lemma_put_keeps, put};
use crate::reading::{is_blank, lemma_holds_itself, lemma_value_read};

verus! {

/// The digits of a part of a text end where they end in the text, or where
/// the part ends.
proof fn lemma_digits_end_cut(s: Seq<char>, i: int, j: int, a: int)
    requires
        0 <= i <= i + a <= j <= s.len(),
    ensures
        digits_end(s.subrange(i, j), a) == if digits_end(s, i + a) < j {
            digits_end(s, i + a) - i
        } else {
            j - i
        },
    decreases j - i - a,
{
    lemma_digits_end(s, i + a);
    if i + a < j && is_digit(s[i + a]) {
        lemma_digits_end_cut(s, i, j, a + 1);
    }
}

/// What the grammar reads as a number is a number literal.
pub proof fn lemma_number_is_literal(s: Seq<char>, i: int)
    ensures
        number_end(s, i) matches Ok(j) ==> is_number_literal(s.subrange(i, j)),
{
    if let Ok(j) = number_end(s, i) {
        lemma_number_moves(s, i);
        let literal = s.subrange(i, j);
        let start = if at(s, i, '-') {
            i + 1
        } else {
            i
        };
        let a = integer_end(s, start)->Ok_0;
        let b = fraction_end(s, a)->Ok_0;
        lemma_digits_end(s, start + 1);
        lemma_digits_end(s, a + 1);
        lemma_digits_end(s, b + 1);
        lemma_digits_end(s, b + 2);
        assert forall|k: int| 0 <= k < j - i implies char_at(literal, k) == char_at(s, i + k) by {}
        assert(char_at(literal, j - i) is None);
        assert(start < a <= b <= j);
        lemma_digits_end_cut(s, i, j, start + 1 - i);
        assert(integer_end(literal, start - i) == Ok::<int, Failure>(a - i));
        if a + 1 <= j {
            lemma_digits_end_cut(s, i, j, a + 1 - i);
        }
        assert(fraction_end(literal, a - i) == Ok::<int, Failure>(b - i));
        if b + 1 <= j {
            lemma_digits_end_cut(s, i, j, b + 1 - i);
        }
        if b + 2 <= j {
            lemma_digits_end_cut(s, i, j, b + 2 - i);
        }
        assert(exponent_end(literal, b - i) == Ok::<int, Failure>(j - i));
    }
}

/// The value is one that a text can denote with arrays and objects nested
/// at most `room` deep.
pub open spec fn denotable(v: JsonValue, room: nat) -> bool {
    v.wf() && v.fits(room)
}

/// The values of all members are ones that a text can denote.
pub open spec fn values_wf(members: Seq<(Seq<char>, JsonValue)>, room: nat) -> bool {
    forall|x: int| 0 <= x < members.len() ==> denotable((#[trigger] members[x]).1, room)
}

/// All items are ones that a text can denote.
pub open spec fn items_wf(items: Seq<JsonValue>, room: nat) -> bool {
    forall|x: int| 0 <= x < items.len() ==> denotable(#[trigger] items[x], room)
}

/// What the grammar reads is a value that a text can denote.
pub proof fn lemma_value_wf(s: Seq<char>, i: int, room: nat)
    ensures
        value_at(s, i, room) matches Ok((v, j)) ==> denotable(v, room),
    decreases s.len() - i, 2int,
{
    if let Some(c) = char_at(s, i) {
        if is_whitespace(c) {
            lemma_value_wf(s, i + 1, room);
        } else {
            lemma_bare_value_wf(s, i, room);
        }
    }
}

/// What the grammar reads is a value that a text can denote.
pub proof fn lemma_bare_value_wf(s: Seq<char>, i: int, room: nat)
    ensures
        bare_value_at(s, i, room) matches Ok((v, j)) ==> denotable(v, room),
    decreases s.len() - i, 1int,
{
    if let Some(c) = char_at(s, i) {
        if c == '-' || is_digit(c) {
            lemma_number_is_literal(s, i);
        } else if c == '[' {
            if room > 0 {
                lemma_items_wf(s, i + 1, (room - 1) as nat, Seq::empty());
            }
        } else if c == '{' {
            if room > 0 {
                lemma_members_wf(s, i + 1, (room - 1) as nat, Seq::empty());
            }
        }
    }
}

/// The items that the grammar reads are values that a text can denote.
pub proof fn lemma_items_wf(s: Seq<char>, i: int, room: nat, done: Seq<JsonValue>)
    requires
        items_wf(done, room),
    ensures
        items_at(s, i, room, done) matches Ok((items, j)) ==> items_wf(items, room),
    decreases s.len() - i, 3int,
{
    lemma_value_moves(s, i, room);
    lemma_value_wf(s, i, room);
    if let Ok((v, j)) = value_at(s, i, room) {
        assert(items_wf(done.push(v), room)) by {
            assert forall|x: int| 0 <= x < done.push(v).len() implies denotable(
                #[trigger] done.push(v)[x],
                room,
            ) by {
                if x < done.len() {
                    assert(denotable(done[x], room));
                }
            }
        }
        if char_at(s, j) == Some(',') {
            lemma_items_wf(s, j + 1, room, done.push(v));
        }
    }
}

/// The member that the grammar reads has a value that a text can denote.
pub proof fn lemma_member_wf(s: Seq<char>, i: int, room: nat)
    ensures
        member_at(s, i, room) matches Ok(((key, v), j)) ==> denotable(v, room),
    decreases s.len() - i, 3int,
{
    lemma_string_moves(s, i);
    if let Ok((key, k)) = string_at(s, i) {
        lemma_skip_ws(s, k);
        if let Ok(c) = colon_end(s, k) {
            lemma_value_wf(s, c, room);
        }
    }
}

/// The members that the grammar reads have ascending keys, and values that
/// a text can denote.
pub proof fn lemma_members_wf(s: Seq<char>, i: int, room: nat, done: Seq<(Seq<char>, JsonValue)>)
    requires
        keys_ascend(done),
        values_wf(done, room),
    ensures
        members_at(s, i, room, done) matches Ok((members, j)) ==> keys_ascend(members)
            && values_wf(members, room),
    decreases s.len() - i, 4int,
{
    if 0 <= i < s.len() && is_whitespace(s[i]) {
        lemma_members_wf(s, i + 1, room, done);
    } else {
        lemma_member_moves(s, i, room);
        lemma_member_wf(s, i, room);
        if let Ok(((key, v), j)) = member_at(s, i, room) {
            lemma_put_ascends(done, key, v);
            lemma_put_keeps(done, key, v, |v: JsonValue| denotable(v, room));
            if char_at(s, j) == Some(',') {
                lemma_members_wf(s, j + 1, room, put(done, key, v));
            }
        }
    }
}

/// Whatever a text denotes has every number as a number literal and the
/// members of every object in strictly ascending order of their keys, in
/// whichever order the text gives them; and its arrays and objects are
/// nested no deeper than `MAX_NESTING`.
pub proof fn lemma_parsed_is_wf(text: Seq<char>)
    ensures
        parse_text(text) matches Ok(v) ==> v.wf() && v.fits(MAX_NESTING as nat),
{
    lemma_value_wf(text, 0, MAX_NESTING as nat);
}

/// Reading what was written gives the value back: in either mode, the text
/// of a value that a text can denote denotes that value.
pub proof fn lemma_read_back(v: JsonValue, mode: Mode)
    requires
        v.wf(),
        v.fits(MAX_NESTING as nat),
    ensures
        parse_text(rendered(v, mode, 0)) == Ok::<JsonValue, Failure>(v),
{
    let text = rendered(v, mode, 0);
    lemma_holds_itself(text);
    assert(Seq::<char>::empty() + text =~= text);
    lemma_value_read(text, 0, Seq::empty(), v, mode, 0, MAX_NESTING as nat);
    lemma_skip_ws(text, text.len() as int);
}

/// How a value is laid out does not matter: its texts in any two modes
/// denote the same value.
pub proof fn lemma_layout_is_immaterial(v: JsonValue, one: Mode, other: Mode)
    requires
        v.wf(),
        v.fits(MAX_NESTING as nat),
    ensures
        parse_text(rendered(v, one, 0)) == parse_text(rendered(v, other, 0)),
{
    lemma_read_back(v, one);
    lemma_read_back(v, other);
}

/// Whitespace is skipped from any position within it as from its end.
proof fn lemma_skip_ws_within(s: Seq<char>, i: int, end: int)
    requires
        0 <= i <= end <= s.len(),
        forall|k: int| i <= k < end ==> is_whitespace(#[trigger] s[k]),
    ensures
        skip_ws(s, i) == skip_ws(s, end),
    decreases end - i,
{
    if i < end {
        assert(is_whitespace(s[i]));
        lemma_skip_ws_within(s, i + 1, end);
    }
}

/// Whitespace around a text does not change what the text denotes.
pub proof fn lemma_blank_around(text: Seq<char>, before: Seq<char>, after: Seq<char>)
    requires
        is_blank(before),
        is_blank(after),
        parse_text(text) is Ok,
    ensures
        parse_text(before + text + after) == parse_text(text),
{
    let s = before + text + after;
    let d = before.len() as int;
    let room = MAX_NESTING as nat;
    assert(embeds(s, d, text)) by {
        assert forall|k: int| 0 <= k < text.len() implies s[d + k] == #[trigger] text[k] by {}
        assert forall|k: int| d + text.len() <= k < s.len() implies is_whitespace(
            #[trigger] s[k],
        ) by {
            assert(s[k] == after[k - d - text.len()]);
        }
    }
    assert forall|k: int| 0 <= k < d implies is_whitespace(#[trigger] s[k]) by {
        assert(s[k] == before[k]);
    }
    lemma_skip_ws_within(s, 0, d);
    lemma_value_skips(s, 0, room);
    lemma_value_skips(s, d, room);
    lemma_value_moves(text, 0, room);
    lemma_embedded_value(s, d, text, 0, room);
}

/// Writing and reading again changes nothing: the compact text of what a
/// text denotes denotes the same value.
pub proof fn lemma_round_trip(text: Seq<char>)
    requires
        parse_text(text) is Ok,
    ensures
        parse_text(rendered(parse_text(text)->Ok_0, Mode::Compact, 0)) == parse_text(text),
{
    lemma_parsed_is_wf(text);
    lemma_read_back(parse_text(text)->Ok_0, Mode::Compact);
}

} // verus!
