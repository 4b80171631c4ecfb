//! How a value is written: the text of each value in each mode.
use vstd::prelude::*;
use crate::ast::JsonValue;
use crate::text::spaces;

verus! {

/// The two ways to write a value.
#[derive(Clone, Copy, Debug, PartialEq, Eq)]
pub enum Mode {
    /// Without any whitespace.
    Compact,
    /// One item or member per line, each nesting level indented by the
    /// given number of spaces more than the one around it.
    Pretty(u64),
}

/// The hexadecimal digit for `d`, in upper case.
pub open spec fn hex_char(d: int) -> char {
    if d < 10 {
        ('0' as int + d) as char
    } else {
        ('A' as int + d - 10) as char
    }
}

/// How one character of a string is written: a backslash before a quote or
/// a backslash, a letter behind a backslash for five control characters,
/// `\u00` and two hexadecimal digits for the other characters below the
/// space, and any other character as it is.
pub open spec fn escaped(c: char) -> Seq<char> {
    if c == '\\' {
        seq!['\\', '\\']
    } else if c == '"' {
        seq!['\\', '"']
    } else if c == '\n' {
        seq!['\\', 'n']
    } else if c == '\r' {
        seq!['\\', 'r']
    } else if c == '\t' {
        seq!['\\', 't']
    } else if c == '\u{C}' {
        seq!['\\', 'f']
    } else if c == '\u{8}' {
        seq!['\\', 'b']
    } else if (c as int) < 0x20 {
        seq!['\\', 'u', '0', '0', hex_char(c as int / 16), hex_char(c as int % 16)]
    } else {
        seq![c]
    }
}

/// The characters of a string as they are written, one after the other.
pub open spec fn escaped_chars(chars: Seq<char>) -> Seq<char>
    decreases chars.len(),
{
    if chars.len() == 0 {
        Seq::empty()
    } else {
        escaped(chars[0]) + escaped_chars(chars.drop_first())
    }
}

/// A string as it is written: its characters between quotes.
pub open spec fn quoted(chars: Seq<char>) -> Seq<char> {
    seq!['"'] + escaped_chars(chars) + seq!['"']
}

/// What stands before each line of nesting level `level`: nothing in the
/// compact mode, else a line feed and the indentation.
pub open spec fn line_break(mode: Mode, level: nat) -> Seq<char> {
    match mode {
        Mode::Compact => Seq::empty(),
        Mode::Pretty(indent) => seq!['\n'] + spaces(level * indent as nat),
    }
}

/// What stands between a key and its value.
pub open spec fn colon(mode: Mode) -> Seq<char> {
    match mode {
        Mode::Compact => seq![':'],
        Mode::Pretty(_) => seq![':', ' '],
    }
}

/// The text of a value that stands at nesting level `level`.
///
/// An array or object without content is a pair of brackets. Otherwise each
/// item or member stands on a line of its own, one level deeper, with a
/// comma behind each but the last; the closing bracket stands on a line of
/// the value's own level. In the compact mode the lines are not broken, so
/// that the text holds no whitespace but what strings hold.
pub open spec fn rendered(v: JsonValue, mode: Mode, level: nat) -> Seq<char>
    decreases v, 0nat,
{
    match v {
        JsonValue::Null => seq!['n', 'u', 'l', 'l'],
        JsonValue::Boolean(true) => seq!['t', 'r', 'u', 'e'],
        JsonValue::Boolean(false) => seq!['f', 'a', 'l', 's', 'e'],
        JsonValue::String(chars) => quoted(chars),
        JsonValue::Number(literal) => literal,
        JsonValue::Array(items) => if items.len() == 0 {
            seq!['[', ']']
        } else {
            seq!['['] + rendered_items(items, mode, level + 1, items.len()) + line_break(
                mode,
                level,
            ) + seq![']']
        },
        JsonValue::Object(members) => if members.len() == 0 {
            seq!['{', '}']
        } else {
            seq!['{'] + rendered_members(members, mode, level + 1, members.len()) + line_break(
                mode,
                level,
            ) + seq!['}']
        },
    }
}

/// The text of the first `n` items of an array, which stand at nesting
/// level `level`.
pub open spec fn rendered_items(items: Seq<JsonValue>, mode: Mode, level: nat, n: nat) -> Seq<char>
    decreases items, n,
{
    if n == 0 || n > items.len() {
        Seq::empty()
    } else {
        rendered_items(items, mode, level, (n - 1) as nat) + comma(n) + line_break(mode, level)
            + rendered(items[n - 1], mode, level)
    }
}

/// The text of the first `n` members of an object, which stand at nesting
/// level `level`.
pub open spec fn rendered_members(
    members: Seq<(Seq<char>, JsonValue)>,
    mode: Mode,
    level: nat,
    n: nat,
) -> Seq<char>
    decreases members, n,
{
    if n == 0 || n > members.len() {
        Seq::empty()
    } else {
        rendered_members(members, mode, level, (n - 1) as nat) + comma(n) + line_break(
            mode,
            level,
        ) + rendered_member(members[n - 1], mode, level)
    }
}

/// The text of a member that stands at nesting level `level`: the key, what
/// stands between, and the value.
pub open spec fn rendered_member(member: (Seq<char>, JsonValue), mode: Mode, level: nat) -> Seq<
    char,
>
    decreases member, 1nat,
{
    quoted(member.0) + colon(mode) + rendered(member.1, mode, level)
}

/// The comma before the `n`th item or member, which the first does not have.
pub open spec fn comma(n: nat) -> Seq<char> {
    if n > 1 {
        seq![',']
    } else {
        Seq::empty()
    }
}

} // verus!
