//! The writer: from a tree to its text.
use vstd::prelude::*;
use vstd::std_specs::iter::IteratorSpec;
use vstd::string::StringExecFns;
use crate::ast::{items_view, lemma_view_of_containers, members_view, Json, JsonValue};
use crate::layout::{
    colon, comma, escaped, escaped_chars, hex_char, line_break, quoted, rendered, rendered_items,
    rendered_member, rendered_members, Mode,
};
use crate::text::{push_spaces, spaces};

verus! {

/// The hexadecimal digit for `d`, in upper case.
fn hex_digit_char(d: u8) -> (r: char)
    requires
        d < 16,
    ensures
        r == hex_char(d as int),
{
    if d < 10 {
        (48u8 + d) as char
    } else {
        (55u8 + d) as char
    }
}

/// Appends one character of a string as it is written.
fn push_escaped(output: &mut String, c: char)
    ensures
        final(output)@ == old(output)@ + escaped(c),
{
    if c == '\\' {
        output.push('\\');
        output.push('\\');
    } else if c == '"' {
        output.push('\\');
        output.push('"');
    } else if c == '\n' {
        output.push('\\');
        output.push('n');
    } else if c == '\r' {
        output.push('\\');
        output.push('r');
    } else if c == '\t' {
        output.push('\\');
        output.push('t');
    } else if c == '\u{C}' {
        output.push('\\');
        output.push('f');
    } else if c == '\u{8}' {
        output.push('\\');
        output.push('b');
    } else if (c as u32) < 0x20 {
        let code: u8 = c as u8;
        output.push('\\');
        output.push('u');
        output.push('0');
        output.push('0');
        output.push(hex_digit_char(code / 16));
        output.push(hex_digit_char(code % 16));
    } else {
        output.push(c);
    }
    assert(output@ =~= old(output)@ + escaped(c));
}

/// Appends a string as it is written, between quotes.
fn push_quoted(output: &mut String, string: &str)
    ensures
        final(output)@ == old(output)@ + quoted(string@),
{
    output.push('"');
    let mut chars = string.chars();
    loop
        invariant
            chars.decrease() is Some,
            output@ + escaped_chars(chars.remaining()) == old(output)@ + seq!['"'] + escaped_chars(
                string@,
            ),
        ensures
            output@ == old(output)@ + seq!['"'] + escaped_chars(string@),
        decreases chars.decrease()->0,
    {
        let ghost before = output@;
        let ghost todo = chars.remaining();
        match chars.next() {
            None => {
                assert(output@ + escaped_chars(todo) =~= output@);
                break ;
            },
            Some(c) => {
                push_escaped(output, c);
                assert(output@ + escaped_chars(todo.drop_first()) =~= before + escaped_chars(
                    todo,
                ));
            },
        }
    }
    output.push('"');
    assert(output@ =~= old(output)@ + quoted(string@));
}

/// A string as it is written: between quotes, with the characters escaped
/// that need it.
pub fn display_json_string(string: &str) -> (r: String)
    ensures
        r@ == quoted(string@),
{
    let mut escaped = String::new();
    push_quoted(&mut escaped, string);
    assert(escaped@ =~= quoted(string@));
    escaped
}

/// What stands before each line one level deeper than the lines that
/// `margin` stands before.
fn deeper(mode: Mode, margin: &str, Ghost(level): Ghost<nat>) -> (r: String)
    requires
        margin@ == line_break(mode, level),
    ensures
        r@ == line_break(mode, level + 1),
{
    let mut child = String::from_str(margin);
    match mode {
        Mode::Compact => {},
        Mode::Pretty(indent) => {
            push_spaces(&mut child, indent);
            assert((level + 1) * (indent as nat) == level * (indent as nat) + indent as nat)
                by (nonlinear_arith);
            assert(child@ =~= line_break(mode, level + 1));
        },
    }
    child
}

/// Appends the text of a value that stands at nesting level `level`.
fn display_json(
    value: &Json,
    output: &mut String,
    mode: Mode,
    margin: &str,
    Ghost(level): Ghost<nat>,
)
    requires
        margin@ == line_break(mode, level),
    ensures
        final(output)@ == old(output)@ + rendered(value@, mode, level),
    decreases value, 1nat,
{
    broadcast use lemma_view_of_containers;

    match value {
        Json::Null => {
            output.append("null");
            proof {
                reveal_strlit("null");
                assert("null"@ =~= seq!['n', 'u', 'l', 'l']);
            }
        },
        Json::Boolean(true) => {
            output.append("true");
            proof {
                reveal_strlit("true");
                assert("true"@ =~= seq!['t', 'r', 'u', 'e']);
            }
        },
        Json::Boolean(false) => {
            output.append("false");
            proof {
                reveal_strlit("false");
                assert("false"@ =~= seq!['f', 'a', 'l', 's', 'e']);
            }
        },
        Json::String(string) => {
            push_quoted(output, string.as_str());
        },
        Json::Number(number) => {
            output.append(number.as_str());
        },
        Json::Array(array) => {
            display_json_array(array, output, mode, margin, Ghost(level));
        },
        Json::Object(object) => {
            display_json_object(object, output, mode, margin, Ghost(level));
        },
    }
}

/// Appends the text of an array that stands at nesting level `level`.
fn display_json_array(
    items: &Vec<Json>,
    output: &mut String,
    mode: Mode,
    margin: &str,
    Ghost(level): Ghost<nat>,
)
    requires
        margin@ == line_break(mode, level),
    ensures
        final(output)@ == old(output)@ + rendered(
            JsonValue::Array(items_view(items@)),
            mode,
            level,
        ),
    decreases items, 0nat,
{
    if items.len() == 0 {
        output.push('[');
        output.push(']');
        assert(output@ =~= old(output)@ + seq!['[', ']']);
        return ;
    }
    let child_margin = deeper(mode, margin, Ghost(level));
    output.push('[');
    let mut index: usize = 0;
    while index < items.len()
        invariant
            index <= items.len(),
            child_margin@ == line_break(mode, level + 1),
            output@ == old(output)@ + seq!['['] + rendered_items(
                items_view(items@),
                mode,
                level + 1,
                index as nat,
            ),
        decreases items.len() - index,
    {
        let ghost before = output@;
        if index > 0 {
            output.push(',');
        }
        output.append(child_margin.as_str());
        display_json(&items[index], output, mode, child_margin.as_str(), Ghost(level + 1));
        index = index + 1;
        assert(output@ =~= old(output)@ + seq!['['] + rendered_items(
            items_view(items@),
            mode,
            level + 1,
            index as nat,
        )) by {
            assert(output@ =~= before + comma(index as nat) + line_break(mode, level + 1)
                + rendered(items_view(items@)[index - 1], mode, level + 1));
        }
    }
    output.append(margin);
    output.push(']');
    assert(output@ =~= old(output)@ + rendered(
        JsonValue::Array(items_view(items@)),
        mode,
        level,
    ));
}

/// Appends the text of a member that stands at nesting level `level`.
fn display_json_member(
    member: &(String, Json),
    output: &mut String,
    mode: Mode,
    margin: &str,
    Ghost(level): Ghost<nat>,
)
    requires
        margin@ == line_break(mode, level),
    ensures
        final(output)@ == old(output)@ + rendered_member((member.0@, member.1@), mode, level),
    decreases member, 2nat,
{
    push_quoted(output, member.0.as_str());
    match mode {
        Mode::Compact => {
            output.push(':');
        },
        Mode::Pretty(_) => {
            output.push(':');
            output.push(' ');
        },
    }
    assert(output@ =~= old(output)@ + quoted(member.0@) + colon(mode));
    display_json(&member.1, output, mode, margin, Ghost(level));
    assert(output@ =~= old(output)@ + rendered_member((member.0@, member.1@), mode, level));
}

/// Appends the text of an object that stands at nesting level `level`.
fn display_json_object(
    object: &Vec<(String, Json)>,
    output: &mut String,
    mode: Mode,
    margin: &str,
    Ghost(level): Ghost<nat>,
)
    requires
        margin@ == line_break(mode, level),
    ensures
        final(output)@ == old(output)@ + rendered(
            JsonValue::Object(members_view(object@)),
            mode,
            level,
        ),
    decreases object, 0nat,
{
    if object.len() == 0 {
        output.push('{');
        output.push('}');
        assert(output@ =~= old(output)@ + seq!['{', '}']);
        return ;
    }
    let child_margin = deeper(mode, margin, Ghost(level));
    output.push('{');
    let mut index: usize = 0;
    while index < object.len()
        invariant
            index <= object.len(),
            child_margin@ == line_break(mode, level + 1),
            output@ == old(output)@ + seq!['{'] + rendered_members(
                members_view(object@),
                mode,
                level + 1,
                index as nat,
            ),
        decreases object.len() - index,
    {
        let ghost before = output@;
        if index > 0 {
            output.push(',');
        }
        output.append(child_margin.as_str());
        display_json_member(
            &object[index],
            output,
            mode,
            child_margin.as_str(),
            Ghost(level + 1),
        );
        index = index + 1;
        assert(output@ =~= before + comma(index as nat) + line_break(mode, level + 1)
            + rendered_member(members_view(object@)[index - 1], mode, level + 1));
    }
    output.append(margin);
    output.push('}');
    assert(output@ =~= old(output)@ + rendered(
        JsonValue::Object(members_view(object@)),
        mode,
        level,
    ));
}

/// The text of a value in the given mode.
pub fn render(value: &Json, mode: Mode) -> (r: String)
    ensures
        r@ == rendered(value@, mode, 0),
{
    let mut output = String::new();
    let margin = match mode {
        Mode::Compact => String::new(),
        Mode::Pretty(_) => String::from_str("\n"),
    };
    proof {
        reveal_strlit("\n");
        assert(margin@ =~= line_break(mode, 0));
    }
    display_json(value, &mut output, mode, margin.as_str(), Ghost(0));
    assert(output@ =~= rendered(value@, mode, 0));
    output
}

/// The text of a value with one item or member per line, each nesting
/// level indented by `indent` spaces.
pub fn json_to_string(value: &Json, indent: u64) -> (r: String)
    ensures
        r@ == rendered(value@, Mode::Pretty(indent), 0),
{
    render(value, Mode::Pretty(indent))
}

} // verus!
