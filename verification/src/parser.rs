//! The reader: from a text to the tree it denotes.
//!
//! Each function reads one rule of `grammar` at a cursor. It returns what
//! the rule gives there and leaves the cursor behind what it has read; where
//! the rule fails, the cursor stays where it was.
use vstd::prelude::*;
use vstd::std_specs::iter::IteratorSpec;
use vstd::string::StringExecFns;
use crate::ast::{items_view, lemma_view_of_containers, members_view, Json, JsonValue};
use crate::cursor::Cursor;
use crate::grammar::{
    array_at, as_array, as_object, at, char_at, decode_utf16, digits_end, escape_run, escape_unit,
    escape_units, hex_number, hex_unit, hex_value, is_whitespace, items_at, lemma_member_moves,
    lemma_members_skip, lemma_skip_ws, lemma_string_moves, lemma_value_moves, lemma_value_skips,
    literal_end, member_at, members_at, number_at, object_at, pair_char, parse_text, skip_ws,
    string_at, string_body, value_at, Failure, MAX_NESTING,
};
use crate::laws::lemma_parsed_is_wf;
use crate::object::{insert_member, keys_ascend, put};
use crate::text::{push_decimal, string_of};

verus! {

/// Why a text could not be read.
#[derive(Debug, PartialEq)]
pub struct JsonParseError {
    pub message: String,
}

impl JsonParseError {
    /// The message, introduced as an error in the text.
    pub fn to_string(&self) -> (r: String)
        ensures
            r@ == "ERROR: Invalid JSON - "@ + self.message@,
    {
        String::from_str("ERROR: Invalid JSON - ").concat(self.message.as_str())
    }
}

/// The result is the error that reports `failure`.
pub open spec fn failed_with<T>(r: Result<T, JsonParseError>, failure: Failure) -> bool {
    r matches Err(e) && e.message@ == failure.message()
}

/// The cursor has kept its text and has not gone backwards.
pub open spec fn moved(before: Cursor, after: Cursor) -> bool {
    &&& after.wf()
    &&& after.chars == before.chars
    &&& before.pos <= after.pos
}

/// A function that was called at `before` has read as `rule` says: it
/// returns the rule's value and leaves the cursor at the rule's position,
/// or it returns the error that reports the rule's failure and leaves the
/// cursor where it was.
pub open spec fn reads<T: View>(
    before: Cursor,
    after: Cursor,
    r: Result<T, JsonParseError>,
    rule: Result<(T::V, int), Failure>,
) -> bool {
    &&& moved(before, after)
    &&& match rule {
        Ok((v, j)) => r matches Ok(x) && x@ == v && after.pos == j,
        Err(failure) => failed_with(r, failure) && after.pos == before.pos,
    }
}

/// The error with the given message.
pub fn fail<T>(message: String) -> (r: Result<T, JsonParseError>)
    ensures
        r matches Err(e) && e.message == message,
{
    Err(JsonParseError { message })
}

/// The error for a text that ends too early.
fn fail_at_end<T>() -> (r: Result<T, JsonParseError>)
    ensures
        failed_with(r, Failure::EndOfInput),
{
    fail(String::from_str("Unexpected end of input"))
}

/// `intro`, then the character.
fn naming(intro: &str, c: char) -> (r: String)
    ensures
        r@ == intro@.push(c),
{
    let mut message = String::from_str(intro);
    message.push(c);
    message
}

/// `intro`, then the character, then `outro`.
fn quoting(intro: &str, c: char, outro: &str) -> (r: String)
    ensures
        r@ == intro@.push(c) + outro@,
{
    let mut message = naming(intro, c);
    message.append(outro);
    message
}

/// The character at the cursor, or the error for a text that has ended.
pub fn peek_or_fail(rest: &Cursor) -> (r: Result<char, JsonParseError>)
    requires
        rest.wf(),
    ensures
        match rest.head() {
            Some(c) => r == Ok::<char, JsonParseError>(c),
            None => failed_with(r, Failure::EndOfInput),
        },
{
    match rest.peek() {
        Some(c) => Ok(c),
        None => fail_at_end(),
    }
}

/// Reads the character at the cursor, or gives the error for a text that
/// has ended.
pub fn next_or_fail(rest: &mut Cursor) -> (r: Result<char, JsonParseError>)
    requires
        old(rest).wf(),
    ensures
        moved(*old(rest), *final(rest)),
        match old(rest).head() {
            Some(c) => r == Ok::<char, JsonParseError>(c) && final(rest).pos == old(rest).pos + 1,
            None => failed_with(r, Failure::EndOfInput) && final(rest).pos == old(rest).pos,
        },
{
    match rest.advance() {
        Some(c) => Ok(c),
        None => fail_at_end(),
    }
}

/// Moves the cursor over whitespace, to the first character that is none.
pub fn skip_whitespace(rest: &mut Cursor)
    requires
        old(rest).wf(),
    ensures
        moved(*old(rest), *final(rest)),
        final(rest).pos == skip_ws(old(rest).text(), old(rest).pos as int),
{
    loop
        invariant
            moved(*old(rest), *rest),
            skip_ws(old(rest).text(), old(rest).pos as int) == skip_ws(
                rest.text(),
                rest.pos as int,
            ),
        ensures
            moved(*old(rest), *rest),
            rest.pos == skip_ws(old(rest).text(), old(rest).pos as int),
        decreases rest.chars.len() - rest.pos,
    {
        match rest.peek() {
            Some(c) => {
                if c == ' ' || c == '\n' || c == '\r' || c == '\t' {
                    rest.advance();
                } else {
                    break ;
                }
            },
            None => {
                break ;
            },
        }
    }
}

/// Reads the literal name `literal` and returns `json_value` for it.
pub fn consume(rest: &mut Cursor, literal: &str, json_value: Json) -> (r: Result<
    Json,
    JsonParseError,
>)
    requires
        old(rest).wf(),
    ensures
        moved(*old(rest), *final(rest)),
        match literal_end(old(rest).text(), old(rest).pos as int, literal@) {
            Ok(j) => r == Ok::<Json, JsonParseError>(json_value) && final(rest).pos == j,
            Err(failure) => failed_with(r, failure) && final(rest).pos == old(rest).pos,
        },
{
    let origin = rest.pos;
    let mut expected = literal.chars();
    loop
        invariant
            moved(*old(rest), *rest),
            origin == old(rest).pos,
            expected.decrease() is Some,
            literal_end(old(rest).text(), old(rest).pos as int, literal@) == literal_end(
                rest.text(),
                rest.pos as int,
                expected.remaining(),
            ),
        ensures
            moved(*old(rest), *rest),
            origin == old(rest).pos,
            literal_end(old(rest).text(), old(rest).pos as int, literal@) == Ok::<int, Failure>(
                rest.pos as int,
            ),
        decreases expected.decrease()->0,
    {
        match expected.next() {
            None => {
                break ;
            },
            Some(expected_char) => {
                match rest.advance() {
                    None => {
                        rest.pos = origin;
                        return fail_at_end();
                    },
                    Some(actual_char) => {
                        if actual_char != expected_char {
                            let mut message = quoting(
                                "Expected '",
                                expected_char,
                                "', but found '",
                            );
                            message.push(actual_char);
                            message.append("'");
                            assert(message@ =~= Failure::Mismatch(
                                expected_char,
                                actual_char,
                            ).message());
                            rest.pos = origin;
                            return fail(message);
                        }
                    },
                }
            },
        }
    }
    Ok(json_value)
}

/// Moves the cursor past the character `c`, if it stands there, and tells
/// whether it did.
fn advance_if(rest: &mut Cursor, c: char) -> (r: bool)
    requires
        old(rest).wf(),
    ensures
        moved(*old(rest), *final(rest)),
        r == at(old(rest).text(), old(rest).pos as int, c),
        final(rest).pos == (if r {
            old(rest).pos + 1
        } else {
            old(rest).pos as int
        }),
{
    match rest.peek() {
        Some(found) => {
            if found == c {
                rest.advance();
                true
            } else {
                false
            }
        },
        None => false,
    }
}

/// Moves the cursor over digits, to the first character that is none.
fn skip_digits(rest: &mut Cursor)
    requires
        old(rest).wf(),
    ensures
        moved(*old(rest), *final(rest)),
        final(rest).pos == digits_end(old(rest).text(), old(rest).pos as int),
{
    loop
        invariant
            moved(*old(rest), *rest),
            digits_end(old(rest).text(), old(rest).pos as int) == digits_end(
                rest.text(),
                rest.pos as int,
            ),
        ensures
            moved(*old(rest), *rest),
            rest.pos == digits_end(old(rest).text(), old(rest).pos as int),
        decreases rest.chars.len() - rest.pos,
    {
        match rest.peek() {
            Some(c) => {
                if '0' <= c && c <= '9' {
                    rest.advance();
                } else {
                    break ;
                }
            },
            None => {
                break ;
            },
        }
    }
}

/// Reads a number and returns it as its literal.
pub fn parse_number(rest: &mut Cursor) -> (r: Result<Json, JsonParseError>)
    requires
        old(rest).wf(),
    ensures
        reads(*old(rest), *final(rest), r, number_at(old(rest).text(), old(rest).pos as int)),
{
    let origin = rest.pos;
    advance_if(rest, '-');
    match rest.peek() {
        None => {
            rest.pos = origin;
            return fail_at_end();
        },
        Some(c) => {
            if c == '0' {
                rest.advance();
            } else if '1' <= c && c <= '9' {
                rest.advance();
                skip_digits(rest);
            } else {
                rest.pos = origin;
                return fail(naming("Unexpected character in number: ", c));
            }
        },
    }
    if advance_if(rest, '.') {
        let digits = rest.pos;
        skip_digits(rest);
        if rest.pos == digits {
            rest.pos = origin;
            return fail(String::from_str("Missing digits after point in number"));
        }
    }
    if advance_if(rest, 'e') || advance_if(rest, 'E') {
        if !advance_if(rest, '-') {
            advance_if(rest, '+');
        }
        let digits = rest.pos;
        skip_digits(rest);
        if rest.pos == digits {
            rest.pos = origin;
            return fail(String::from_str("Missing digits after exponent in number"));
        }
    }
    Ok(Json::Number(string_of(&rest.chars, origin, rest.pos)))
}

/// What a hexadecimal digit stands for; `None` for any other character.
fn hex_digit(c: char) -> (r: Option<u16>)
    ensures
        match hex_value(c) {
            Some(d) => r == Some(d as u16) && 0 <= d < 16,
            None => r is None,
        },
{
    let code: u32 = c as u32;
    if 48 <= code && code <= 57 {
        Some((code - 48) as u16)
    } else if 97 <= code && code <= 102 {
        Some((code - 87) as u16)
    } else if 65 <= code && code <= 70 {
        Some((code - 55) as u16)
    } else {
        None
    }
}

/// Reads the four hexadecimal digits of a `\u` escape and returns the code
/// unit they stand for.
pub fn parse_utf16_hex_escaped_codepoint(rest: &mut Cursor) -> (r: Result<u16, JsonParseError>)
    requires
        old(rest).wf(),
    ensures
        reads(*old(rest), *final(rest), r, hex_unit(old(rest).text(), old(rest).pos as int)),
{
    let origin = rest.pos;
    let mut code: u16 = 0;
    let mut k: usize = 0;
    while k < 4
        invariant
            moved(*old(rest), *rest),
            origin == old(rest).pos,
            k <= 4,
            rest.pos == old(rest).pos + k,
            k == 0 ==> code == 0,
            k == 1 ==> code < 0x10,
            k == 2 ==> code < 0x100,
            k == 3 ==> code < 0x1000,
            hex_number(old(rest).text(), old(rest).pos as int, 4, 0) == hex_number(
                rest.text(),
                rest.pos as int,
                (4 - k) as nat,
                code as int,
            ),
        decreases 4 - k,
    {
        match next_or_fail(rest) {
            Err(e) => {
                rest.pos = origin;
                return Err(e);
            },
            Ok(next_char) => {
                match hex_digit(next_char) {
                    None => {
                        rest.pos = origin;
                        return fail(
                            String::from_str("Invalid hex digit in unicode escape sequence"),
                        );
                    },
                    Some(digit) => {
                        code = code * 16 + digit;
                    },
                }
            },
        }
        k = k + 1;
    }
    Ok(code)
}

/// Reads the escape behind a backslash and returns its code unit.
pub fn parse_string_escape_as_codepoint(rest: &mut Cursor) -> (r: Result<u16, JsonParseError>)
    requires
        old(rest).wf(),
    ensures
        reads(*old(rest), *final(rest), r, escape_unit(old(rest).text(), old(rest).pos as int)),
{
    let origin = rest.pos;
    match next_or_fail(rest) {
        Err(e) => Err(e),
        Ok(c) => {
            if c == '"' {
                Ok(34)
            } else if c == '\\' {
                Ok(92)
            } else if c == '/' {
                Ok(47)
            } else if c == 'b' {
                Ok(8)
            } else if c == 'f' {
                Ok(12)
            } else if c == 'n' {
                Ok(10)
            } else if c == 'r' {
                Ok(13)
            } else if c == 't' {
                Ok(9)
            } else if c == 'u' {
                match parse_utf16_hex_escaped_codepoint(rest) {
                    Err(e) => {
                        rest.pos = origin;
                        Err(e)
                    },
                    Ok(unit) => Ok(unit),
                }
            } else {
                rest.pos = origin;
                fail(String::from_str("Invalid escape sequence in string"))
            }
        },
    }
}

/// The characters decoded so far, before those still to be decoded.
pub open spec fn decoded_before(done: Seq<char>, rest: Option<Seq<char>>) -> Option<Seq<char>> {
    match rest {
        None => None,
        Some(chars) => Some(done + chars),
    }
}

/// The string that a sequence of UTF-16 code units encodes; `None` where a
/// surrogate stands without its partner.
pub fn decode_units(units: &Vec<u16>) -> (r: Option<String>)
    ensures
        match decode_utf16(units@) {
            Some(chars) => r matches Some(decoded) && decoded@ == chars,
            None => r is None,
        },
{
    let mut decoded = String::new();
    let mut k: usize = 0;
    proof {
        assert(units@.skip(0) =~= units@);
        if let Some(chars) = decode_utf16(units@) {
            assert(decoded@ + chars =~= chars);
        }
    }
    while k < units.len()
        invariant
            k <= units.len(),
            decode_utf16(units@) == decoded_before(decoded@, decode_utf16(units@.skip(k as int))),
        decreases units.len() - k,
    {
        let ghost before = decoded@;
        let ghost todo = units@.skip(k as int);
        let unit = units[k];
        if 0xD800 <= unit && unit <= 0xDBFF {
            if k + 1 < units.len() && 0xDC00 <= units[k + 1] && units[k + 1] <= 0xDFFF {
                let low = units[k + 1];
                let high_bits: u32 = (unit - 0xD800) as u32;
                let low_bits: u32 = (low - 0xDC00) as u32;
                let code: u32 = 0x10000 + high_bits * 0x400 + low_bits;
                match char::from_u32(code) {
                    Some(c) => {
                        decoded.push(c);
                    },
                    None => {
                        return None;
                    },
                }
                k = k + 2;
                proof {
                    assert(todo.skip(2) =~= units@.skip(k as int));
                    if let Some(chars) = decode_utf16(units@.skip(k as int)) {
                        assert(before + (seq![pair_char(unit, low)] + chars) =~= decoded@ + chars);
                    }
                }
            } else {
                return None;
            }
        } else if 0xDC00 <= unit && unit <= 0xDFFF {
            return None;
        } else {
            match char::from_u32(unit as u32) {
                Some(c) => {
                    decoded.push(c);
                },
                None => {
                    return None;
                },
            }
            k = k + 1;
            proof {
                assert(todo.drop_first() =~= units@.skip(k as int));
                if let Some(chars) = decode_utf16(units@.skip(k as int)) {
                    assert(before + (seq![unit as char] + chars) =~= decoded@ + chars);
                }
            }
        }
    }
    proof {
        assert(decoded@ + Seq::<char>::empty() =~= decoded@);
    }
    Some(decoded)
}

/// Reads the escapes that follow one another behind a backslash, and
/// returns the characters they stand for.
pub fn parse_string_escape_char(rest: &mut Cursor) -> (r: Result<String, JsonParseError>)
    requires
        old(rest).wf(),
    ensures
        reads(*old(rest), *final(rest), r, escape_run(old(rest).text(), old(rest).pos as int)),
{
    let origin = rest.pos;
    let mut codepoints: Vec<u16> = Vec::new();
    loop
        invariant_except_break
            escape_units(old(rest).text(), old(rest).pos as int, Seq::empty()) == escape_units(
                rest.text(),
                rest.pos as int,
                codepoints@,
            ),
        invariant
            moved(*old(rest), *rest),
            origin == old(rest).pos,
        ensures
            moved(*old(rest), *rest),
            origin == old(rest).pos,
            escape_units(old(rest).text(), old(rest).pos as int, Seq::empty()) == Ok::<
                (Seq<u16>, int),
                Failure,
            >((codepoints@, rest.pos as int)),
        decreases rest.chars.len() - rest.pos,
    {
        match parse_string_escape_as_codepoint(rest) {
            Err(e) => {
                rest.pos = origin;
                return Err(e);
            },
            Ok(unit) => {
                codepoints.push(unit);
            },
        }
        match peek_or_fail(rest) {
            Err(e) => {
                rest.pos = origin;
                return Err(e);
            },
            Ok(c) => {
                if c == '\\' {
                    rest.advance();
                } else {
                    break ;
                }
            },
        }
    }
    match decode_units(&codepoints) {
        Some(decoded) => Ok(decoded),
        None => {
            rest.pos = origin;
            fail(String::from_str("Unpaired UTF-16 surrogate in string"))
        },
    }
}

/// Reads a string, from its opening quote to its closing quote, and returns
/// its characters.
pub fn parse_string(rest: &mut Cursor) -> (r: Result<String, JsonParseError>)
    requires
        old(rest).wf(),
    ensures
        reads(*old(rest), *final(rest), r, string_at(old(rest).text(), old(rest).pos as int)),
{
    let origin = rest.pos;
    match next_or_fail(rest) {
        Err(e) => {
            rest.pos = origin;
            return Err(e);
        },
        Ok(first_char) => {
            if first_char != '"' {
                rest.pos = origin;
                return fail(quoting("Expected a string, found '", first_char, "'"));
            }
        },
    }
    let mut parsed_string = String::new();
    loop
        invariant_except_break
            string_at(old(rest).text(), old(rest).pos as int) == string_body(
                rest.text(),
                rest.pos as int,
                parsed_string@,
            ),
        invariant
            moved(*old(rest), *rest),
            origin == old(rest).pos,
        ensures
            moved(*old(rest), *rest),
            origin == old(rest).pos,
            string_at(old(rest).text(), old(rest).pos as int) == Ok::<(Seq<char>, int), Failure>(
                (parsed_string@, rest.pos as int),
            ),
        decreases rest.chars.len() - rest.pos,
    {
        match next_or_fail(rest) {
            Err(e) => {
                rest.pos = origin;
                return Err(e);
            },
            Ok(c) => {
                if c == '"' {
                    break ;
                } else if c == '\\' {
                    match parse_string_escape_char(rest) {
                        Err(e) => {
                            rest.pos = origin;
                            return Err(e);
                        },
                        Ok(decoded) => {
                            parsed_string.append(decoded.as_str());
                        },
                    }
                } else {
                    parsed_string.push(c);
                }
            },
        }
    }
    Ok(parsed_string)
}

/// Reads a string and returns it as a value.
pub fn parse_string_value(rest: &mut Cursor) -> (r: Result<Json, JsonParseError>)
    requires
        old(rest).wf(),
    ensures
        moved(*old(rest), *final(rest)),
        match string_at(old(rest).text(), old(rest).pos as int) {
            Ok((chars, j)) => {
                &&& r matches Ok(Json::String(parsed)) && parsed@ == chars
                &&& final(rest).pos == j
            },
            Err(failure) => failed_with(r, failure) && final(rest).pos == old(rest).pos,
        },
{
    match parse_string(rest) {
        Err(e) => Err(e),
        Ok(parsed_string) => Ok(Json::String(parsed_string)),
    }
}

/// Reads a value, with the whitespace before and after it.
pub fn parse_value(rest: &mut Cursor, room: usize) -> (r: Result<Json, JsonParseError>)
    requires
        old(rest).wf(),
    ensures
        reads(
            *old(rest),
            *final(rest),
            r,
            value_at(old(rest).text(), old(rest).pos as int, room as nat),
        ),
    decreases old(rest).chars.len() - old(rest).pos, 1int,
{
    let origin = rest.pos;
    skip_whitespace(rest);
    proof {
        lemma_value_skips(old(rest).text(), old(rest).pos as int, room as nat);
        lemma_skip_ws(old(rest).text(), old(rest).pos as int);
        reveal_strlit("null");
        reveal_strlit("true");
        reveal_strlit("false");
        assert("null"@ =~= seq!['n', 'u', 'l', 'l']);
        assert("true"@ =~= seq!['t', 'r', 'u', 'e']);
        assert("false"@ =~= seq!['f', 'a', 'l', 's', 'e']);
    }
    let value = match peek_or_fail(rest) {
        Err(e) => {
            rest.pos = origin;
            return Err(e);
        },
        Ok(c) => {
            if c == 'n' {
                consume(rest, "null", Json::Null)
            } else if c == 't' {
                consume(rest, "true", Json::Boolean(true))
            } else if c == 'f' {
                consume(rest, "false", Json::Boolean(false))
            } else if c == '-' || ('0' <= c && c <= '9') {
                parse_number(rest)
            } else if c == '"' {
                parse_string_value(rest)
            } else if c == '[' {
                parse_array(rest, room)
            } else if c == '{' {
                parse_object(rest, room)
            } else {
                fail(naming("Unexpected character: ", c))
            }
        },
    };
    match value {
        Err(e) => {
            rest.pos = origin;
            Err(e)
        },
        Ok(json) => {
            skip_whitespace(rest);
            Ok(json)
        },
    }
}

/// Reads an array, from its opening bracket to its closing bracket.
pub fn parse_array(rest: &mut Cursor, room: usize) -> (r: Result<Json, JsonParseError>)
    requires
        old(rest).wf(),
    ensures
        reads(
            *old(rest),
            *final(rest),
            r,
            array_at(old(rest).text(), old(rest).pos as int, room as nat),
        ),
    decreases old(rest).chars.len() - old(rest).pos, 0int,
{
    let origin = rest.pos;
    broadcast use lemma_view_of_containers;

    let ghost text = rest.text();
    let ghost start = rest.pos as int;
    match next_or_fail(rest) {
        Err(e) => {
            rest.pos = origin;
            return Err(e);
        },
        Ok(c) => {
            if c != '[' {
                rest.pos = origin;
                return fail(String::from_str("Expected array"));
            }
        },
    }
    if room == 0 {
        rest.pos = origin;
        return fail(String::from_str("Arrays and objects are nested too deeply"));
    }
    skip_whitespace(rest);
    let mut items: Vec<Json> = Vec::new();
    match peek_or_fail(rest) {
        Err(e) => {
            rest.pos = origin;
            return Err(e);
        },
        Ok(c) => {
            if c == ']' {
                rest.advance();
                assert(items_view(items@) =~= Seq::<JsonValue>::empty());
            } else {
                proof {
                    lemma_value_skips(text, start + 1, (room - 1) as nat);
                    lemma_value_skips(text, rest.pos as int, (room - 1) as nat);
                    lemma_skip_ws(text, start + 1);
                    lemma_value_moves(text, start + 1, (room - 1) as nat);
                    lemma_value_moves(text, rest.pos as int, (room - 1) as nat);
                    assert(items_view(items@) =~= Seq::<JsonValue>::empty());
                }
                loop
                    invariant_except_break
                        items_at(text, start + 1, (room - 1) as nat, Seq::empty()) == items_at(
                            text,
                            rest.pos as int,
                            (room - 1) as nat,
                            items_view(items@),
                        ),
                    invariant
                        moved(*old(rest), *rest),
                        origin == old(rest).pos,
            origin == old(rest).pos,
                        text == old(rest).text(),
                        start == old(rest).pos,
                        rest.pos > start,
                        room > 0,
                        array_at(text, start, room as nat) == as_array(
                            items_at(text, start + 1, (room - 1) as nat, Seq::empty()),
                        ),
                    ensures
                        items_at(text, start + 1, (room - 1) as nat, Seq::empty()) == Ok::<
                            (Seq<JsonValue>, int),
                            Failure,
                        >((items_view(items@), rest.pos as int)),
                    decreases rest.chars.len() - rest.pos,
                {
                    let ghost done = items_view(items@);
                    proof {
                        lemma_value_moves(text, rest.pos as int, (room - 1) as nat);
                    }
                    match parse_value(rest, room - 1) {
                        Err(e) => {
                            rest.pos = origin;
                            return Err(e);
                        },
                        Ok(item) => {
                            items.push(item);
                            assert(items_view(items@) =~= done.push(item@));
                        },
                    }
                    match next_or_fail(rest) {
                        Err(e) => {
                            rest.pos = origin;
                            return Err(e);
                        },
                        Ok(c) => {
                            if c == ']' {
                                break ;
                            } else if c != ',' {
                                rest.pos = origin;
                                return fail(quoting("Expected ',' or ']', found '", c, "'"));
                            }
                        },
                    }
                }
            }
        },
    }
    Ok(Json::Array(items))
}

/// Reads one member of an object, a key with its value, and binds the key
/// to the value in `properties`.
fn parse_member(
    rest: &mut Cursor,
    properties: &mut Vec<(String, Json)>,
    room: usize,
) -> (r: Result<
    (),
    JsonParseError,
>)
    requires
        old(rest).wf(),
        keys_ascend(members_view(old(properties)@)),
    ensures
        moved(*old(rest), *final(rest)),
        keys_ascend(members_view(final(properties)@)),
        match member_at(old(rest).text(), old(rest).pos as int, room as nat) {
            Ok(((key, v), j)) => {
                &&& r is Ok
                &&& final(rest).pos == j
                &&& members_view(final(properties)@) == put(members_view(old(properties)@), key, v)
            },
            Err(failure) => {
                &&& failed_with(r, failure)
                &&& final(rest).pos == old(rest).pos
                &&& *final(properties) == *old(properties)
            },
        },
    decreases old(rest).chars.len() - old(rest).pos, 2int,
{
    let origin = rest.pos;
    proof {
        lemma_string_moves(rest.text(), rest.pos as int);
    }
    let key = match parse_string(rest) {
        Err(e) => {
            rest.pos = origin;
            return Err(e);
        },
        Ok(key) => key,
    };
    proof {
        lemma_skip_ws(rest.text(), rest.pos as int);
    }
    skip_whitespace(rest);
    match next_or_fail(rest) {
        Err(e) => {
            rest.pos = origin;
            return Err(e);
        },
        Ok(c) => {
            if c != ':' {
                rest.pos = origin;
                return fail(String::from_str("Missing colon after object key"));
            }
        },
    }
    let value = match parse_value(rest, room) {
        Err(e) => {
            rest.pos = origin;
            return Err(e);
        },
        Ok(value) => value,
    };
    insert_member(properties, key, value);
    Ok(())
}

/// Reads an object, from its opening brace to its closing brace. Of two
/// members with one key the later one stays.
pub fn parse_object(rest: &mut Cursor, room: usize) -> (r: Result<Json, JsonParseError>)
    requires
        old(rest).wf(),
    ensures
        reads(
            *old(rest),
            *final(rest),
            r,
            object_at(old(rest).text(), old(rest).pos as int, room as nat),
        ),
    decreases old(rest).chars.len() - old(rest).pos, 0int,
{
    let origin = rest.pos;
    broadcast use lemma_view_of_containers;

    let ghost text = rest.text();
    let ghost start = rest.pos as int;
    match next_or_fail(rest) {
        Err(e) => {
            rest.pos = origin;
            return Err(e);
        },
        Ok(c) => {
            if c != '{' {
                rest.pos = origin;
                return fail(String::from_str("Expected array"));
            }
        },
    }
    if room == 0 {
        rest.pos = origin;
        return fail(String::from_str("Arrays and objects are nested too deeply"));
    }
    skip_whitespace(rest);
    let mut properties: Vec<(String, Json)> = Vec::new();
    match peek_or_fail(rest) {
        Err(e) => {
            rest.pos = origin;
            return Err(e);
        },
        Ok(c) => {
            if c == '}' {
                rest.advance();
                assert(members_view(properties@) =~= Seq::<(Seq<char>, JsonValue)>::empty());
            } else {
                proof {
                    lemma_members_skip(text, start + 1, (room - 1) as nat, Seq::empty());
                    lemma_skip_ws(text, start + 1);
                    assert(members_view(properties@) =~= Seq::<(Seq<char>, JsonValue)>::empty());
                }
                loop
                    invariant_except_break
                        members_at(text, start + 1, (room - 1) as nat, Seq::empty()) == members_at(
                            text,
                            rest.pos as int,
                            (room - 1) as nat,
                            members_view(properties@),
                        ),
                        char_at(text, rest.pos as int) matches Some(c) ==> !is_whitespace(c),
                    invariant
                        moved(*old(rest), *rest),
                        origin == old(rest).pos,
            origin == old(rest).pos,
                        text == old(rest).text(),
                        start == old(rest).pos,
                        rest.pos > start,
                        room > 0,
                        keys_ascend(members_view(properties@)),
                        object_at(text, start, room as nat) == as_object(
                            members_at(text, start + 1, (room - 1) as nat, Seq::empty()),
                        ),
                    ensures
                        members_at(text, start + 1, (room - 1) as nat, Seq::empty()) == Ok::<
                            (Seq<(Seq<char>, JsonValue)>, int),
                            Failure,
                        >((members_view(properties@), rest.pos as int)),
                    decreases rest.chars.len() - rest.pos,
                {
                    proof {
                        lemma_member_moves(text, rest.pos as int, (room - 1) as nat);
                    }
                    match parse_member(rest, &mut properties, room - 1) {
                        Err(e) => {
                            rest.pos = origin;
                            return Err(e);
                        },
                        Ok(()) => {},
                    }
                    match next_or_fail(rest) {
                        Err(e) => {
                            rest.pos = origin;
                            return Err(e);
                        },
                        Ok(c) => {
                            if c == '}' {
                                break ;
                            } else if c == ',' {
                                proof {
                                    lemma_members_skip(
                                        text,
                                        rest.pos as int,
                                        (room - 1) as nat,
                                        members_view(properties@),
                                    );
                                    lemma_skip_ws(text, rest.pos as int);
                                }
                                skip_whitespace(rest);
                            } else {
                                rest.pos = origin;
                                return fail(quoting("Expected ',' or '}', found '", c, "'"));
                            }
                        },
                    }
                }
            }
        },
    }
    Ok(Json::Object(properties))
}

/// Reads a whole text as one value.
///
/// The result is the value that the grammar gives the text, or the error
/// that reports why the grammar gives it none. A value that is returned has
/// every number as a number literal, the members of every object in
/// ascending order of their keys, and arrays and objects nested no deeper
/// than `MAX_NESTING`.
pub fn parse(json: &str) -> (r: Result<Json, JsonParseError>)
    ensures
        match parse_text(json@) {
            Ok(v) => r matches Ok(parsed) && parsed@ == v,
            Err(failure) => failed_with(r, failure),
        },
        r matches Ok(parsed) ==> parsed@.wf() && parsed@.fits(MAX_NESTING as nat),
{
    proof {
        lemma_parsed_is_wf(json@);
    }
    let mut rest = Cursor::new(json);
    match parse_value(&mut rest, MAX_NESTING) {
        Err(e) => Err(e),
        Ok(parsed) => {
            match rest.peek() {
                Some(unexpected_char) => {
                    let mut message = naming("Unexpected character: ", unexpected_char);
                    message.append(", ");
                    push_decimal(&mut message, rest.count());
                    message.append(" chars remaining");
                    fail(message)
                },
                None => Ok(parsed),
            }
        },
    }
}

} // verus!
