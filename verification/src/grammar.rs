//! The grammar of JSON texts, as functions on sequences of characters.
//!
//! Each rule takes the text and the position where it starts. It gives the
//! value it reads with the position after it, or the reason why the text
//! does not match.
use vstd::prelude::*;
use crate::ast::JsonValue;
use crate::object::put;
use crate::text::decimal;

verus! {

/// How deep arrays and objects may be nested in a text.
pub const MAX_NESTING: usize = 128;

/// Why a text is not JSON.
pub ghost enum Failure {
    /// The text ends where more is needed.
    EndOfInput,
    /// No value starts with this character.
    Unexpected(char),
    /// After the value the text goes on with this character; the number
    /// counts the characters from there to the end.
    Trailing(char, nat),
    /// A literal name wants the first character and the text has the second.
    Mismatch(char, char),
    /// A number has this character where its first digit should be.
    NumberStart(char),
    /// No digit follows the decimal point.
    FractionDigits,
    /// No digit follows the exponent mark.
    ExponentDigits,
    /// A string should start here, and this character is no quote.
    NotAString(char),
    /// A backslash is followed by a character that starts no escape.
    Escape,
    /// One of the four characters after `\u` is no hexadecimal digit.
    HexDigit,
    /// A surrogate code without its partner.
    Surrogate,
    /// An array or an object should start here.
    NotAContainer,
    /// No colon follows the key.
    Colon,
    /// This character follows an array's item, and is neither `,` nor `]`.
    ArrayDelimiter(char),
    /// This character follows an object's member, and is neither `,` nor `}`.
    ObjectDelimiter(char),
    /// An array or an object starts inside more arrays and objects than
    /// may be nested.
    TooDeep,
}

impl Failure {
    /// The message that reports the failure.
    pub open spec fn message(self) -> Seq<char> {
        match self {
            Failure::EndOfInput => "Unexpected end of input"@,
            Failure::Unexpected(c) => "Unexpected character: "@.push(c),
            Failure::Trailing(c, n) => "Unexpected character: "@.push(c) + ", "@ + decimal(n)
                + " chars remaining"@,
            Failure::Mismatch(expected, found) => "Expected '"@.push(expected)
                + "', but found '"@.push(found) + "'"@,
            Failure::NumberStart(c) => "Unexpected character in number: "@.push(c),
            Failure::FractionDigits => "Missing digits after point in number"@,
            Failure::ExponentDigits => "Missing digits after exponent in number"@,
            Failure::NotAString(c) => "Expected a string, found '"@.push(c) + "'"@,
            Failure::Escape => "Invalid escape sequence in string"@,
            Failure::HexDigit => "Invalid hex digit in unicode escape sequence"@,
            Failure::Surrogate => "Unpaired UTF-16 surrogate in string"@,
            Failure::NotAContainer => "Expected array"@,
            Failure::Colon => "Missing colon after object key"@,
            Failure::ArrayDelimiter(c) => "Expected ',' or ']', found '"@.push(c) + "'"@,
            Failure::ObjectDelimiter(c) => "Expected ',' or '}', found '"@.push(c) + "'"@,
            Failure::TooDeep => "Arrays and objects are nested too deeply"@,
        }
    }
}

/// The character at position `i`, if the text reaches that far.
pub open spec fn char_at(s: Seq<char>, i: int) -> Option<char> {
    if 0 <= i < s.len() {
        Some(s[i])
    } else {
        None
    }
}

/// The text has the character `c` at position `i`.
pub open spec fn at(s: Seq<char>, i: int, c: char) -> bool {
    char_at(s, i) == Some(c)
}

/// Space, line feed, carriage return and tab.
pub open spec fn is_whitespace(c: char) -> bool {
    c == ' ' || c == '\n' || c == '\r' || c == '\t'
}

/// The first position from `i` on that holds no whitespace.
pub open spec fn skip_ws(s: Seq<char>, i: int) -> int
    decreases s.len() - i,
{
    if 0 <= i < s.len() && is_whitespace(s[i]) {
        skip_ws(s, i + 1)
    } else {
        i
    }
}

/// Skipping whitespace moves forwards, over whitespace only, and stops
/// within the text at what is no whitespace, or at its end.
pub proof fn lemma_skip_ws(s: Seq<char>, i: int)
    ensures
        i <= skip_ws(s, i),
        i <= s.len() ==> skip_ws(s, i) <= s.len(),
        forall|k: int| i <= k < skip_ws(s, i) ==> is_whitespace(#[trigger] s[k]),
        char_at(s, skip_ws(s, i)) matches Some(c) ==> !is_whitespace(c),
        skip_ws(s, skip_ws(s, i)) == skip_ws(s, i),
    decreases s.len() - i,
{
    if 0 <= i < s.len() && is_whitespace(s[i]) {
        lemma_skip_ws(s, i + 1);
    }
}

/// The position after the literal `name`, which must stand at `i`.
pub open spec fn literal_end(s: Seq<char>, i: int, name: Seq<char>) -> Result<int, Failure>
    decreases name.len(),
{
    if name.len() == 0 {
        Ok(i)
    } else {
        match char_at(s, i) {
            None => Err(Failure::EndOfInput),
            Some(c) => if c != name[0] {
                Err(Failure::Mismatch(name[0], c))
            } else {
                literal_end(s, i + 1, name.drop_first())
            },
        }
    }
}

/// A literal name ends as many characters behind its start as it has.
pub proof fn lemma_literal_end(s: Seq<char>, i: int, name: Seq<char>)
    ensures
        literal_end(s, i, name) matches Ok(j) ==> j == i + name.len() && (name.len() > 0 ==> 0
            <= i && j <= s.len()),
    decreases name.len(),
{
    if name.len() > 0 && char_at(s, i) == Some(name[0]) {
        lemma_literal_end(s, i + 1, name.drop_first());
    }
}

/// The decimal digits.
pub open spec fn is_digit(c: char) -> bool {
    '0' <= c <= '9'
}

/// The first position from `i` on that holds no digit.
pub open spec fn digits_end(s: Seq<char>, i: int) -> int
    decreases s.len() - i,
{
    if 0 <= i < s.len() && is_digit(s[i]) {
        digits_end(s, i + 1)
    } else {
        i
    }
}

/// The digits end at or behind where they start, and within the text.
pub proof fn lemma_digits_end(s: Seq<char>, i: int)
    ensures
        i <= digits_end(s, i),
        i <= s.len() ==> digits_end(s, i) <= s.len(),
        forall|k: int| i <= k < digits_end(s, i) ==> is_digit(#[trigger] s[k]),
        char_at(s, digits_end(s, i)) matches Some(c) ==> !is_digit(c),
    decreases s.len() - i,
{
    if 0 <= i < s.len() && is_digit(s[i]) {
        lemma_digits_end(s, i + 1);
    }
}

/// The position after the integer part that starts at `i`: a single `0`, or
/// a digit other than `0` and the digits that follow it.
pub open spec fn integer_end(s: Seq<char>, i: int) -> Result<int, Failure> {
    match char_at(s, i) {
        None => Err(Failure::EndOfInput),
        Some(c) => if c == '0' {
            Ok(i + 1)
        } else if is_digit(c) {
            Ok(digits_end(s, i + 1))
        } else {
            Err(Failure::NumberStart(c))
        },
    }
}

/// The position after the optional fraction at `i`: a point and at least
/// one digit.
pub open spec fn fraction_end(s: Seq<char>, i: int) -> Result<int, Failure> {
    if !at(s, i, '.') {
        Ok(i)
    } else if digits_end(s, i + 1) == i + 1 {
        Err(Failure::FractionDigits)
    } else {
        Ok(digits_end(s, i + 1))
    }
}

/// The position after the optional exponent at `i`: `e` or `E`, an optional
/// sign, and at least one digit.
pub open spec fn exponent_end(s: Seq<char>, i: int) -> Result<int, Failure> {
    if !(at(s, i, 'e') || at(s, i, 'E')) {
        Ok(i)
    } else {
        let digits = if at(s, i + 1, '-') || at(s, i + 1, '+') {
            i + 2
        } else {
            i + 1
        };
        if digits_end(s, digits) == digits {
            Err(Failure::ExponentDigits)
        } else {
            Ok(digits_end(s, digits))
        }
    }
}

/// The position after the number that starts at `i`: an optional minus
/// sign, the integer part, an optional fraction and an optional exponent.
pub open spec fn number_end(s: Seq<char>, i: int) -> Result<int, Failure> {
    let start = if at(s, i, '-') {
        i + 1
    } else {
        i
    };
    match integer_end(s, start) {
        Err(e) => Err(e),
        Ok(a) => match fraction_end(s, a) {
            Err(e) => Err(e),
            Ok(b) => exponent_end(s, b),
        },
    }
}

/// A number ends behind where it starts, and within the text.
pub proof fn lemma_number_moves(s: Seq<char>, i: int)
    ensures
        number_end(s, i) matches Ok(j) ==> 0 <= i < j <= s.len(),
{
    let start = if at(s, i, '-') {
        i + 1
    } else {
        i
    };
    if let Ok(a) = integer_end(s, start) {
        lemma_digits_end(s, start + 1);
        if let Ok(b) = fraction_end(s, a) {
            lemma_digits_end(s, a + 1);
            lemma_digits_end(s, b + 1);
            lemma_digits_end(s, b + 2);
        }
    }
}

/// The number that starts at `i`, as its literal, and the position after it.
pub open spec fn number_at(s: Seq<char>, i: int) -> Result<(JsonValue, int), Failure> {
    match number_end(s, i) {
        Err(e) => Err(e),
        Ok(j) => Ok((JsonValue::Number(s.subrange(i, j)), j)),
    }
}

/// The text is one number literal, from its first character to its last.
pub open spec fn is_number_literal(text: Seq<char>) -> bool {
    number_end(text, 0) == Ok::<int, Failure>(text.len() as int)
}

/// What a hexadecimal digit stands for.
pub open spec fn hex_value(c: char) -> Option<int> {
    if '0' <= c <= '9' {
        Some(c as int - '0' as int)
    } else if 'a' <= c <= 'f' {
        Some(c as int - 'a' as int + 10)
    } else if 'A' <= c <= 'F' {
        Some(c as int - 'A' as int + 10)
    } else {
        None
    }
}

/// The number that the `n` hexadecimal digits from `i` on stand for,
/// behind digits that stand for `high`.
pub open spec fn hex_number(s: Seq<char>, i: int, n: nat, high: int) -> Result<int, Failure>
    decreases n,
{
    if n == 0 {
        Ok(high)
    } else {
        match char_at(s, i) {
            None => Err(Failure::EndOfInput),
            Some(c) => match hex_value(c) {
                None => Err(Failure::HexDigit),
                Some(low) => hex_number(s, i + 1, (n - 1) as nat, 16 * high + low),
            },
        }
    }
}

/// The UTF-16 code unit that the four hexadecimal digits from `i` on stand
/// for, and the position after them.
pub open spec fn hex_unit(s: Seq<char>, i: int) -> Result<(u16, int), Failure> {
    match hex_number(s, i, 4, 0) {
        Err(e) => Err(e),
        Ok(code) => Ok((#[verifier::truncate] (code as u16), i + 4)),
    }
}

/// The code of the character that a one-letter escape stands for.
pub open spec fn short_escape(c: char) -> Option<u16> {
    if c == '"' {
        Some(0x22)
    } else if c == '\\' {
        Some(0x5C)
    } else if c == '/' {
        Some(0x2F)
    } else if c == 'b' {
        Some(0x08)
    } else if c == 'f' {
        Some(0x0C)
    } else if c == 'n' {
        Some(0x0A)
    } else if c == 'r' {
        Some(0x0D)
    } else if c == 't' {
        Some(0x09)
    } else {
        None
    }
}

/// The UTF-16 code unit of the escape whose backslash stands just before
/// `i`, and the position after the escape.
pub open spec fn escape_unit(s: Seq<char>, i: int) -> Result<(u16, int), Failure> {
    match char_at(s, i) {
        None => Err(Failure::EndOfInput),
        Some(c) => if c == 'u' {
            hex_unit(s, i + 1)
        } else {
            match short_escape(c) {
                None => Err(Failure::Escape),
                Some(unit) => Ok((unit, i + 1)),
            }
        },
    }
}

/// The first half of a surrogate pair.
pub open spec fn is_high_surrogate(unit: u16) -> bool {
    0xD800 <= unit <= 0xDBFF
}

/// The second half of a surrogate pair.
pub open spec fn is_low_surrogate(unit: u16) -> bool {
    0xDC00 <= unit <= 0xDFFF
}

/// The character that a surrogate pair encodes.
pub open spec fn pair_char(high: u16, low: u16) -> char
    recommends
        is_high_surrogate(high),
        is_low_surrogate(low),
{
    (0x10000 + (high - 0xD800) * 0x400 + (low - 0xDC00)) as char
}

/// The characters that a sequence of UTF-16 code units encodes; `None`
/// where a surrogate stands without its partner.
pub open spec fn decode_utf16(units: Seq<u16>) -> Option<Seq<char>>
    decreases units.len(),
{
    if units.len() == 0 {
        Some(Seq::empty())
    } else if is_high_surrogate(units[0]) {
        if units.len() >= 2 && is_low_surrogate(units[1]) {
            match decode_utf16(units.skip(2)) {
                None => None,
                Some(rest) => Some(seq![pair_char(units[0], units[1])] + rest),
            }
        } else {
            None
        }
    } else if is_low_surrogate(units[0]) {
        None
    } else {
        match decode_utf16(units.drop_first()) {
            None => None,
            Some(rest) => Some(seq![units[0] as char] + rest),
        }
    }
}

/// The code units of the escapes that follow one another from the
/// backslash just before `i` on, behind the units `run` of the escapes
/// before them, and the position after the last of these escapes. The text
/// must go on there.
pub open spec fn escape_units(s: Seq<char>, i: int, run: Seq<u16>) -> Result<
    (Seq<u16>, int),
    Failure,
>
    decreases s.len() - i,
{
    match escape_unit(s, i) {
        Err(e) => Err(e),
        Ok((unit, j)) => match char_at(s, j) {
            None => Err(Failure::EndOfInput),
            Some(c) => if c == '\\' {
                escape_units(s, j + 1, run.push(unit))
            } else {
                Ok((run.push(unit), j))
            },
        },
    }
}

/// A run of escapes ends behind where it starts, and within the text.
pub proof fn lemma_escape_units_moves(s: Seq<char>, i: int, run: Seq<u16>)
    ensures
        escape_units(s, i, run) matches Ok((units, j)) ==> i < j < s.len() && units.len()
            > run.len(),
    decreases s.len() - i,
{
    if let Ok((unit, j)) = escape_unit(s, i) {
        if char_at(s, j) == Some('\\') {
            lemma_escape_units_moves(s, j + 1, run.push(unit));
        }
    }
}

/// The characters of the escapes that follow one another from the backslash
/// just before `i` on, and the position after them. They are decoded
/// together, so that the two halves of a surrogate pair meet.
pub open spec fn escape_run(s: Seq<char>, i: int) -> Result<(Seq<char>, int), Failure> {
    match escape_units(s, i, Seq::empty()) {
        Err(e) => Err(e),
        Ok((units, j)) => match decode_utf16(units) {
            None => Err(Failure::Surrogate),
            Some(decoded) => Ok((decoded, j)),
        },
    }
}

/// The characters of a string: `done`, which were read before, and those
/// from `i` on up to the closing quote; and the position after that quote.
pub open spec fn string_body(s: Seq<char>, i: int, done: Seq<char>) -> Result<
    (Seq<char>, int),
    Failure,
>
    decreases s.len() - i,
    via string_body_decreases
{
    match char_at(s, i) {
        None => Err(Failure::EndOfInput),
        Some(c) => if c == '"' {
            Ok((done, i + 1))
        } else if c == '\\' {
            match escape_run(s, i + 1) {
                Err(e) => Err(e),
                Ok((decoded, j)) => string_body(s, j, done + decoded),
            }
        } else {
            string_body(s, i + 1, done.push(c))
        },
    }
}

#[via_fn]
proof fn string_body_decreases(s: Seq<char>, i: int, done: Seq<char>) {
    lemma_escape_units_moves(s, i + 1, Seq::empty());
}

/// The string that starts at `i` with its opening quote, and the position
/// after its closing quote.
pub open spec fn string_at(s: Seq<char>, i: int) -> Result<(Seq<char>, int), Failure> {
    match char_at(s, i) {
        None => Err(Failure::EndOfInput),
        Some(c) => if c != '"' {
            Err(Failure::NotAString(c))
        } else {
            string_body(s, i + 1, Seq::empty())
        },
    }
}

/// A string ends behind where it starts, and within the text.
pub proof fn lemma_string_body_moves(s: Seq<char>, i: int, done: Seq<char>)
    ensures
        string_body(s, i, done) matches Ok((chars, j)) ==> i < j <= s.len(),
    decreases s.len() - i,
{
    if 0 <= i < s.len() && s[i] != '"' {
        if s[i] == '\\' {
            lemma_escape_units_moves(s, i + 1, Seq::empty());
            if let Ok((decoded, j)) = escape_run(s, i + 1) {
                lemma_string_body_moves(s, j, done + decoded);
            }
        } else {
            lemma_string_body_moves(s, i + 1, done.push(s[i]));
        }
    }
}

/// A string ends behind where it starts, and within the text.
pub proof fn lemma_string_moves(s: Seq<char>, i: int)
    ensures
        string_at(s, i) matches Ok((chars, j)) ==> i + 1 < j <= s.len(),
{
    lemma_string_body_moves(s, i + 1, Seq::empty());
}

/// The value at `i`, after any whitespace, and the position after the
/// value and the whitespace that follows it. Arrays and objects may be
/// nested `room` deep in it.
pub open spec fn value_at(s: Seq<char>, i: int, room: nat) -> Result<(JsonValue, int), Failure>
    decreases s.len() - i, 2int,
{
    match char_at(s, i) {
        None => Err(Failure::EndOfInput),
        Some(c) => if is_whitespace(c) {
            value_at(s, i + 1, room)
        } else {
            match bare_value_at(s, i, room) {
                Err(e) => Err(e),
                Ok((v, j)) => Ok((v, skip_ws(s, j))),
            }
        },
    }
}

/// Whitespace before a value does not count: the value at `i` is the one
/// that starts where the whitespace from `i` on ends.
pub proof fn lemma_value_skips(s: Seq<char>, i: int, room: nat)
    ensures
        value_at(s, i, room) == value_at(s, skip_ws(s, i), room),
        value_at(s, i, room) == match char_at(s, skip_ws(s, i)) {
            None => Err(Failure::EndOfInput),
            Some(c) => match bare_value_at(s, skip_ws(s, i), room) {
                Err(e) => Err(e),
                Ok((v, j)) => Ok((v, skip_ws(s, j))),
            },
        },
    decreases s.len() - i,
{
    if 0 <= i < s.len() && is_whitespace(s[i]) {
        lemma_value_skips(s, i + 1, room);
    }
}

/// The value that starts at `i` itself, chosen by the character there, and
/// the position after the value.
pub open spec fn bare_value_at(s: Seq<char>, i: int, room: nat) -> Result<(JsonValue, int), Failure>
    decreases s.len() - i, 1int,
{
    match char_at(s, i) {
        None => Err(Failure::EndOfInput),
        Some(c) => if c == 'n' {
            match literal_end(s, i, seq!['n', 'u', 'l', 'l']) {
                Err(e) => Err(e),
                Ok(j) => Ok((JsonValue::Null, j)),
            }
        } else if c == 't' {
            match literal_end(s, i, seq!['t', 'r', 'u', 'e']) {
                Err(e) => Err(e),
                Ok(j) => Ok((JsonValue::Boolean(true), j)),
            }
        } else if c == 'f' {
            match literal_end(s, i, seq!['f', 'a', 'l', 's', 'e']) {
                Err(e) => Err(e),
                Ok(j) => Ok((JsonValue::Boolean(false), j)),
            }
        } else if c == '-' || is_digit(c) {
            number_at(s, i)
        } else if c == '"' {
            match string_at(s, i) {
                Err(e) => Err(e),
                Ok((chars, j)) => Ok((JsonValue::String(chars), j)),
            }
        } else if c == '[' {
            array_at(s, i, room)
        } else if c == '{' {
            object_at(s, i, room)
        } else {
            Err(Failure::Unexpected(c))
        },
    }
}

/// The array of the items that were read.
pub open spec fn as_array(items: Result<(Seq<JsonValue>, int), Failure>) -> Result<
    (JsonValue, int),
    Failure,
> {
    match items {
        Err(e) => Err(e),
        Ok((items, j)) => Ok((JsonValue::Array(items), j)),
    }
}

/// The object of the members that were read.
pub open spec fn as_object(members: Result<(Seq<(Seq<char>, JsonValue)>, int), Failure>) -> Result<
    (JsonValue, int),
    Failure,
> {
    match members {
        Err(e) => Err(e),
        Ok((members, j)) => Ok((JsonValue::Object(members), j)),
    }
}

/// The array that starts at `i` with its opening bracket, and the position
/// after its closing bracket. There must be room for it, and its items have
/// one level less.
pub open spec fn array_at(s: Seq<char>, i: int, room: nat) -> Result<(JsonValue, int), Failure>
    decreases s.len() - i, 0int,
{
    match char_at(s, i) {
        None => Err(Failure::EndOfInput),
        Some(c) => if c != '[' {
            Err(Failure::NotAContainer)
        } else if room == 0 {
            Err(Failure::TooDeep)
        } else {
            match char_at(s, skip_ws(s, i + 1)) {
                None => Err(Failure::EndOfInput),
                Some(c) => if c == ']' {
                    Ok((JsonValue::Array(Seq::empty()), skip_ws(s, i + 1) + 1))
                } else {
                    as_array(items_at(s, i + 1, (room - 1) as nat, Seq::empty()))
                },
            }
        },
    }
}

/// The items of an array from `i` on, behind the items `done` that were
/// read before, and the position after the closing bracket.
pub open spec fn items_at(s: Seq<char>, i: int, room: nat, done: Seq<JsonValue>) -> Result<
    (Seq<JsonValue>, int),
    Failure,
>
    decreases s.len() - i, 3int,
{
    match value_at(s, i, room) {
        Err(e) => Err(e),
        // a value is never empty, so `i < j` always holds: `lemma_value_moves`
        Ok((v, j)) => match char_at(s, j) {
            None => Err(Failure::EndOfInput),
            Some(c) => if c == ']' {
                Ok((done.push(v), j + 1))
            } else if c == ',' && i < j {
                items_at(s, j + 1, room, done.push(v))
            } else {
                Err(Failure::ArrayDelimiter(c))
            },
        },
    }
}

/// The object that starts at `i` with its opening brace, and the position
/// after its closing brace. There must be room for it, and its values have
/// one level less.
pub open spec fn object_at(s: Seq<char>, i: int, room: nat) -> Result<(JsonValue, int), Failure>
    decreases s.len() - i, 0int,
{
    match char_at(s, i) {
        None => Err(Failure::EndOfInput),
        Some(c) => if c != '{' {
            Err(Failure::NotAContainer)
        } else if room == 0 {
            Err(Failure::TooDeep)
        } else {
            match char_at(s, skip_ws(s, i + 1)) {
                None => Err(Failure::EndOfInput),
                Some(c) => if c == '}' {
                    Ok((JsonValue::Object(Seq::empty()), skip_ws(s, i + 1) + 1))
                } else {
                    as_object(members_at(s, i + 1, (room - 1) as nat, Seq::empty()))
                },
            }
        },
    }
}

/// The colon behind a key that ends before `i`, after any whitespace: the
/// position after the colon.
pub open spec fn colon_end(s: Seq<char>, i: int) -> Result<int, Failure> {
    match char_at(s, skip_ws(s, i)) {
        None => Err(Failure::EndOfInput),
        Some(c) => if c != ':' {
            Err(Failure::Colon)
        } else {
            Ok(skip_ws(s, i) + 1)
        },
    }
}

/// The member that starts at `i` with its key: the key, a colon and the
/// value, and the position after the value.
pub open spec fn member_at(s: Seq<char>, i: int, room: nat) -> Result<
    ((Seq<char>, JsonValue), int),
    Failure,
>
    decreases s.len() - i, 3int,
    via member_at_decreases
{
    match string_at(s, i) {
        Err(e) => Err(e),
        Ok((key, k)) => match colon_end(s, k) {
            Err(e) => Err(e),
            Ok(c) => match value_at(s, c, room) {
                Err(e) => Err(e),
                Ok((v, j)) => Ok(((key, v), j)),
            },
        },
    }
}

#[via_fn]
proof fn member_at_decreases(s: Seq<char>, i: int, room: nat) {
    lemma_string_moves(s, i);
    if let Ok((key, k)) = string_at(s, i) {
        lemma_skip_ws(s, k);
    }
}

/// The members of an object from `i` on, where after any whitespace a key
/// stands, put into the members `done` that were read before, and the
/// position after the closing brace. A key that occurs again replaces the
/// member that had it.
pub open spec fn members_at(
    s: Seq<char>,
    i: int,
    room: nat,
    done: Seq<(Seq<char>, JsonValue)>,
) -> Result<
    (Seq<(Seq<char>, JsonValue)>, int),
    Failure,
>
    decreases s.len() - i, 4int,
{
    if 0 <= i < s.len() && is_whitespace(s[i]) {
        members_at(s, i + 1, room, done)
    } else {
        match member_at(s, i, room) {
            Err(e) => Err(e),
            // a member is never empty, so `i < j` always holds:
            // `lemma_member_moves`
            Ok(((key, v), j)) => match char_at(s, j) {
                None => Err(Failure::EndOfInput),
                Some(c) => if c == '}' {
                    Ok((put(done, key, v), j + 1))
                } else if c == ',' && i < j {
                    members_at(s, j + 1, room, put(done, key, v))
                } else {
                    Err(Failure::ObjectDelimiter(c))
                },
            },
        }
    }
}

/// Whitespace before a key does not count.
pub proof fn lemma_members_skip(s: Seq<char>, i: int, room: nat, done: Seq<(Seq<char>, JsonValue)>)
    ensures
        members_at(s, i, room, done) == members_at(s, skip_ws(s, i), room, done),
    decreases s.len() - i,
{
    if 0 <= i < s.len() && is_whitespace(s[i]) {
        lemma_members_skip(s, i + 1, room, done);
    }
}

/// A value ends behind where it starts, and within the text.
pub proof fn lemma_value_moves(s: Seq<char>, i: int, room: nat)
    ensures
        value_at(s, i, room) matches Ok((v, j)) ==> 0 <= i < j <= s.len(),
    decreases s.len() - i, 2int,
{
    if let Some(c) = char_at(s, i) {
        if is_whitespace(c) {
            lemma_value_moves(s, i + 1, room);
        } else {
            lemma_bare_value_moves(s, i, room);
            if let Ok((v, j)) = bare_value_at(s, i, room) {
                lemma_skip_ws(s, j);
            }
        }
    }
}

/// A value ends behind where it starts, and within the text.
pub proof fn lemma_bare_value_moves(s: Seq<char>, i: int, room: nat)
    ensures
        bare_value_at(s, i, room) matches Ok((v, j)) ==> 0 <= i < j <= s.len(),
    decreases s.len() - i, 1int,
{
    if let Some(c) = char_at(s, i) {
        if c == 'n' {
            lemma_literal_end(s, i, seq!['n', 'u', 'l', 'l']);
        } else if c == 't' {
            lemma_literal_end(s, i, seq!['t', 'r', 'u', 'e']);
        } else if c == 'f' {
            lemma_literal_end(s, i, seq!['f', 'a', 'l', 's', 'e']);
        } else if c == '-' || is_digit(c) {
            lemma_number_moves(s, i);
        } else if c == '"' {
            lemma_string_moves(s, i);
        } else if c == '[' {
            lemma_skip_ws(s, i + 1);
            if room > 0 {
                lemma_items_move(s, i + 1, (room - 1) as nat, Seq::empty());
            }
        } else if c == '{' {
            lemma_skip_ws(s, i + 1);
            if room > 0 {
                lemma_members_move(s, i + 1, (room - 1) as nat, Seq::empty());
            }
        }
    }
}

/// The items of an array end behind where they start, and within the text.
pub proof fn lemma_items_move(s: Seq<char>, i: int, room: nat, done: Seq<JsonValue>)
    ensures
        items_at(s, i, room, done) matches Ok((items, j)) ==> 0 <= i < j <= s.len(),
    decreases s.len() - i, 3int,
{
    lemma_value_moves(s, i, room);
    if let Ok((v, j)) = value_at(s, i, room) {
        if char_at(s, j) == Some(',') {
            lemma_items_move(s, j + 1, room, done.push(v));
        }
    }
}

/// A member ends behind where it starts, and within the text.
pub proof fn lemma_member_moves(s: Seq<char>, i: int, room: nat)
    ensures
        member_at(s, i, room) matches Ok((member, j)) ==> 0 <= i < j <= s.len(),
    decreases s.len() - i, 3int,
{
    lemma_string_moves(s, i);
    if let Ok((key, k)) = string_at(s, i) {
        lemma_skip_ws(s, k);
        if let Ok(c) = colon_end(s, k) {
            lemma_value_moves(s, c, room);
        }
    }
}

/// The members of an object end behind where they start, and within the
/// text.
pub proof fn lemma_members_move(s: Seq<char>, i: int, room: nat, done: Seq<(Seq<char>, JsonValue)>)
    ensures
        members_at(s, i, room, done) matches Ok((members, j)) ==> 0 <= i < j <= s.len(),
    decreases s.len() - i, 4int,
{
    if 0 <= i < s.len() && is_whitespace(s[i]) {
        lemma_members_move(s, i + 1, room, done);
    } else {
        lemma_member_moves(s, i, room);
        if let Ok(((key, v), j)) = member_at(s, i, room) {
            if char_at(s, j) == Some(',') {
                lemma_members_move(s, j + 1, room, put(done, key, v));
            }
        }
    }
}

/// The value that the whole text denotes: one value, with nothing but
/// whitespace around it, and with arrays and objects nested no deeper than
/// `MAX_NESTING`.
pub open spec fn parse_text(s: Seq<char>) -> Result<JsonValue, Failure> {
    match value_at(s, 0, MAX_NESTING as nat) {
        Err(e) => Err(e),
        Ok((v, j)) => match char_at(s, j) {
            Some(c) => Err(Failure::Trailing(c, (s.len() - j) as nat)),
            None => Ok(v),
        },
    }
}

} // verus!
