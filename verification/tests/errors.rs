use json_tree::ast::Json;
use json_tree::cursor::Cursor;
use json_tree::grammar::MAX_NESTING;
use json_tree::parser::{
    consume, decode_units, fail, next_or_fail, parse, parse_array, parse_object, parse_string,
    parse_number, parse_string_escape_as_codepoint, parse_string_escape_char,
    parse_utf16_hex_escaped_codepoint, parse_value, peek_or_fail, skip_whitespace, JsonParseError,
};

/// The message with which a text is refused.
fn refusal(text: &str) -> String {
    match parse(text) {
        Ok(value) => panic!("{text} was read as {value:?}"),
        Err(error) => error.message,
    }
}

#[test]
fn an_empty_text_ends_too_early() {
    assert_eq!(refusal(""), "Unexpected end of input");
    assert_eq!(refusal("  \n"), "Unexpected end of input");
    assert_eq!(refusal("["), "Unexpected end of input");
    assert_eq!(refusal("[1,"), "Unexpected end of input");
    assert_eq!(refusal("{\"a\":"), "Unexpected end of input");
    assert_eq!(refusal("\"abc"), "Unexpected end of input");
    assert_eq!(refusal("\"abc\\"), "Unexpected end of input");
    assert_eq!(refusal("\"abc\\n"), "Unexpected end of input");
    assert_eq!(refusal("nul"), "Unexpected end of input");
}

#[test]
fn a_lone_minus_sign_ends_too_early() {
    assert_eq!(refusal("-"), "Unexpected end of input");
}

#[test]
fn a_character_that_starts_no_value_is_named() {
    assert_eq!(refusal("x"), "Unexpected character: x");
    assert_eq!(refusal("+23"), "Unexpected character: +");
    assert_eq!(refusal(".34"), "Unexpected character: .");
    assert_eq!(refusal("[,null]"), "Unexpected character: ,");
    assert_eq!(refusal("[true,]"), "Unexpected character: ]");
}

#[test]
fn what_follows_the_value_is_named_and_counted() {
    assert_eq!(
        refusal("null x"),
        "Unexpected character: x, 1 chars remaining"
    );
    assert_eq!(refusal("00"), "Unexpected character: 0, 1 chars remaining");
    assert_eq!(
        refusal("145.65.2"),
        "Unexpected character: ., 2 chars remaining"
    );
    assert_eq!(
        refusal("[]] and more"),
        "Unexpected character: ], 10 chars remaining"
    );
    assert_eq!(
        refusal("truee"),
        "Unexpected character: e, 1 chars remaining"
    );
}

#[test]
fn a_misspelt_literal_names_both_characters() {
    assert_eq!(refusal("nul!"), "Expected 'l', but found '!'");
    assert_eq!(refusal("folse"), "Expected 'a', but found 'o'");
    assert_eq!(refusal("flase"), "Expected 'a', but found 'l'");
    assert_eq!(refusal("tru "), "Expected 'e', but found ' '");
}

#[test]
fn a_number_needs_its_digits() {
    assert_eq!(refusal("-hello"), "Unexpected character in number: h");
    assert_eq!(refusal("--23"), "Unexpected character in number: -");
    assert_eq!(refusal("67."), "Missing digits after point in number");
    assert_eq!(refusal("67.e3"), "Missing digits after point in number");
    assert_eq!(refusal("1e"), "Missing digits after exponent in number");
    assert_eq!(refusal("1e+"), "Missing digits after exponent in number");
    assert_eq!(refusal("1E-x"), "Missing digits after exponent in number");
}

#[test]
fn a_key_must_be_a_string() {
    assert_eq!(refusal("{unquoted: true}"), "Expected a string, found 'u'");
    assert_eq!(refusal("{\"a\":1,}"), "Expected a string, found '}'");
    assert_eq!(refusal("{1:2}"), "Expected a string, found '1'");
}

#[test]
fn an_escape_must_be_known() {
    assert_eq!(refusal(r#""\d""#), "Invalid escape sequence in string");
    assert_eq!(refusal(r#""\0""#), "Invalid escape sequence in string");
    assert_eq!(refusal(r#""\ n""#), "Invalid escape sequence in string");
    assert_eq!(refusal(r#""\U0041""#), "Invalid escape sequence in string");
}

#[test]
fn a_unicode_escape_needs_four_hexadecimal_digits() {
    assert_eq!(
        refusal(r#""\u12G4""#),
        "Invalid hex digit in unicode escape sequence"
    );
    assert_eq!(
        refusal(r#""\u001""#),
        "Invalid hex digit in unicode escape sequence"
    );
    assert_eq!(
        refusal(r#""\u ""#),
        "Invalid hex digit in unicode escape sequence"
    );
    assert_eq!(refusal(r#""\u00"#), "Unexpected end of input");
}

#[test]
fn a_surrogate_needs_its_partner() {
    assert_eq!(
        refusal(r#""\uD83D""#),
        "Unpaired UTF-16 surrogate in string"
    );
    assert_eq!(
        refusal(r#""\uDE02""#),
        "Unpaired UTF-16 surrogate in string"
    );
    assert_eq!(
        refusal(r#""\uDE02\uD83D""#),
        "Unpaired UTF-16 surrogate in string"
    );
    assert_eq!(
        refusal(r#""\uD83D\n""#),
        "Unpaired UTF-16 surrogate in string"
    );
    assert_eq!(
        refusal(r#""\uD83Dx\uDE02""#),
        "Unpaired UTF-16 surrogate in string"
    );
    assert_eq!(
        refusal(r#""\uD83D😂""#),
        "Unpaired UTF-16 surrogate in string"
    );
}

#[test]
fn a_run_of_escapes_is_read_before_it_is_decoded() {
    assert_eq!(
        refusal(r#""\uDE02\q""#),
        "Invalid escape sequence in string"
    );
    assert_eq!(refusal(r#""\uD83D"#), "Unexpected end of input");
}

#[test]
fn a_key_needs_its_colon() {
    assert_eq!(refusal(r#"{"no value"}"#), "Missing colon after object key");
    assert_eq!(refusal(r#"{"a" 1}"#), "Missing colon after object key");
    assert_eq!(refusal(r#"{"a""#), "Unexpected end of input");
}

#[test]
fn items_need_a_comma_between_them() {
    assert_eq!(refusal("[1 2]"), "Expected ',' or ']', found '2'");
    assert_eq!(refusal("[1}"), "Expected ',' or ']', found '}'");
    assert_eq!(refusal("[\"a\":1]"), "Expected ',' or ']', found ':'");
}

#[test]
fn members_need_a_comma_between_them() {
    assert_eq!(
        refusal(r#"{"missing": "comma" "between": "properties"}"#),
        "Expected ',' or '}', found '\"'"
    );
    assert_eq!(refusal(r#"{"a":1]"#), "Expected ',' or '}', found ']'");
}

#[test]
fn an_array_or_object_must_start_with_its_bracket() {
    let mut at_a_number = Cursor::new("1]");
    assert_eq!(
        parse_array(&mut at_a_number, MAX_NESTING),
        Err(JsonParseError {
            message: "Expected array".to_owned()
        })
    );
    let mut at_a_bracket = Cursor::new("[]");
    assert_eq!(
        parse_object(&mut at_a_bracket, MAX_NESTING),
        Err(JsonParseError {
            message: "Expected array".to_owned()
        })
    );
    let mut at_the_end = Cursor::new("");
    assert_eq!(
        parse_array(&mut at_the_end, MAX_NESTING),
        Err(JsonParseError {
            message: "Unexpected end of input".to_owned()
        })
    );
}

/// `depth` opening brackets, then as many closing brackets.
fn nested_arrays(depth: usize) -> String {
    let mut text = String::new();
    for _ in 0..depth {
        text.push('[');
    }
    for _ in 0..depth {
        text.push(']');
    }
    text
}

#[test]
fn nesting_is_read_up_to_the_limit() {
    assert_eq!(MAX_NESTING, 128);
    assert!(parse(&nested_arrays(1)).is_ok());
    assert!(parse(&nested_arrays(127)).is_ok());
    assert!(parse(&nested_arrays(128)).is_ok());
    assert_eq!(
        refusal(&nested_arrays(129)),
        "Arrays and objects are nested too deeply"
    );
    assert_eq!(
        refusal(&nested_arrays(100_000)),
        "Arrays and objects are nested too deeply"
    );
}

#[test]
fn objects_count_towards_the_nesting_limit() {
    let mut text = String::new();
    for _ in 0..64 {
        text.push_str("{\"a\":[");
    }
    text.push_str("null");
    for _ in 0..64 {
        text.push_str("]}");
    }
    assert!(parse(&text).is_ok());
    let deeper = format!("[{text}]");
    assert_eq!(refusal(&deeper), "Arrays and objects are nested too deeply");
    let mut rest = Cursor::new("[[]]");
    assert_eq!(
        parse_value(&mut rest, 1),
        Err(JsonParseError {
            message: "Arrays and objects are nested too deeply".to_owned()
        })
    );
    let mut rest = Cursor::new("[[]]");
    assert!(parse_value(&mut rest, 2).is_ok());
    let mut rest = Cursor::new("{}");
    assert_eq!(
        parse_object(&mut rest, 0),
        Err(JsonParseError {
            message: "Arrays and objects are nested too deeply".to_owned()
        })
    );
}

#[test]
fn an_error_names_itself_as_one() {
    let error = JsonParseError {
        message: "Unexpected end of input".to_owned(),
    };
    assert_eq!(
        error.to_string(),
        "ERROR: Invalid JSON - Unexpected end of input"
    );
    match parse("[1 2]") {
        Ok(_) => panic!("read"),
        Err(error) => assert_eq!(
            error.to_string(),
            "ERROR: Invalid JSON - Expected ',' or ']', found '2'"
        ),
    }
}

#[test]
fn fail_gives_the_error_with_the_message() {
    let failed: Result<Json, JsonParseError> = fail("so it is".to_owned());
    assert_eq!(
        failed,
        Err(JsonParseError {
            message: "so it is".to_owned()
        })
    );
}

#[test]
fn the_cursor_moves_as_it_reads() {
    let mut rest = Cursor::new(" \t\r\n xy");
    assert_eq!(rest.pos, 0);
    assert_eq!(peek_or_fail(&rest), Ok(' '));
    skip_whitespace(&mut rest);
    assert_eq!(rest.pos, 5);
    assert_eq!(peek_or_fail(&rest), Ok('x'));
    assert_eq!(rest.pos, 5);
    assert_eq!(next_or_fail(&mut rest), Ok('x'));
    assert_eq!(next_or_fail(&mut rest), Ok('y'));
    assert_eq!(rest.pos, 7);
    assert_eq!(rest.count(), 0);
    assert!(peek_or_fail(&rest).is_err());
    assert!(next_or_fail(&mut rest).is_err());
    assert_eq!(rest.pos, 7);
    skip_whitespace(&mut rest);
    assert_eq!(rest.pos, 7);
}

#[test]
fn the_parts_of_a_string_are_read_one_by_one() {
    let mut rest = Cursor::new("00e9\"");
    assert_eq!(parse_utf16_hex_escaped_codepoint(&mut rest), Ok(0x00E9));
    assert_eq!(rest.pos, 4);
    let mut rest = Cursor::new("FfFf");
    assert_eq!(parse_utf16_hex_escaped_codepoint(&mut rest), Ok(0xFFFF));
    let mut rest = Cursor::new("AbCd");
    assert_eq!(parse_utf16_hex_escaped_codepoint(&mut rest), Ok(0xABCD));
    let mut rest = Cursor::new("1209");
    assert_eq!(parse_utf16_hex_escaped_codepoint(&mut rest), Ok(0x1209));

    let mut rest = Cursor::new("n");
    assert_eq!(parse_string_escape_as_codepoint(&mut rest), Ok(10));
    let mut rest = Cursor::new("/");
    assert_eq!(parse_string_escape_as_codepoint(&mut rest), Ok(47));
    let mut rest = Cursor::new("u0041");
    assert_eq!(parse_string_escape_as_codepoint(&mut rest), Ok(65));
    assert_eq!(rest.pos, 5);

    let mut rest = Cursor::new("t\\uD83D\\uDE02\\\\x");
    assert_eq!(
        parse_string_escape_char(&mut rest),
        Ok("\t\u{1F602}\\".to_owned())
    );
    assert_eq!(rest.pos, 15);

    let mut rest = Cursor::new("\"a\\\"b\" tail");
    assert_eq!(parse_string(&mut rest), Ok("a\"b".to_owned()));
    assert_eq!(rest.pos, 6);
}

#[test]
fn the_highest_and_the_lowest_surrogate_pair_are_decoded() {
    assert_eq!(
        parse(r#""\uD800\uDC00""#),
        Ok(Json::String("\u{10000}".to_owned()))
    );
    assert_eq!(
        parse(r#""\uDBFF\uDFFF""#),
        Ok(Json::String("\u{10FFFF}".to_owned()))
    );
    assert_eq!(
        parse(r#""\uD7FF\uE000""#),
        Ok(Json::String("\u{D7FF}\u{E000}".to_owned()))
    );
    assert_eq!(
        parse(r#""\ud83d\ude03""#),
        Ok(Json::String("\u{1F603}".to_owned()))
    );
}

#[test]
fn code_units_are_decoded_together() {
    assert_eq!(decode_units(&vec![]), Some(String::new()));
    assert_eq!(decode_units(&vec![0x41, 0xE9, 0x20AC]), Some("A\u{E9}\u{20AC}".to_owned()));
    assert_eq!(decode_units(&vec![0xD83D, 0xDE02]), Some("\u{1F602}".to_owned()));
    assert_eq!(
        decode_units(&vec![0x61, 0xD800, 0xDC00, 0x62, 0xDBFF, 0xDFFF]),
        Some("a\u{10000}b\u{10FFFF}".to_owned())
    );
    assert_eq!(
        decode_units(&vec![0xD7FF, 0xE000, 0xFFFF]),
        Some("\u{D7FF}\u{E000}\u{FFFF}".to_owned())
    );
    assert_eq!(decode_units(&vec![0xD83D]), None);
    assert_eq!(decode_units(&vec![0xDE02]), None);
    assert_eq!(decode_units(&vec![0xDE02, 0xD83D]), None);
    assert_eq!(decode_units(&vec![0xD83D, 0x41]), None);
    assert_eq!(decode_units(&vec![0xD83D, 0xD83D, 0xDE02]), None);
    assert_eq!(decode_units(&vec![0x41, 0xDC00]), None);
    for units in [vec![0x48u16, 0x69], vec![0xD834, 0xDD1E], vec![0xDD1E], vec![0xD834, 0x20]] {
        let expected: Option<String> = char::decode_utf16(units.iter().copied())
            .collect::<Result<String, _>>()
            .ok();
        assert_eq!(decode_units(&units), expected);
    }
}

#[test]
fn a_literal_is_read_character_by_character() {
    let mut rest = Cursor::new("nullx");
    assert_eq!(consume(&mut rest, "null", Json::Null), Ok(Json::Null));
    assert_eq!(rest.pos, 4);
    let mut rest = Cursor::new("true");
    assert_eq!(
        consume(&mut rest, "true", Json::Boolean(true)),
        Ok(Json::Boolean(true))
    );
    assert_eq!(rest.count(), 0);
    let mut rest = Cursor::new("anything");
    assert_eq!(consume(&mut rest, "", Json::Null), Ok(Json::Null));
    assert_eq!(rest.pos, 0);
    let mut rest = Cursor::new("fals");
    assert_eq!(
        consume(&mut rest, "false", Json::Boolean(false)),
        Err(JsonParseError {
            message: "Unexpected end of input".to_owned()
        })
    );
    let mut rest = Cursor::new("fAlse");
    assert_eq!(
        consume(&mut rest, "false", Json::Boolean(false)),
        Err(JsonParseError {
            message: "Expected 'a', but found 'A'".to_owned()
        })
    );
}

#[test]
fn a_reading_that_fails_leaves_the_cursor_where_it_was() {
    let mut rest = Cursor::new("  [1, 2, \"x\\q\"]");
    assert!(parse_value(&mut rest, MAX_NESTING).is_err());
    assert_eq!(rest.pos, 0);
    rest.pos = 2;
    assert!(parse_array(&mut rest, MAX_NESTING).is_err());
    assert_eq!(rest.pos, 2);
    rest.pos = 9;
    assert!(parse_string(&mut rest).is_err());
    assert_eq!(rest.pos, 9);
    rest.pos = 12;
    assert!(parse_string_escape_char(&mut rest).is_err());
    assert_eq!(rest.pos, 12);
    assert!(parse_string_escape_as_codepoint(&mut rest).is_err());
    assert_eq!(rest.pos, 12);
    let mut rest = Cursor::new("{\"a\": tru}");
    assert!(parse_object(&mut rest, MAX_NESTING).is_err());
    assert_eq!(rest.pos, 0);
    rest.pos = 6;
    assert!(consume(&mut rest, "true", Json::Boolean(true)).is_err());
    assert_eq!(rest.pos, 6);
    let mut rest = Cursor::new("u12x4");
    assert!(parse_string_escape_as_codepoint(&mut rest).is_err());
    assert_eq!(rest.pos, 0);
    rest.pos = 1;
    assert!(parse_utf16_hex_escaped_codepoint(&mut rest).is_err());
    assert_eq!(rest.pos, 1);
    let mut rest = Cursor::new("-12.e5");
    assert!(parse_number(&mut rest).is_err());
    assert_eq!(rest.pos, 0);
}
