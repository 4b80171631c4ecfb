use json_tree::ast::Json;
use json_tree::dsl::ToJson;
use json_tree::layout::Mode;
use json_tree::object::{insert_member, key_before, key_same};
use json_tree::parser::parse;
use json_tree::printer::{display_json_string, json_to_string, render};

/// The text is read, written in the given mode and read again: both
/// readings give the same value.
fn reads_back(text: &str, mode: Mode) {
    let first = parse(text);
    assert!(first.is_ok(), "{text} is not read");
    let written = match &first {
        Ok(value) => render(value, mode),
        Err(_) => String::new(),
    };
    assert_eq!(parse(&written), first, "{text} was written as {written}");
}

const SAMPLES: [&str; 16] = [
    "null",
    " true ",
    "false",
    "0",
    "-0.5e-7",
    "123456789012345678901234567890.000000000000000000001E+400",
    r#""""#,
    r#""plain, \"quoted\", back\\slash, sol\/idus, \b\f\n\r\t, \u0000\u001f\u007fé😂""#,
    "\"raw \u{1F602} and \u{E9} and \u{7F}\"",
    "[]",
    "{}",
    "[[], [[], [null]], {}, [{}]]",
    r#"{"b":1,"a":2}"#,
    r#"{"a":1,"a":2,"":3,"A":4,"aa":5}"#,
    r#" { "prop": null ,"x" : true, " 123\n " :false , "list" : [ 1 , 2.5 , "three" ] } "#,
    r#"{"deeply": {"nested": {"object": {}, "array": [[[]]]}}}"#,
];

#[test]
fn what_is_written_compactly_is_read_back() {
    for text in SAMPLES {
        reads_back(text, Mode::Compact);
    }
}

#[test]
fn what_is_written_on_lines_is_read_back() {
    for text in SAMPLES {
        reads_back(text, Mode::Pretty(0));
        reads_back(text, Mode::Pretty(2));
        reads_back(text, Mode::Pretty(7));
    }
}

#[test]
fn writing_twice_gives_the_same_text() {
    for text in SAMPLES {
        let value = parse(text).unwrap();
        let written = render(&value, Mode::Compact);
        let again = render(&parse(&written).unwrap(), Mode::Compact);
        assert_eq!(written, again);
    }
}

#[test]
fn members_are_written_in_the_order_of_their_keys() {
    let parsed = parse(r#"{"b":1,"a":2}"#).unwrap();
    assert_eq!(render(&parsed, Mode::Compact), r#"{"a":2,"b":1}"#);
    assert_eq!(
        parsed,
        Json::Object(vec![
            ("a".to_owned(), Json::Number("2".to_owned())),
            ("b".to_owned(), Json::Number("1".to_owned())),
        ])
    );
    let parsed = parse(r#"{"b":0, "aa":0, "a":0, "B":0, "":0, "é":0, "z":0, "😂":0, "~":0}"#)
        .unwrap();
    assert_eq!(
        render(&parsed, Mode::Compact),
        r#"{"":0,"B":0,"a":0,"aa":0,"b":0,"z":0,"~":0,"é":0,"😂":0}"#
    );
}

#[test]
fn the_last_of_two_members_with_one_key_stays() {
    let parsed = parse(r#"{"a":1,"b":2,"a":3}"#).unwrap();
    assert_eq!(render(&parsed, Mode::Compact), r#"{"a":3,"b":2}"#);
    assert_eq!(parsed.get("a"), Some(&Json::Number("3".to_owned())));
    let parsed = parse(r#"{"a":1,"a":[],"a":{"a":null,"a":true}}"#).unwrap();
    assert_eq!(render(&parsed, Mode::Compact), r#"{"a":{"a":true}}"#);
}

#[test]
fn whitespace_between_the_parts_changes_nothing() {
    assert_eq!(parse(" [ 1 ,\t2 ,\n3\r]  \n"), parse("[1,2,3]"));
    assert_eq!(
        parse("\n{ \"a\" \t: [ ] ,\r\n \"b\" : { } }\n"),
        parse(r#"{"a":[],"b":{}}"#)
    );
    for text in SAMPLES {
        let value = parse(text).unwrap();
        assert_eq!(
            parse(&render(&value, Mode::Pretty(3))),
            parse(&render(&value, Mode::Compact))
        );
    }
}

#[test]
fn whitespace_inside_a_string_stays() {
    assert_eq!(
        parse("\" a \\t b \""),
        Ok(Json::String(" a \t b ".to_owned()))
    );
    assert_ne!(parse("\" a\""), parse("\"a\""));
}

#[test]
fn a_number_keeps_its_literal() {
    assert_eq!(parse("10e23"), Ok(Json::Number("10e23".to_owned())));
    assert_eq!(parse("10E+23"), Ok(Json::Number("10E+23".to_owned())));
    assert_eq!(parse("-0"), Ok(Json::Number("-0".to_owned())));
    assert_eq!(parse(" 1.50 "), Ok(Json::Number("1.50".to_owned())));
    assert_eq!(parse("[0,0.0]").map(|v| render(&v, Mode::Compact)), Ok("[0,0.0]".to_owned()));
}

#[test]
fn only_number_literals_make_numbers() {
    assert_eq!(Json::number("0"), Some(Json::Number("0".to_owned())));
    assert_eq!(Json::number("-12.5e+3"), Some(Json::Number("-12.5e+3".to_owned())));
    assert_eq!(Json::number("1E9"), Some(Json::Number("1E9".to_owned())));
    for text in [
        "", "-", "+1", "00", "01", "1.", ".5", "1e", "1e+", "1 ", " 1", "1,", "0x10", "NaN",
        "inf", "1.5.2", "--1", "1e1.5", "١",
    ] {
        assert_eq!(Json::number(text), None, "{text}");
    }
}

#[test]
fn keys_are_ordered_by_their_characters() {
    assert!(key_before("", "a"));
    assert!(!key_before("", ""));
    assert!(!key_before("a", ""));
    assert!(key_before("a", "b"));
    assert!(!key_before("b", "a"));
    assert!(key_before("a", "aa"));
    assert!(!key_before("aa", "a"));
    assert!(key_before("Z", "a"));
    assert!(key_before("ab", "b"));
    assert!(key_before("z", "é"));
    assert!(key_before("\u{FFFF}", "\u{10000}"));
    assert!(!key_before("same", "same"));
    assert!(key_same("same", "same"));
    assert!(key_same("", ""));
    assert!(!key_same("same", "samE"));
    assert!(!key_same("same", "sam"));
    for (a, b) in [("a", "b"), ("", "x"), ("é", "z"), ("ab", "abc"), ("\u{FFFF}", "\u{10000}")] {
        assert_eq!(key_before(a, b), a < b);
        assert_eq!(key_before(b, a), b < a);
    }
}

#[test]
fn a_member_is_put_where_its_key_belongs() {
    let mut members: Vec<(String, Json)> = Vec::new();
    insert_member(&mut members, "m".to_owned(), Json::Null);
    insert_member(&mut members, "z".to_owned(), Json::Boolean(true));
    insert_member(&mut members, "a".to_owned(), Json::Boolean(false));
    insert_member(&mut members, "n".to_owned(), Json::Null);
    insert_member(&mut members, "m".to_owned(), Json::String("again".to_owned()));
    insert_member(&mut members, "".to_owned(), Json::Null);
    assert_eq!(
        members,
        vec![
            ("".to_owned(), Json::Null),
            ("a".to_owned(), Json::Boolean(false)),
            ("m".to_owned(), Json::String("again".to_owned())),
            ("n".to_owned(), Json::Null),
            ("z".to_owned(), Json::Boolean(true)),
        ]
    );
}

#[test]
fn what_was_set_is_got() {
    let object = Json::object().set("b", true).set("a", 1).set("c", "x");
    assert_eq!(object.get("a"), Some(&Json::Number("1".to_owned())));
    assert_eq!(object.get("b"), Some(&Json::Boolean(true)));
    assert_eq!(object.get("c"), Some(&Json::String("x".to_owned())));
    assert_eq!(object.get("d"), None);
    let object = object.set("b", None::<bool>);
    assert_eq!(object.get("b"), Some(&Json::Null));
    assert_eq!(object.get("a"), Some(&Json::Number("1".to_owned())));
    assert_eq!(render(&object, Mode::Compact), r#"{"a":1,"b":null,"c":"x"}"#);
}

#[test]
fn a_copy_is_equal_to_what_was_copied() {
    for text in SAMPLES {
        let value = parse(text).unwrap();
        assert_eq!(value.clone(), value);
    }
}

#[test]
fn whole_numbers_are_written_in_decimal() {
    assert_eq!(0.to_json(), Json::Number("0".to_owned()));
    assert_eq!(7.to_json(), Json::Number("7".to_owned()));
    assert_eq!(10.to_json(), Json::Number("10".to_owned()));
    assert_eq!((-1).to_json(), Json::Number("-1".to_owned()));
    assert_eq!(1234567890.to_json(), Json::Number("1234567890".to_owned()));
    assert_eq!(i32::MAX.to_json(), Json::Number("2147483647".to_owned()));
    assert_eq!(i32::MIN.to_json(), Json::Number("-2147483648".to_owned()));
    for n in [0, 5, -5, 100, -100, i32::MAX, i32::MIN] {
        assert_eq!(n.to_json(), Json::Number(format!("{}", f64::from(n))));
        assert_eq!(parse(&render(&n.to_json(), Mode::Compact)), Ok(n.to_json()));
    }
}

#[test]
fn a_string_is_written_between_quotes() {
    assert_eq!(display_json_string(""), "\"\"");
    assert_eq!(display_json_string("a/b"), "\"a/b\"");
    assert_eq!(display_json_string("\"\\"), r#""\"\\""#);
    assert_eq!(
        display_json_string("\u{0}\u{1}\u{7}\u{8}\u{9}\u{A}\u{B}\u{C}\u{D}\u{E}\u{F}"),
        r#""\u0000\u0001\u0007\b\t\n\u000B\f\r\u000E\u000F""#
    );
    assert_eq!(
        display_json_string("\u{10}\u{19}\u{1A}\u{1B}\u{1F} \u{7F}\u{80}"),
        "\"\\u0010\\u0019\\u001A\\u001B\\u001F \u{7F}\u{80}\""
    );
    assert_eq!(json_to_string(&Json::String("é😂".to_owned()), 2), "\"é😂\"");
}

#[test]
fn a_control_character_is_written_with_its_code() {
    let written = render(&Json::String("null \u{0} char".to_owned()), Mode::Compact);
    assert!(written.contains("\\u0000"));
    assert_eq!(written, "\"null \\u0000 char\"");
    let written = json_to_string(&Json::String("null \u{0} char".to_owned()), 2);
    assert!(written.contains("\\u0000"));
}
