use json_tree::ast::Json;
use json_tree::printer::json_to_string;

/// The number that the library holds for a double: its shortest decimal
/// literal.
fn number(value: f64) -> Json {
    Json::Number(format!("{value}"))
}

/// The object with the given members: each key bound to its value, in turn.
fn object_of(members: Vec<(String, Json)>) -> Json {
    let mut object = Json::object();
    for (key, value) in members {
        object = object.set(key.as_str(), value);
    }
    object
}

#[test]
fn it_prints_null() {
    assert_eq!(json_to_string(&Json::Null, 2), "null");
}

#[test]
fn it_prints_booleans() {
    assert_eq!(json_to_string(&Json::Boolean(true), 2), "true");
    assert_eq!(json_to_string(&Json::Boolean(false), 2), "false");
}

#[test]
fn it_prints_numbers() {
    assert_eq!(json_to_string(&number(0.0), 2), "0");
    assert_eq!(json_to_string(&number(234.0), 2), "234");
    assert_eq!(json_to_string(&number(-234.0), 2), "-234");
    assert_eq!(json_to_string(&number(123.456), 2), "123.456");
    assert_eq!(json_to_string(&number(10000.00001), 2), "10000.00001");
    assert_eq!(
        json_to_string(&number(0.00000000001), 2),
        "0.00000000001"
    );
    assert_eq!(
        json_to_string(&number(2405946039048539.0), 2),
        "2405946039048539"
    );
}

#[test]
fn it_prints_ascii_strings() {
    assert_eq!(
        json_to_string(&Json::String("This is a string.".to_owned()), 2),
        r#""This is a string.""#
    );
}

#[test]
fn it_prints_non_ascii_strings() {
    assert_eq!(
        json_to_string(&Json::String("ðŸ˜ƒ or ðŸ™?".to_owned()), 2),
        r#""ðŸ˜ƒ or ðŸ™?""#
    );
}

#[test]
fn it_prints_a_string_with_an_escaped_double_quote() {
    assert_eq!(
        json_to_string(&Json::String("double \" quote".to_owned()), 2),
        r#""double \" quote""#
    );
}

#[test]
fn it_prints_a_string_with_an_escaped_backslash() {
    assert_eq!(
        json_to_string(&Json::String("back \\ slash".to_owned()), 2),
        r#""back \\ slash""#
    );
}

#[test]
fn it_prints_a_string_with_a_solidus_without_escaping_it() {
    assert_eq!(
        json_to_string(&Json::String("forward / slash".to_owned()), 2),
        r#""forward / slash""#
    );
}

#[test]
fn it_prints_a_string_with_an_escaped_backspace() {
    assert_eq!(
        json_to_string(&Json::String("back \x08 space".to_owned()), 2),
        r#""back \b space""#
    );
}

#[test]
fn it_prints_a_string_with_an_escaped_formfeed() {
    assert_eq!(
        json_to_string(&Json::String("form \x0C feed".to_owned()), 2),
        r#""form \f feed""#,
    );
}

#[test]
fn it_prints_a_string_with_an_escaped_linefeed() {
    assert_eq!(
        json_to_string(&Json::String("line \n feed".to_owned()), 2),
        r#""line \n feed""#,
    );
}

#[test]
fn it_prints_a_string_with_an_escaped_carriage_return() {
    assert_eq!(
        json_to_string(&Json::String("carriage \r return".to_owned()), 2),
        r#""carriage \r return""#,
    );
}

#[test]
fn it_prints_a_string_with_an_escaped_tab() {
    assert_eq!(
        json_to_string(&Json::String("horizontal \t tab".to_owned()), 2),
        r#""horizontal \t tab""#,
    );
}

#[test]
fn it_prints_a_string_with_an_escaped_control_characters() {
    assert_eq!(
        json_to_string(&Json::String("null \x00 character".to_owned()), 2),
        r#""null \u0000 character""#,
    );
    assert_eq!(
        json_to_string(&Json::String("unit \x1F separator".to_owned()), 2),
        r#""unit \u001F separator""#,
    );
}

#[test]
fn it_prints_an_array_with_one_element_per_line_with_2_space_indent() {
    assert_eq!(
        json_to_string(
            &Json::Array(vec!(Json::Null, Json::Boolean(true), Json::Boolean(false))),
            2
        ),
        "[\n  null,\n  true,\n  false\n]",
    );
}

#[test]
fn it_prints_an_empty_array_on_one_line() {
    assert_eq!(json_to_string(&Json::Array(vec!()), 2), "[]",);
}

#[test]
fn it_prints_an_array_with_one_element_per_line_with_4_space_indent() {
    assert_eq!(
        json_to_string(
            &Json::Array(vec!(Json::Null, Json::Boolean(true), Json::Boolean(false))),
            4
        ),
        "[\n    null,\n    true,\n    false\n]",
    );
}

#[test]
fn it_prints_a_nested_array_with_increasing_levels_of_indentation() {
    assert_eq!(
        json_to_string(
            &Json::Array(vec!(Json::Null, Json::Array(vec!(Json::Array(vec!()))))),
            2
        ),
        "[\n  null,\n  [\n    []\n  ]\n]",
    );
}

#[test]
fn it_prints_an_empty_object_on_one_line() {
    assert_eq!(json_to_string(&object_of(vec![]), 2), "{}",);
}

#[test]
fn it_prints_an_object_with_one_key_per_line_with_2_space_indent() {
    assert_eq!(
        json_to_string(
            &object_of(vec![
                ("key1".to_owned(), Json::String("value1".to_owned())),
                ("key2".to_owned(), Json::String("value2".to_owned()))
            ]),
            2
        ),
        "{\n  \"key1\": \"value1\",\n  \"key2\": \"value2\"\n}",
    );
}

#[test]
fn it_prints_an_object_with_one_key_per_line_with_4_space_indent() {
    assert_eq!(
        json_to_string(
            &object_of(vec![
                ("key1".to_owned(), Json::String("value1".to_owned())),
                ("key2".to_owned(), Json::String("value2".to_owned()))
            ]),
            4
        ),
        "{\n    \"key1\": \"value1\",\n    \"key2\": \"value2\"\n}",
    );
}

#[test]
fn it_prints_a_nested_object_with_increasing_levels_of_indentation() {
    assert_eq!(
        json_to_string(
            &object_of(vec![(
                "deeply".to_owned(),
                object_of(vec![(
                    "nested".to_owned(),
                    object_of(vec![(
                        "object".to_owned(),
                        object_of(vec![])
                    )])
                )])
            )]),
            2
        ),
        "{\n  \"deeply\": {\n    \"nested\": {\n      \"object\": {}\n    }\n  }\n}",
    );
}
