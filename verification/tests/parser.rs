use json_tree::ast::Json;
use json_tree::parser::{parse, JsonParseError};

/// The number that the library holds for a double: its shortest decimal
/// literal.
fn number(value: f64) -> Json {
    Json::Number(format!("{value}"))
}

/// The double that a parsed number stands for.
fn double_of(parsed: Result<Json, JsonParseError>) -> f64 {
    match parsed {
        Ok(Json::Number(literal)) => match literal.parse::<f64>() {
            Ok(value) => value,
            Err(_) => panic!("no double for {literal}"),
        },
        other => panic!("no number: {other:?}"),
    }
}

/// The object with the given members: each key bound to its value, in turn.
fn object_of(members: Vec<(String, Json)>) -> Json {
    let mut object = Json::object();
    for (key, value) in members {
        object = object.set(key.as_str(), value);
    }
    object
}

#[test]
fn it_parses_null() {
    assert_eq!(parse("null"), Ok(Json::Null));
}

#[test]
fn it_parses_true() {
    assert_eq!(parse("true"), Ok(Json::Boolean(true)));
}

#[test]
fn it_parses_false() {
    assert_eq!(parse("false"), Ok(Json::Boolean(false)));
}

#[test]
fn it_rejects_typos() {
    assert!(parse("nul").is_err());
    assert!(parse("folse").is_err());
    assert!(parse("flase").is_err());
    assert!(parse("truee").is_err());
    assert!(parse("rue").is_err());
}

#[test]
fn it_parses_an_integer() {
    assert_eq!(parse("123"), Ok(number(123.0)));
}

#[test]
fn it_parses_a_decimal() {
    assert_eq!(parse("120.056"), Ok(number(120.056)));
}

#[test]
fn it_parses_zero() {
    assert_eq!(parse("0"), Ok(number(0.0)));
}

#[test]
fn it_parses_negative_numbers() {
    assert_eq!(parse("-123"), Ok(number(-123.0)));
}

#[test]
fn it_parses_numbers_with_exponents() {
    assert_eq!(double_of(parse("10e23")), 10.0e23);
    assert_eq!(double_of(parse("10E23")), 10.0e23);
    assert_eq!(double_of(parse("10e+23")), 10.0e23);
    assert_eq!(double_of(parse("10e-23")), 10.0e-23);
}

#[test]
fn it_rejects_invalid_numbers() {
    assert!(parse(".34").is_err());
    assert!(parse("145.65.2").is_err());
    assert!(parse("+23").is_err());
    assert!(parse("--23").is_err());
    assert!(parse("-hello").is_err());
    assert!(parse("00").is_err());
    assert!(parse("67.").is_err());
}

#[test]
fn it_parses_inputs_with_leading_whitespace() {
    assert_eq!(parse("   null"), Ok(Json::Null));
    assert_eq!(parse("\tnull"), Ok(Json::Null));
    assert_eq!(parse("\nnull"), Ok(Json::Null));
    assert_eq!(parse("\rnull"), Ok(Json::Null));
}

#[test]
fn it_parses_inputs_with_trailing_whitespace() {
    assert_eq!(parse("null   "), Ok(Json::Null));
    assert_eq!(parse("null\t"), Ok(Json::Null));
    assert_eq!(parse("null\n"), Ok(Json::Null));
    assert_eq!(parse("null\r"), Ok(Json::Null));
}

#[test]
fn it_parses_an_empty_string() {
    assert_eq!(parse(r#""""#), Ok(Json::String("".to_owned())));
}

#[test]
fn it_parses_a_regular_ascii_string() {
    assert_eq!(
        parse(r#""this is a string.""#),
        Ok(Json::String("this is a string.".to_owned()))
    );
}

#[test]
fn it_parses_a_unicode_string() {
    assert_eq!(
        parse(r#""ğŸ˜ƒ or ğŸ™?""#),
        Ok(Json::String("ğŸ˜ƒ or ğŸ™?".to_owned()))
    );
}

#[test]
fn it_parses_a_string_with_an_escaped_double_quote() {
    assert_eq!(
        parse(r#""double \" quote""#),
        Ok(Json::String("double \" quote".to_owned()))
    );
}

#[test]
fn it_parses_a_string_with_an_escaped_backslash() {
    assert_eq!(
        parse(r#""back \\ slash""#),
        Ok(Json::String("back \\ slash".to_owned()))
    );
}

#[test]
fn it_parses_a_string_with_an_escaped_solidus() {
    assert_eq!(
        parse(r#""forward \/ slash""#),
        Ok(Json::String("forward / slash".to_owned()))
    );
}

#[test]
fn it_parses_a_string_with_an_escaped_backspace() {
    assert_eq!(
        parse(r#""back \b space""#),
        Ok(Json::String("back \x08 space".to_owned()))
    );
}

#[test]
fn it_parses_a_string_with_an_escaped_formfeed() {
    assert_eq!(
        parse(r#""form \f feed""#),
        Ok(Json::String("form \x0C feed".to_owned()))
    );
}

#[test]
fn it_parses_a_string_with_an_escaped_linefeed() {
    assert_eq!(
        parse(r#""line \n feed""#),
        Ok(Json::String("line \n feed".to_owned()))
    );
}

#[test]
fn it_parses_a_string_with_an_escaped_carriage_return() {
    assert_eq!(
        parse(r#""carriage \r return""#),
        Ok(Json::String("carriage \r return".to_owned()))
    );
}

#[test]
fn it_parses_a_string_with_an_escaped_tab() {
    assert_eq!(
        parse(r#""horizontal \t tab""#),
        Ok(Json::String("horizontal \t tab".to_owned()))
    );
}

#[test]
fn it_parses_a_string_with_a_unicode_escape_sequence() {
    assert_eq!(
        parse(r#""unicode \u0041 literal""#),
        Ok(Json::String("unicode A literal".to_owned()))
    );
}

#[test]
fn it_parses_a_string_with_contiguous_non_surrogate_unicode_escape_sequences() {
    assert_eq!(
        parse(r#""\u0021\u003D""#),
        Ok(Json::String("!=".to_owned()))
    );
}

#[test]
fn it_parses_a_string_with_an_escaped_unicode_surrogate_pair() {
    assert_eq!(
        parse(r#""\uD83D\uDE02""#),
        Ok(Json::String("😂".to_owned()))
    );
}

#[test]
fn it_rejects_invalid_string_escape_sequences() {
    assert!(parse(r#""\""#).is_err());
    assert!(parse(r#""\d""#).is_err());
    assert!(parse(r#""\0""#).is_err());
    assert!(parse(r#""\ n""#).is_err());
    assert!(parse(r#""\u001""#).is_err());
    assert!(parse(r#""\u ""#).is_err());
}

#[test]
fn it_parses_an_empty_array() {
    assert_eq!(parse("[]"), Ok(Json::Array(vec!())));
    assert_eq!(parse(" [  ] "), Ok(Json::Array(vec!())));
}

#[test]
fn it_parses_an_array_with_one_item() {
    assert_eq!(parse("[123]"), Ok(Json::Array(vec!(number(123.0)))));
}

#[test]
fn it_parses_an_array_with_multiple_items() {
    assert_eq!(
        parse("[null,true,false]"),
        Ok(Json::Array(vec!(
            Json::Null,
            Json::Boolean(true),
            Json::Boolean(false)
        )))
    );
}

#[test]
fn it_parses_an_array_with_multiple_items_surrounded_by_whitespace() {
    assert_eq!(
        parse(" [ 1 ,\t2 ,\n3\r]  \n"),
        Ok(Json::Array(vec!(
            number(1.0),
            number(2.0),
            number(3.0)
        )))
    );
}

#[test]
fn it_parses_a_nested_array() {
    assert_eq!(
        parse("[[], [[], [null]]]"),
        Ok(Json::Array(vec!(
            Json::Array(vec!()),
            Json::Array(vec!(Json::Array(vec!()), Json::Array(vec!(Json::Null))))
        )))
    );
}

#[test]
fn it_rejects_an_invalid_array() {
    assert!(parse("[").is_err());
    assert!(parse("[]]").is_err());
    assert!(parse("[,null]").is_err());
    assert!(parse("[true,]").is_err());
    assert!(parse(",[]").is_err());
}

#[test]
fn it_parses_an_empty_object() {
    assert_eq!(parse("{}"), Ok(object_of(vec![])));
    assert_eq!(parse("\n{ } "), Ok(object_of(vec![])));
}

#[test]
fn it_parses_an_object_with_a_single_property() {
    assert_eq!(
        parse(r#"{"key":"value"}"#),
        Ok(object_of(vec![(
            "key".to_owned(),
            Json::String("value".to_owned())
        )]))
    );
    assert_eq!(
        parse(" { \"key\"\t:\n\"value\"   }\n"),
        Ok(object_of(vec![(
            "key".to_owned(),
            Json::String("value".to_owned())
        )]))
    );
    assert_eq!(
        parse(r#"{"the count": 123}"#),
        Ok(object_of(vec![(
            "the count".to_owned(),
            number(123.0)
        )]))
    );
}

#[test]
fn it_parses_an_object_with_multiple_properties() {
    assert_eq!(
        parse(r#"{"name": "Andrew", "age": 63}"#),
        Ok(object_of(vec![
            ("name".to_owned(), Json::String("Andrew".to_owned())),
            ("age".to_owned(), number(63.0))
        ]))
    );
    assert_eq!(
        parse(r#"{ "prop": null ,"ğŸ˜ƒ" : true, " 123\n " :false }"#),
        Ok(object_of(vec![
            ("prop".to_owned(), Json::Null),
            ("ğŸ˜ƒ".to_owned(), Json::Boolean(true)),
            (" 123\n ".to_owned(), Json::Boolean(false))
        ]))
    );
}

#[test]
fn it_parses_a_nested_object() {
    assert_eq!(
        parse(r#"{"middle": {"inner": {}}}"#),
        Ok(object_of(vec![(
            "middle".to_owned(),
            object_of(vec![(
                "inner".to_owned(),
                object_of(vec![])
            )])
        ),]))
    );
}

#[test]
fn it_rejects_an_invalid_object() {
    assert!(parse("{").is_err());
    assert!(parse("{}}").is_err());
    assert!(parse("{unquoted: true}").is_err());
    assert!(parse(r#"{trailing: "comma",}"#).is_err());
    assert!(parse(r#"{"no value"}"#).is_err());
    assert!(parse(r#"{"missing": "comma" "between": "properties"}"#).is_err());
}
