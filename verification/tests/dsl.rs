use json_tree::ast::Json;
use json_tree::dsl::ToJson;

/// The number that the library holds for a double: its shortest decimal
/// literal.
fn number(value: f64) -> Json {
    Json::Number(format!("{value}"))
}

/// The object with the given members: each key bound to its value, in turn.
fn object_of(members: Vec<(String, Json)>) -> Json {
    let mut object = Json::object();
    for (key, value) in members {
        object = object.set(key.as_str(), value);
    }
    object
}

#[test]
fn a_bool_is_converted_to_a_json_boolean() {
    assert_eq!(true.to_json(), Json::Boolean(true));
    assert_eq!(false.to_json(), Json::Boolean(false));
}

#[test]
fn a_string_is_converted_to_a_json_string() {
    assert_eq!(
        "hello world!".to_owned().to_json(),
        Json::String("hello world!".to_owned())
    );
}

#[test]
fn a_str_is_converted_to_a_json_string() {
    assert_eq!(
        "hello world!".to_json(),
        Json::String("hello world!".to_owned())
    );
}

#[test]
fn an_i32_is_converted_to_a_json_number() {
    assert_eq!((123 as i32).to_json(), number(123.0));
}

#[test]
fn an_array_is_converted_to_a_json_array() {
    assert_eq!(
        [1, 2, 3].to_json(),
        Json::Array(vec!(
            number(1.0),
            number(2.0),
            number(3.0)
        ))
    );
}

#[test]
fn a_vec_is_converted_to_a_json_array() {
    assert_eq!(
        vec!(1, 2, 3).to_json(),
        Json::Array(vec!(
            number(1.0),
            number(2.0),
            number(3.0)
        ))
    );
}

#[test]
fn an_option_which_is_none_is_converted_to_a_json_null() {
    assert_eq!(None::<i32>.to_json(), Json::Null);
}

#[test]
fn an_option_which_is_some_is_converted_to_the_inner_types_json() {
    assert_eq!(Some(true).to_json(), Json::Boolean(true));
    assert_eq!(Some(123).to_json(), number(123.0));
}

#[test]
fn an_array_of_key_value_pairs_is_converted_to_a_json_object() {
    assert_eq!(
        [("foo", 12), ("bar", 34),].to_json(),
        object_of(vec![
            ("foo".to_owned(), number(12.0)),
            ("bar".to_owned(), number(34.0))
        ])
    );
}
