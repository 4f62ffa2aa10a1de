use typed_json::parser::{parse_json, remove_surrounding_quotes, JsonData};

fn obj(entries: Vec<(&str, JsonData)>) -> JsonData {
    JsonData::Object(
        entries
            .into_iter()
            .map(|(k, v)| (k.to_string(), v))
            .collect(),
    )
}

#[test]
fn parser_random_input_test() {
    // representative inputs of each top-level class
    assert_eq!(Ok(JsonData::Eof), parse_json("   "));
    assert_eq!(
        Ok(JsonData::Str(String::from("plain text"))),
        parse_json(" \"plain text\" ")
    );
    assert_eq!(Ok(JsonData::Integer(-37)), parse_json(" -37 "));
    assert_eq!(
        Ok(JsonData::Float(String::from("2.25"))),
        parse_json(" 2.25 ")
    );
    assert_eq!(Ok(obj(vec![])), parse_json("{}"));
    assert!(parse_json("+5").is_err());
    assert!(parse_json(".5").is_err());
    assert!(parse_json("5.").is_err());
    assert!(parse_json("hello").is_err());
}

#[test]
fn valid_random_str() {
    let s = " \"random words without escapes\" ";
    let json = parse_json(s);
    let s = s.trim();
    assert_eq!(Ok(JsonData::Str(remove_surrounding_quotes(s))), json);
}

#[test]
fn valid_random_json() {
    // a document rendered and parsed back is reconstructed exactly
    let doc = JsonData::Array(vec![
        JsonData::Null,
        JsonData::Bool(true),
        JsonData::Integer(-12),
        JsonData::Float(String::from("3.5")),
        JsonData::Str(String::from("nested")),
        JsonData::Array(vec![JsonData::Integer(1), JsonData::Integer(2)]),
        obj(vec![
            ("a", JsonData::Integer(1)),
            ("b", JsonData::Array(vec![])),
        ]),
    ]);
    let text = doc.to_text();
    let parsed = parse_json(&text).unwrap();
    assert_eq!(doc, parsed);
}

#[test]
fn invalid_object_comma() {
    assert!(parse_json("{,").is_err())
}

#[test]
fn invalid_integer_trailing_closed_curly() {
    assert!(parse_json("0}").is_err());
}

#[test]
fn valid_str_one_escaped_quotation() {
    let s = r#""\"""#;
    let json = parse_json(s);
    assert_eq!(Ok(JsonData::Str(remove_surrounding_quotes(s))), json);
}

#[test]
fn valid_null() {
    let json = parse_json("null");
    assert_eq!(Ok(JsonData::Null), json);
}

#[test]
fn valid_true() {
    let json = parse_json("true");
    assert_eq!(Ok(JsonData::Bool(true)), json);
}

#[test]
fn valid_false() {
    let json = parse_json("false");
    assert_eq!(Ok(JsonData::Bool(false)), json);
}

#[test]
fn valid_eof() {
    let json = parse_json("");
    assert_eq!(Ok(JsonData::Eof), json);
}

#[test]
fn valid_empty_str() {
    let json = parse_json("\"\"");
    assert_eq!(Ok(JsonData::Str(String::from(""))), json);
}

#[test]
fn valid_str() {
    let json = parse_json("\"test1234\"");
    assert_eq!(Ok(JsonData::Str(String::from("test1234"))), json);
}

#[test]
fn valid_integer() {
    let json = parse_json("1000");
    assert_eq!(Ok(JsonData::Integer(1000)), json);
}

#[test]
fn valid_float() {
    let json = parse_json("1000.0");
    assert_eq!(Ok(JsonData::Float(String::from("1000.0"))), json);
}

#[test]
fn valid_empty_array() {
    let json = parse_json("[]");
    assert_eq!(Ok(JsonData::Array(vec![])), json);
}

#[test]
fn valid_array_one_str_elem_array() {
    let json = parse_json("[\"t\"]");
    assert_eq!(Ok(JsonData::Array(vec![JsonData::Str("t".into())])), json);
}

#[test]
fn valid_array_one_integer_elem_array() {
    let json = parse_json("[4]");
    assert_eq!(Ok(JsonData::Array(vec![JsonData::Integer(4)])), json);
}

#[test]
fn valid_array() {
    let json = parse_json("[\"t\", \"e\", \"s\", \"t\", 1, 2, 3, 4]");
    assert_eq!(
        Ok(JsonData::Array(vec![
            JsonData::Str("t".into()),
            JsonData::Str("e".into()),
            JsonData::Str("s".into()),
            JsonData::Str("t".into()),
            JsonData::Integer(1),
            JsonData::Integer(2),
            JsonData::Integer(3),
            JsonData::Integer(4)
        ])),
        json
    );
}

#[test]
fn invalid_object_no_colon() {
    let json = parse_json("{\"hej\"123}");
    assert!(json.is_err())
}

#[test]
fn valid_object_many_kv() {
    let json = parse_json("{\"test_name1\":1,\"test_name2\":2,\"test_name3\":3,\"test_name4\":4}");
    assert_eq!(
        Ok(obj(vec![
            ("test_name1", JsonData::Integer(1)),
            ("test_name2", JsonData::Integer(2)),
            ("test_name3", JsonData::Integer(3)),
            ("test_name4", JsonData::Integer(4)),
        ])),
        json
    );
}

#[test]
fn valid_object_one_kv() {
    let json = parse_json("{\"test_name\":1}");
    assert_eq!(Ok(obj(vec![("test_name", JsonData::Integer(1))])), json);
}

#[test]
fn valid_empty_object() {
    let json = parse_json("{}");
    assert_eq!(Ok(obj(vec![])), json);
}

#[test]
fn parse_array_with_array_in_array() {
    let json = parse_json(
        "[null, \"hej\", 1337, 1337.0, true, false, [null, \"hej\", 1337, true, false]]",
    );
    assert_eq!(
        Ok(JsonData::Array(vec![
            JsonData::Null,
            JsonData::Str(String::from("hej")),
            JsonData::Integer(1337),
            JsonData::Float(String::from("1337.0")),
            JsonData::Bool(true),
            JsonData::Bool(false),
            JsonData::Array(vec![
                JsonData::Null,
                JsonData::Str(String::from("hej")),
                JsonData::Integer(1337),
                JsonData::Bool(true),
                JsonData::Bool(false),
            ])
        ])),
        json
    );
}

#[test]
fn parser_parse_object_with_a_json_value_in_str() {
    assert_eq!(
        Ok(obj(vec![("s1", JsonData::Str(String::from("s1val")))])),
        parse_json("{\"s1\":\"s1val\"}")
    );
}

#[test]
fn parser_parse_object_with_all_types_except_with_object() {
    let json = parse_json(
        "\
    {\
        \"string1\" : \"string1\",\
        \"string2\" : \"\",\
        \"null\" : null,\
        \"integer\":1337,\
        \"float\":1337.0,\
        \"true\": true,\
        \"false\": false,\
        \"arr1\" :[],\
        \"arr2\" :[null, \"hej\", 1337, true, false],\
        \"arr3\":[null, \"hej\", 1337, true, false, [null, \"hej\", 1337, true, false]]\
    }",
    );
    assert_eq!(
        Ok(obj(vec![
            ("string1", JsonData::Str(String::from("string1"))),
            ("string2", JsonData::Str(String::from(""))),
            ("null", JsonData::Null),
            ("integer", JsonData::Integer(1337)),
            ("float", JsonData::Float(String::from("1337.0"))),
            ("true", JsonData::Bool(true)),
            ("false", JsonData::Bool(false)),
            ("arr1", JsonData::Array(vec![])),
            (
                "arr2",
                JsonData::Array(vec![
                    JsonData::Null,
                    JsonData::Str(String::from("hej")),
                    JsonData::Integer(1337),
                    JsonData::Bool(true),
                    JsonData::Bool(false),
                ])
            ),
            (
                "arr3",
                JsonData::Array(vec![
                    JsonData::Null,
                    JsonData::Str(String::from("hej")),
                    JsonData::Integer(1337),
                    JsonData::Bool(true),
                    JsonData::Bool(false),
                    JsonData::Array(vec![
                        JsonData::Null,
                        JsonData::Str(String::from("hej")),
                        JsonData::Integer(1337),
                        JsonData::Bool(true),
                        JsonData::Bool(false),
                    ]),
                ])
            ),
        ])),
        json
    );
}

#[test]
fn duplicate_keys_overwrite_in_place() {
    let json = parse_json("{\"a\":1,\"b\":2,\"a\":3}");
    assert_eq!(
        Ok(obj(vec![
            ("a", JsonData::Integer(3)),
            ("b", JsonData::Integer(2)),
        ])),
        json
    );
}

#[test]
fn unterminated_array_is_an_error() {
    assert!(parse_json("[").is_err());
    assert!(parse_json("[1").is_err());
    assert!(parse_json("[1,").is_err());
}

#[test]
fn unterminated_object_is_an_error() {
    assert!(parse_json("{").is_err());
    assert!(parse_json("{\"a\"").is_err());
    assert!(parse_json("{\"a\":1").is_err());
}

#[test]
fn integer_overflow_is_a_syntax_error() {
    assert_eq!(
        Ok(JsonData::Integer(9223372036854775807)),
        parse_json("9223372036854775807")
    );
    assert_eq!(
        Ok(JsonData::Integer(-9223372036854775808)),
        parse_json("-9223372036854775808")
    );
    assert!(parse_json("9223372036854775808").is_err());
    assert!(parse_json("-9223372036854775809").is_err());
}

#[test]
fn leading_zeros_parse_as_integer() {
    assert_eq!(Ok(JsonData::Integer(12)), parse_json("0012"));
}

#[test]
fn lenient_commas_in_arrays() {
    // commas in arrays are separators only: empty positions are skipped
    assert_eq!(Ok(JsonData::Array(vec![])), parse_json("[,]"));
    assert_eq!(
        Ok(JsonData::Array(vec![
            JsonData::Integer(1),
            JsonData::Integer(2)
        ])),
        parse_json("[1,,2]")
    );
}

#[test]
fn error_message_format() {
    let err = parse_json("0}").unwrap_err();
    assert_eq!(
        "Invalid Json Syntax `}` at 1:3\n                     ^",
        err.to_message()
    );
}

#[test]
fn error_message_unexpected_eof() {
    let err = parse_json("[").unwrap_err();
    assert_eq!("Unexpected end of file", err.to_message());
}

#[test]
fn colon_with_no_key_uses_empty_pending_key() {
    // a colon is legal whenever a key is expected; with no key scanned yet
    // the pending key is still the initial empty string
    let json = parse_json("{:1}");
    assert_eq!(Ok(obj(vec![("", JsonData::Integer(1))])), json);
}

#[test]
fn trailing_key_without_value_is_dropped() {
    // a key scanned just before the closing brace never gets a value
    let json = parse_json("{\"a\":1,\"b\"}");
    assert_eq!(Ok(obj(vec![("a", JsonData::Integer(1))])), json);
}
