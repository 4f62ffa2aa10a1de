use typed_json::json::{Json, Object, Value};
use typed_json::numbers::{i64_to_digits, parse_i64};
use typed_json::parser::{parse_json, JsonData};

fn obj(entries: Vec<(&str, JsonData)>) -> JsonData {
    JsonData::Object(
        entries
            .into_iter()
            .map(|(k, v)| (k.to_string(), v))
            .collect(),
    )
}

#[test]
fn render_parse_round_trip_nested() {
    let doc = obj(vec![
        ("name", JsonData::Str(String::from("deep"))),
        ("flag", JsonData::Bool(false)),
        ("nothing", JsonData::Null),
        ("count", JsonData::Integer(9000)),
        ("ratio", JsonData::Float(String::from("0.125"))),
        (
            "inner",
            obj(vec![(
                "list",
                JsonData::Array(vec![
                    JsonData::Integer(-1),
                    obj(vec![("x", JsonData::Integer(0))]),
                ]),
            )]),
        ),
    ]);
    let text = doc.to_text();
    assert_eq!(doc, parse_json(&text).unwrap());
}

#[test]
fn render_twice_is_identical() {
    let doc = JsonData::Array(vec![
        obj(vec![("k", JsonData::Str(String::from("v")))]),
        JsonData::Integer(5),
    ]);
    assert_eq!(doc.to_text(), doc.to_text());
}

#[test]
fn render_of_handles() {
    let json: Json<Object> = Json::new("{ \"a\" :  1 }").unwrap();
    let text = json.to_text();
    let back: Json<Object> = Json::new(&text).unwrap();
    assert_eq!(Ok(1), back.get_value("a").unwrap().get_i64());
}

#[test]
fn render_empty_collections() {
    assert_eq!("[]", JsonData::Array(vec![]).to_text());
    assert_eq!("{}", obj(vec![]).to_text());
    assert_eq!("", JsonData::Eof.to_text());
    assert_eq!("null", JsonData::Null.to_text());
    assert_eq!("\"s\"", JsonData::Str(String::from("s")).to_text());
    assert_eq!("[1, 2]", JsonData::Array(vec![
        JsonData::Integer(1),
        JsonData::Integer(2),
    ]).to_text());
    assert_eq!(
        "{\n\"a\" : 1,\n\"b\" : 2\n}",
        obj(vec![("a", JsonData::Integer(1)), ("b", JsonData::Integer(2))]).to_text()
    );
}

#[test]
fn tokenizer_totality_on_garbage() {
    // every input, however broken, yields a finite stream ending in one Eof
    for s in ["@@##", "\"open", "-", "...", "nul true", "  \t\n "] {
        let mut lexer = typed_json::lexer::Lexer::new(s);
        let mut eof_count = 0;
        let mut steps = 0;
        while let Some(token) = lexer.next() {
            steps += 1;
            assert!(steps <= s.len() + 1);
            if token.kind == typed_json::lexer::TokenKind::Eof {
                eof_count += 1;
            }
        }
        assert_eq!(1, eof_count);
    }
}

#[test]
fn parse_i64_exact_values() {
    assert_eq!(Some(0), parse_i64("0"));
    assert_eq!(Some(12), parse_i64("0012"));
    assert_eq!(Some(-450), parse_i64("-450"));
    assert_eq!(Some(i64::MAX), parse_i64("9223372036854775807"));
    assert_eq!(Some(i64::MIN), parse_i64("-9223372036854775808"));
    assert_eq!(None, parse_i64("9223372036854775808"));
    assert_eq!(None, parse_i64("-9223372036854775809"));
    assert_eq!(None, parse_i64(""));
    assert_eq!(None, parse_i64("-"));
    assert_eq!(None, parse_i64("12a"));
    assert_eq!(None, parse_i64("1.5"));
}

#[test]
fn i64_to_digits_exact_values() {
    let show = |i: i64| -> String { i64_to_digits(i).into_iter().collect() };
    assert_eq!("0", show(0));
    assert_eq!("7", show(7));
    assert_eq!("-1", show(-1));
    assert_eq!("9223372036854775807", show(i64::MAX));
    assert_eq!("-9223372036854775808", show(i64::MIN));
}

#[test]
fn integer_round_trip_through_text() {
    for i in [0i64, 1, -1, 42, -9000, i64::MAX, i64::MIN] {
        let doc = JsonData::Integer(i);
        let text = doc.to_text();
        assert_eq!(Ok(JsonData::Integer(i)), parse_json(&text));
    }
}

#[test]
fn float_lexeme_round_trip_through_text() {
    for t in ["0.0", "3.25", "-12.5", "1337.1337"] {
        let doc = JsonData::Float(String::from(t));
        let text = doc.to_text();
        assert_eq!(Ok(JsonData::Float(String::from(t))), parse_json(&text));
        // the lexeme converts to the nearest representable 64-bit float
        let expected: f64 = t.parse().unwrap();
        let json: Json<Value> = Json::new(&text).unwrap();
        assert_eq!(
            expected,
            json.get_float_text().unwrap().parse::<f64>().unwrap()
        );
    }
}
