use typed_json::json::{Array, Json, JsonError, Object, Value};

#[test]
fn is_eof() {
    assert!(Json::new("").unwrap().is_eof())
}

#[test]
fn invalid_json_syntax_str() {
    assert!(Json::<Value>::new("\"hej").is_err())
}

#[test]
fn get_plain_int() {
    assert_eq!(1337, Json::new("1337").unwrap().get_i64().unwrap())
}

#[test]
fn get_plain_float() {
    let json: Json<Value> = Json::new("1337.1337").unwrap();
    let lexeme = json.get_float_text().unwrap();
    assert_eq!(1337.1337, lexeme.parse::<f64>().unwrap())
}

#[test]
fn get_plain_string() {
    assert_eq!("hej", Json::new("\"hej\"").unwrap().get_string().unwrap())
}

#[test]
fn get_plain_null() {
    assert!(Json::new("null").unwrap().is_null())
}

#[test]
fn get_plain_bool() {
    assert!(Json::new("true").unwrap().get_bool().unwrap())
}

#[test]
fn json_obj_sub_obj() {
    let json: Json<Object> = Json::new(
        "{
                \"test1\": 123,
                \"sub_obj\" : {
                    \"test2\":\"abc\",
                    \"testarr1\":[{\"a\":1},{\"b\":2},{\"c\":3.3}]
                }
            }",
    )
    .unwrap();
    assert_eq!(Ok(123), json.get_value("test1").unwrap().get_i64());
    let sub_obj = json.get_object("sub_obj").unwrap();
    assert_eq!(
        Ok(&String::from("abc")),
        sub_obj.get_value("test2").unwrap().get_string()
    );
    let sub_obj_arr = sub_obj.get_array("testarr1").unwrap();
    assert_eq!(
        Ok(1),
        sub_obj_arr
            .get_object(0)
            .unwrap()
            .get_value("a")
            .unwrap()
            .get_i64()
    );
    assert_eq!(
        Ok(2),
        sub_obj_arr
            .get_object(1)
            .unwrap()
            .get_value("b")
            .unwrap()
            .get_i64()
    );
    assert_eq!(
        3.3,
        sub_obj_arr
            .get_object(2)
            .unwrap()
            .get_value("c")
            .unwrap()
            .get_float_text()
            .unwrap()
            .parse::<f64>()
            .unwrap()
    );
}

#[test]
fn json_get_everything_test() {
    let json: Json<Object> = Json::new(
        "\
    {\
        \"string1\" : \"string1\",\
        \"string2\" : \"\",\
        \"null\" : null,\
        \"integer\":1337,\
        \"float\":1337.0,\
        \"true\": true,\
        \"false\": false,\
        \"arr1\" :[],\
        \"arr2\" :[null, \"hej\", 1337, true, false],\
        \"arr3\":[null, \"hej\", 1337, true, false, [null, \"hej\", 1337, true, false]]\
    }",
    )
    .unwrap();
    let arr1 = json.get_array("arr1").unwrap();
    let arr2 = json.get_array("arr2").unwrap();
    let arr3 = json.get_array("arr3").unwrap();
    let arr3_arr = arr3.get_array(5).unwrap();
    assert_eq!(
        Ok(&String::from("string1")),
        json.get_value("string1").unwrap().get_string()
    );
    assert_eq!(
        Ok(&String::from("")),
        json.get_value("string2").unwrap().get_string()
    );
    assert!(json.get_value("null").unwrap().is_null());
    assert_eq!(Ok(1337), json.get_value("integer").unwrap().get_i64());
    assert_eq!(
        1337.0,
        json.get_value("float")
            .unwrap()
            .get_float_text()
            .unwrap()
            .parse::<f64>()
            .unwrap()
    );
    assert_eq!(Ok(true), json.get_value("true").unwrap().get_bool());
    assert_eq!(Ok(false), json.get_value("false").unwrap().get_bool());
    assert!(arr1.is_empty() == Ok(true));
    assert!(arr2.get_value(0).unwrap().is_null());
    assert_eq!(
        Ok(&String::from("hej")),
        arr2.get_value(1).unwrap().get_string()
    );
    assert_eq!(Ok(1337), arr2.get_value(2).unwrap().get_i64());
    assert_eq!(Ok(true), arr2.get_value(3).unwrap().get_bool());
    assert_eq!(Ok(false), arr2.get_value(4).unwrap().get_bool());
    assert!(arr3.get_value(0).unwrap().is_null());
    assert_eq!(
        Ok(&String::from("hej")),
        arr3.get_value(1).unwrap().get_string()
    );
    assert_eq!(Ok(1337), arr3.get_value(2).unwrap().get_i64());
    assert_eq!(Ok(true), arr3.get_value(3).unwrap().get_bool());
    assert_eq!(Ok(false), arr3.get_value(4).unwrap().get_bool());
    assert!(arr3_arr.get_value(0).unwrap().is_null());
    assert_eq!(
        Ok(&String::from("hej")),
        arr3_arr.get_value(1).unwrap().get_string()
    );
    assert_eq!(Ok(1337), arr3_arr.get_value(2).unwrap().get_i64());
    assert_eq!(Ok(true), arr3_arr.get_value(3).unwrap().get_bool());
    assert_eq!(Ok(false), arr3_arr.get_value(4).unwrap().get_bool());
}

#[test]
fn scenario_null_value() {
    let json: Json<Value> = Json::new("null").unwrap();
    assert!(json.is_null());
}

#[test]
fn scenario_object_navigation() {
    let json: Json<Object> = Json::new("{\"a\":1,\"b\":[true,false,null]}").unwrap();
    assert_eq!(Ok(1), json.get_value("a").unwrap().get_i64());
    let b = json.get_array("b").unwrap();
    assert_eq!(Ok(3), b.len());
    assert_eq!(Ok(false), b.is_empty());
    assert_eq!(Ok(true), b.get_value(0).unwrap().get_bool());
}

#[test]
fn scenario_unterminated_array() {
    match Json::<Array>::new("[") {
        Err(JsonError::InvalidJsonSyntax(_)) => {}
        other => panic!("expected a syntax error, got {:?}", other),
    }
}

#[test]
fn scenario_trailing_close_curly() {
    match Json::<Value>::new("0}") {
        Err(JsonError::InvalidJsonSyntax(msg)) => {
            assert!(msg.starts_with("Invalid Json Syntax `}`"));
        }
        other => panic!("expected a syntax error, got {:?}", other),
    }
}

#[test]
fn scenario_escaped_quote() {
    let json: Json<Value> = Json::new("\"a\\\"b\"").unwrap();
    assert_eq!(Ok(&String::from("a\"b")), json.get_string());
}

#[test]
fn scenario_empty_input() {
    let json: Json<Value> = Json::new("").unwrap();
    assert!(json.is_eof());
    assert!(!json.is_null());
}

#[test]
fn scenario_get_bool_on_integer() {
    let json: Json<Value> = Json::new("3").unwrap();
    assert_eq!(Err(JsonError::IncorrectType), json.get_bool());
}

#[test]
fn new_rejects_mismatched_shape() {
    assert_eq!(
        Err(JsonError::IncorrectType),
        Json::<Object>::new("[1,2]").map(|_| ())
    );
    assert_eq!(
        Err(JsonError::IncorrectType),
        Json::<Array>::new("{\"a\":1}").map(|_| ())
    );
    assert_eq!(
        Err(JsonError::IncorrectType),
        Json::<Value>::new("[1]").map(|_| ())
    );
    assert!(Json::<Object>::new("{\"a\":1}").is_ok());
    assert!(Json::<Array>::new("[1]").is_ok());
    assert!(Json::<Value>::new("7").is_ok());
}

#[test]
fn key_not_found() {
    let json: Json<Object> = Json::new("{\"a\":1}").unwrap();
    assert_eq!(
        Err(JsonError::KeyNotFound),
        json.get_value("b").map(|_| ())
    );
    assert_eq!(
        Err(JsonError::KeyNotFound),
        json.get_object("b").map(|_| ())
    );
    assert_eq!(
        Err(JsonError::KeyNotFound),
        json.get_array("b").map(|_| ())
    );
}

#[test]
fn index_not_found() {
    let json: Json<Array> = Json::new("[1]").unwrap();
    assert_eq!(
        Err(JsonError::IndexNotFound),
        json.get_value(1).map(|_| ())
    );
    assert_eq!(
        Err(JsonError::IndexNotFound),
        json.get_object(5).map(|_| ())
    );
    assert_eq!(
        Err(JsonError::IndexNotFound),
        json.get_array(5).map(|_| ())
    );
}

#[test]
fn incorrect_type_on_lookup() {
    let json: Json<Object> = Json::new("{\"a\":1,\"o\":{},\"l\":[]}").unwrap();
    assert_eq!(
        Err(JsonError::IncorrectType),
        json.get_object("a").map(|_| ())
    );
    assert_eq!(
        Err(JsonError::IncorrectType),
        json.get_array("a").map(|_| ())
    );
    assert_eq!(
        Err(JsonError::IncorrectType),
        json.get_value("o").map(|_| ())
    );
    assert!(json.get_object("o").is_ok());
    assert!(json.get_array("l").is_ok());
}

#[test]
fn accessor_errors_keep_the_handle_usable() {
    let json: Json<Object> = Json::new("{\"a\":1}").unwrap();
    assert!(json.get_object("a").is_err());
    assert_eq!(Ok(1), json.get_value("a").unwrap().get_i64());
}
