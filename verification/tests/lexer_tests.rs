use typed_json::lexer::{Lexer, Token, TokenKind};

fn test_token_eq(token: &Token, expected_kind: TokenKind, expected_text: &str) {
    assert_eq!(expected_kind, token.kind, "\n{:?}\n", token);
    assert_eq!(expected_text, token.text.as_str(), "\n{:?}\n", token);
}

fn test_invalid(token: &Token) {
    assert_eq!(TokenKind::Invalid, token.kind, "\n{:?}\n", token);
}

fn test_eof(token: &Token) {
    test_token_eq(token, TokenKind::Eof, "");
}

#[test]
fn random_input_test() {
    // a mixed input: every token before the first invalid one is well formed
    let s = " {\"key\": [1, 2.5, -3], \"other\": \"x\"} \n";
    let lexer_tokens = {
        let mut lexer = Lexer::new(s);
        let mut v = Vec::new();
        while let Some(token) = lexer.next() {
            if token.kind == TokenKind::Invalid {
                break;
            }
            v.push(token);
        }
        v
    };
    for token in &lexer_tokens {
        match token.kind {
            TokenKind::Str => continue,
            TokenKind::Integer => {
                assert!(token.text.parse::<isize>().is_ok(), "\n{:?}\n", token);
            }
            TokenKind::Float => {
                assert!(token.text.parse::<f64>().is_ok(), "\n{:?}\n", token);
            }
            TokenKind::Eof => assert_eq!("", token.text.as_str(), "\n{:?}\n", token),
            TokenKind::OpenCurly => assert_eq!("{", token.text.as_str(), "\n{:?}\n", token),
            TokenKind::CloseCurly => assert_eq!("}", token.text.as_str(), "\n{:?}\n", token),
            TokenKind::OpenBracket => assert_eq!("[", token.text.as_str(), "\n{:?}\n", token),
            TokenKind::CloseBracket => assert_eq!("]", token.text.as_str(), "\n{:?}\n", token),
            TokenKind::Comma => assert_eq!(",", token.text.as_str(), "\n{:?}\n", token),
            TokenKind::Colon => assert_eq!(":", token.text.as_str(), "\n{:?}\n", token),
            _ => panic!(),
        }
    }
}

#[test]
fn invalid_string_only_open() {
    let s = "  \" ";
    let mut lexer = Lexer::new(s);
    let token = lexer.next().unwrap();
    test_invalid(&token);
    assert!(token.text.get(..1) == Some("\""), "\n{:?}\n", token);
}

#[test]
fn valid_string_with_random_unicode_whitespaces() {
    let s = " \t\"\t \"  ";
    let mut lexer = Lexer::new(s);
    test_token_eq(&lexer.next().unwrap(), TokenKind::Str, s.trim());
    test_eof(&lexer.next().unwrap());
}

#[test]
fn valid_string_with_random_unicode_chars() {
    let s = "  \"w0rd_s\" ";
    let mut lexer = Lexer::new(s);
    test_token_eq(&lexer.next().unwrap(), TokenKind::Str, s.trim());
    test_eof(&lexer.next().unwrap());
}

#[test]
fn valid_string_with_random_digits() {
    let s = " \"0123456789\"  ";
    let mut lexer = Lexer::new(s);
    test_token_eq(&lexer.next().unwrap(), TokenKind::Str, s.trim());
    test_eof(&lexer.next().unwrap());
}

#[test]
fn valid_string_with_random_unicode_digits() {
    let s = "\t\"42\"\n";
    let mut lexer = Lexer::new(s);
    test_token_eq(&lexer.next().unwrap(), TokenKind::Str, s.trim());
    test_eof(&lexer.next().unwrap());
}

#[test]
fn valid_string_with_random_keywords() {
    for body in ["null", "true", "false"] {
        let s = format!(" \"{}\" ", body);
        let mut lexer = Lexer::new(&s);
        test_token_eq(&lexer.next().unwrap(), TokenKind::Str, s.trim());
        test_eof(&lexer.next().unwrap());
    }
}

#[test]
fn valid_string_with_random_unicode_text_without_backslash_or_quotation_mark() {
    let s = "  \"text with spaces, [brackets] and {braces}: fine\"\t";
    let mut lexer = Lexer::new(s);
    test_token_eq(&lexer.next().unwrap(), TokenKind::Str, s.trim());
    test_eof(&lexer.next().unwrap());
}

#[test]
fn valid_string_with_backslash_and_quotation_mark() {
    // bodies built only from the two recognised escapes
    let s = " \"\\\\\\\"\\\\\" ";
    let mut lexer = Lexer::new(s);
    test_token_eq(&lexer.next().unwrap(), TokenKind::Str, s.trim());
    test_eof(&lexer.next().unwrap());
}

#[test]
fn only_minus_sign() {
    let s = " - ";
    let mut lexer = Lexer::new(s);
    test_token_eq(&lexer.next().unwrap(), TokenKind::Invalid, "-");
}

#[test]
fn only_punctuation() {
    let s = " . ";
    let mut lexer = Lexer::new(s);
    test_token_eq(&lexer.next().unwrap(), TokenKind::Invalid, ".");
}

#[test]
fn punctuation_with_number_after() {
    let s = " .12345 ";
    let mut lexer = Lexer::new(s);
    test_invalid(&lexer.next().unwrap());
}

#[test]
fn punctuation_with_number_before() {
    let s = " 12345. ";
    let mut lexer = Lexer::new(s);
    test_invalid(&lexer.next().unwrap());
}

#[test]
fn valid_positive_integer() {
    let s = " 4294967295 ";
    let mut lexer = Lexer::new(s);
    test_token_eq(&lexer.next().unwrap(), TokenKind::Integer, s.trim());
    test_eof(&lexer.next().unwrap());
}

#[test]
fn valid_negative_integer() {
    let s = " -2147483648 ";
    let mut lexer = Lexer::new(s);
    let token = lexer.next().unwrap();
    test_token_eq(&token, TokenKind::Integer, s.trim());
    assert_eq!("-", token.text.get(..1).unwrap(), "\n{:?}\n", token);
    test_eof(&lexer.next().unwrap());
}

#[test]
fn valid_positive_float() {
    let s = " 331.75 ";
    let mut lexer = Lexer::new(s);
    test_token_eq(&lexer.next().unwrap(), TokenKind::Float, s.trim());
    test_eof(&lexer.next().unwrap());
}

#[test]
fn valid_negative_float() {
    let s = " -0.5 ";
    let mut lexer = Lexer::new(s);
    let token = lexer.next().unwrap();
    test_token_eq(&token, TokenKind::Float, s.trim());
    assert_eq!("-", token.text.get(..1).unwrap(), "\n{:?}\n", token);
    test_eof(&lexer.next().unwrap());
}

#[test]
fn valid_null_token() {
    let s = "  null\t";
    let mut lexer = Lexer::new(s);
    test_token_eq(&lexer.next().unwrap(), TokenKind::Null, "null");
    test_eof(&lexer.next().unwrap());
}

#[test]
fn valid_true_token() {
    let s = "\ntrue ";
    let mut lexer = Lexer::new(s);
    test_token_eq(&lexer.next().unwrap(), TokenKind::True, "true");
    test_eof(&lexer.next().unwrap());
}

#[test]
fn valid_false_token() {
    let s = " false\n";
    let mut lexer = Lexer::new(s);
    test_token_eq(&lexer.next().unwrap(), TokenKind::False, "false");
    test_eof(&lexer.next().unwrap());
}

#[test]
fn valid_float_is_zero() {
    let s = "0.0";
    let mut lexer = Lexer::new(s);
    test_token_eq(&lexer.next().unwrap(), TokenKind::Float, s);
    test_eof(&lexer.next().unwrap());
}

#[test]
fn empty_string() {
    let s = "\"\"";
    let mut lexer = Lexer::new(s);
    test_token_eq(&lexer.next().unwrap(), TokenKind::Str, s);
    test_eof(&lexer.next().unwrap());
}

#[test]
fn backslash_string() {
    let s = r#""\""#;
    let mut lexer = Lexer::new(s);
    test_token_eq(&lexer.next().unwrap(), TokenKind::Invalid, s);
    test_eof(&lexer.next().unwrap());
}

#[test]
fn escaped_quotation_mark_string() {
    let s = r#""\"""#;
    let mut lexer = Lexer::new(s);
    test_token_eq(&lexer.next().unwrap(), TokenKind::Str, s);
    test_eof(&lexer.next().unwrap());
}

#[test]
fn valid_one_integer_elem_array() {
    let s = r"[4]";
    let mut lexer = Lexer::new(s);
    test_token_eq(&lexer.next().unwrap(), TokenKind::OpenBracket, "[");
    test_token_eq(&lexer.next().unwrap(), TokenKind::Integer, "4");
    test_token_eq(&lexer.next().unwrap(), TokenKind::CloseBracket, "]");
    test_eof(&lexer.next().unwrap());
}

#[test]
fn valid_one_float_elem_array() {
    let s = r"[4.0]";
    let mut lexer = Lexer::new(s);
    test_token_eq(&lexer.next().unwrap(), TokenKind::OpenBracket, "[");
    test_token_eq(&lexer.next().unwrap(), TokenKind::Float, "4.0");
    test_token_eq(&lexer.next().unwrap(), TokenKind::CloseBracket, "]");
    test_eof(&lexer.next().unwrap());
}

#[test]
fn valid_many_integers_array() {
    let s = r"[0, 1, 2, 3, 4, 5, 6, 7, 8, 9]";
    let mut lexer = Lexer::new(s);
    test_token_eq(&lexer.next().unwrap(), TokenKind::OpenBracket, "[");
    for i in 0..9 {
        test_token_eq(&lexer.next().unwrap(), TokenKind::Integer, &i.to_string());
        test_token_eq(&lexer.next().unwrap(), TokenKind::Comma, ",");
    }
    test_token_eq(&lexer.next().unwrap(), TokenKind::Integer, "9");
    test_token_eq(&lexer.next().unwrap(), TokenKind::CloseBracket, "]");
    test_eof(&lexer.next().unwrap());
}

#[test]
fn exhausted_after_eof() {
    let mut lexer = Lexer::new("true");
    assert_eq!(TokenKind::True, lexer.next().unwrap().kind);
    assert_eq!(TokenKind::Eof, lexer.next().unwrap().kind);
    assert!(lexer.next().is_none());
    assert!(lexer.peek().is_none());
}

#[test]
fn peek_matches_next() {
    let mut lexer = Lexer::new(" [null] ");
    loop {
        let peeked = lexer.peek();
        let pulled = lexer.next();
        match (peeked, pulled) {
            (None, None) => break,
            (Some(a), Some(b)) => {
                assert_eq!(a.kind, b.kind);
                assert_eq!(a.text, b.text);
            }
            _ => panic!("peek and next disagree"),
        }
    }
}

#[test]
fn token_locations_one_line() {
    // columns are one past the lexeme's end, rows are 1-based
    let mut lexer = Lexer::new("null 42");
    let t1 = lexer.next().unwrap();
    assert_eq!((1, 5), (t1.loc.row, t1.loc.col));
    let t2 = lexer.next().unwrap();
    assert_eq!((1, 8), (t2.loc.row, t2.loc.col));
}

#[test]
fn token_locations_second_line() {
    let mut lexer = Lexer::new("null\ntrue");
    let t1 = lexer.next().unwrap();
    assert_eq!((1, 5), (t1.loc.row, t1.loc.col));
    let t2 = lexer.next().unwrap();
    assert_eq!((2, 5), (t2.loc.row, t2.loc.col));
}
