use mcl::error::ParseError;
use mcl::lexer::Lexer;
use mcl::number::{bytes_to_float, bytes_to_int};
use mcl::parser::Parser;
use mcl::text::{bytes_to_string, decode_bytes, decode_text, unescape_bytes};
use mcl::value::{Table, Value};

#[test]
fn unescape_replaces_each_escape() {
    assert_eq!(unescape_bytes(b"a\\nb"), b"a\nb");
    assert_eq!(unescape_bytes(b"\\r\\t\\n"), b"\r\t\n");
    assert_eq!(unescape_bytes(b"\\\"\\'\\\\\\`"), b"\"'\\`");
    assert_eq!(unescape_bytes(b"\\q\\0"), b"q0");
    assert_eq!(unescape_bytes(b"plain"), b"plain");
    assert_eq!(unescape_bytes(b"end\\"), b"end");
    assert_eq!(unescape_bytes(b""), b"");
    assert_eq!(unescape_bytes(b"\\\\n"), b"\\n");
}

#[test]
fn decoding_copies_what_has_no_backslash() {
    assert_eq!(decode_bytes(b"a b"), b"a b");
    assert_eq!(decode_bytes(b"a\\tb"), b"a\tb");
    assert_eq!(decode_text(b"a\\tb"), Some("a\tb".to_string()));
    assert_eq!(decode_text(b"\xe4\xb8\x96"), Some("\u{4e16}".to_string()));
    assert_eq!(decode_text(b"\xe4\xb8"), None);
    assert_eq!(decode_text(b"\\\xff"), None);
}

#[test]
fn bytes_become_a_string_only_as_utf8() {
    assert_eq!(bytes_to_string(b"abc"), Some("abc".to_string()));
    assert_eq!(bytes_to_string(b""), Some(String::new()));
    assert_eq!(bytes_to_string(b"\xc3\xa9"), Some("\u{e9}".to_string()));
    assert_eq!(bytes_to_string(b"\xff"), None);
    assert_eq!(bytes_to_string(b"a\x80"), None);
}

#[test]
fn whole_numbers() {
    assert_eq!(bytes_to_int(b"0"), Some(0));
    assert_eq!(bytes_to_int(b"32"), Some(32));
    assert_eq!(bytes_to_int(b"+32"), Some(32));
    assert_eq!(bytes_to_int(b"-32"), Some(-32));
    assert_eq!(bytes_to_int(b"-012"), Some(-12));
    assert_eq!(bytes_to_int(b"000000000000000000000000000123"), Some(123));
    assert_eq!(bytes_to_int(b"9223372036854775807"), Some(i64::MAX));
    assert_eq!(bytes_to_int(b"9223372036854775808"), None);
    assert_eq!(bytes_to_int(b"-9223372036854775808"), Some(i64::MIN));
    assert_eq!(bytes_to_int(b"-9223372036854775809"), None);
    assert_eq!(bytes_to_int(b"99999999999999999999999999"), None);
    assert_eq!(bytes_to_int(b""), None);
    assert_eq!(bytes_to_int(b"+"), None);
    assert_eq!(bytes_to_int(b"-"), None);
    assert_eq!(bytes_to_int(b"1a"), None);
    assert_eq!(bytes_to_int(b"1.5"), None);
    assert_eq!(bytes_to_int(b"--1"), None);
    assert_eq!(bytes_to_int(b" 1"), None);
}

fn is_float(text: &str) -> bool {
    text.parse::<f64>().is_ok()
}

#[test]
fn decimal_numbers() {
    assert_eq!(bytes_to_float(b"23.23"), Some(b"23.23".to_vec()));
    assert_eq!(bytes_to_float(b"-0.5"), Some(b"-0.5".to_vec()));
    assert_eq!(bytes_to_float(b"+.5"), Some(b"+.5".to_vec()));
    assert_eq!(bytes_to_float(b".5"), Some(b".5".to_vec()));
    assert_eq!(bytes_to_float(b"5."), Some(b"5.".to_vec()));
    assert_eq!(bytes_to_float(b"1.2e3"), Some(b"1.2e3".to_vec()));
    assert_eq!(bytes_to_float(b"1.E-3"), Some(b"1.E-3".to_vec()));
    assert_eq!(bytes_to_float(b"5"), None);
    assert_eq!(bytes_to_float(b"."), None);
    assert_eq!(bytes_to_float(b"+."), None);
    assert_eq!(bytes_to_float(b".e5"), None);
    assert_eq!(bytes_to_float(b"1.2.3"), None);
    assert_eq!(bytes_to_float(b"1.2e"), None);
    assert_eq!(bytes_to_float(b"1.2e+"), None);
    assert_eq!(bytes_to_float(b"1.2e3x"), None);
    assert_eq!(bytes_to_float(b"1.-2"), None);
    assert_eq!(bytes_to_float(b"1 .2"), None);
    assert_eq!(bytes_to_float(b""), None);
    let text = bytes_to_float(b"23.23").unwrap();
    assert_eq!(std::str::from_utf8(&text).unwrap().parse::<f64>(), Ok(23.23));
}

#[test]
fn decimal_text_is_what_the_standard_parser_takes() {
    for text in [
        "23.23", "-0.5", "+.5", ".5", "5.", "1.2e3", "1.E-3", "1.5E+10", "0.0", "-.0e0", ".", "+.",
        "-.", ".e5", "1.2.3", "1.2e", "1.2e+", "1.2e3x", "1.-2", "1.+2", "1 .2", "1.2 ", "..1",
        "e.1", "1.e", "1.2e3.4", "+-1.5", "1.5f",
    ] {
        assert_eq!(bytes_to_float(text.as_bytes()).is_some(), is_float(text), "{}", text);
    }
}

#[test]
fn whole_text_is_what_the_standard_parser_takes() {
    for text in [
        "0", "7", "+7", "-7", "007", "-007", "+", "-", "", "1a", "a1", "1 ", " 1", "--1", "+-1",
        "9223372036854775807", "9223372036854775808", "-9223372036854775808",
        "-9223372036854775809", "18446744073709551616", "1e3", "inf", "nan",
    ] {
        assert_eq!(bytes_to_int(text.as_bytes()), text.parse::<i64>().ok(), "{}", text);
    }
}

#[test]
fn table_binds_each_key_once() {
    let mut table = Table::new();
    assert_eq!(table.len(), 0);
    assert!(table.get("a").is_none());
    table.insert("a".to_string(), Value::Integer(1));
    table.insert("b".to_string(), Value::Integer(2));
    assert_eq!(table.len(), 2);
    assert!(matches!(table.get("a"), Some(Value::Integer(1))));
    table.insert("a".to_string(), Value::Null);
    assert_eq!(table.len(), 2);
    assert!(matches!(table.get("a"), Some(Value::Null)));
    assert!(matches!(table.get("b"), Some(Value::Integer(2))));
    assert!(table.get("c").is_none());
    assert!(table.get("").is_none());
    assert_eq!(table.entries[0].key, "a");
    assert_eq!(table.entries[1].key, "b");
}

#[test]
fn parser_steps_key_by_key() {
    let tokens = Lexer::new().tokenize(b"a \"b\\tc\" 7 { d 1 } [ 2 ] x").unwrap();
    let mut parser = Parser::new();
    assert_eq!(parser.create_key(&tokens), Ok("a".to_string()));
    assert_eq!(parser.create_key(&tokens), Ok("b\tc".to_string()));
    assert_eq!(parser.create_key(&tokens), Err(ParseError::InvalidKey(2)));
    assert_eq!(parser.create_key(&tokens), Err(ParseError::InvalidKey(2)));
    assert!(matches!(parser.create_value(&tokens), Ok(Value::Integer(7))));
    match parser.create_value(&tokens) {
        Ok(Value::Table(t)) => assert!(matches!(t.get("d"), Some(Value::Integer(1)))),
        _ => panic!("no table"),
    }
    match parser.create_value(&tokens) {
        Ok(Value::List(items)) => assert_eq!(items.len(), 1),
        _ => panic!("no list"),
    }
    assert!(matches!(parser.create_value(&tokens), Err(ParseError::InvalidValue(10))));
    assert_eq!(parser.create_key(&tokens), Ok("x".to_string()));
    assert_eq!(parser.create_key(&tokens), Err(ParseError::ExpectedKey));
    assert!(matches!(parser.create_value(&tokens), Err(ParseError::UnexpectedEndOfTokens)));
}

#[test]
fn bodies_end_with_their_closing_token() {
    let tokens = Lexer::new().tokenize(b"a 1 } 2 3 ] 4").unwrap();
    let mut parser = Parser::new();
    match parser.create_table(&tokens) {
        Ok(Value::Table(t)) => assert_eq!(t.len(), 1),
        _ => panic!("no table"),
    }
    match parser.create_list(&tokens) {
        Ok(Value::List(items)) => assert_eq!(items.len(), 2),
        _ => panic!("no list"),
    }
    match parser.parse(&tokens) {
        Ok(Value::List(items)) => {
            assert_eq!(items.len(), 1);
            assert!(matches!(items[0], Value::Integer(4)));
        }
        _ => panic!("no list"),
    }
    assert!(matches!(parser.parse(&tokens), Err(ParseError::UnexpectedEndOfTokens)));
}

#[test]
fn default_lexer_and_parser_are_fresh() {
    let tokens = Lexer::default().tokenize(b"\n a 1").unwrap();
    assert_eq!(tokens, Lexer::new().tokenize(b"\n a 1").unwrap());
    match Parser::default().parse(&tokens) {
        Ok(Value::Table(t)) => assert!(matches!(t.get("a"), Some(Value::Integer(1)))),
        _ => panic!("no table"),
    }
}

#[test]
fn failure_is_placed_among_the_tokens() {
    let tokens = Lexer::new().tokenize(b"a [\n 1 }").unwrap();
    let nested = ParseError::NestedContainerFailure(
        mcl::error::Container::List,
        Box::new(ParseError::InvalidValue(3)),
    );
    assert_eq!(nested.token(), Some(3));
    assert_eq!(nested.position(&tokens), mcl::token::Position::new(2, 4, 7));
    assert_eq!(ParseError::InvalidKey(0).position(&tokens), mcl::token::Position::new(1, 1, 0));
    assert_eq!(ParseError::ExpectedKey.token(), None);
    assert_eq!(ParseError::ExpectedKey.position(&tokens), mcl::token::Position::new(2, 5, 8));
    assert_eq!(ParseError::InvalidKey(9).position(&tokens), mcl::token::Position::new(2, 5, 8));
    assert_eq!(ParseError::UnexpectedEndOfTokens.position(&[]), mcl::token::Position::new(1, 1, 0));
}
