use mcl::error::{Container, Error, LexError, LexErrorKind, ParseError};
use mcl::token::Position;
use mcl::value::Value;

fn text_of(value: &Value) -> Option<&str> {
    match value {
        Value::String(s) => Some(s.as_str()),
        _ => None,
    }
}

fn number_of(value: &Value) -> Option<f64> {
    match value {
        Value::Integer(n) => Some(*n as f64),
        Value::Float(text) => std::str::from_utf8(text).unwrap().parse::<f64>().ok(),
        _ => None,
    }
}

fn member<'a>(value: &'a Value, key: &str) -> &'a Value {
    match value {
        Value::Table(t) => t.get(key).unwrap(),
        _ => panic!("no table"),
    }
}

fn item(value: &Value, index: usize) -> &Value {
    match value {
        Value::List(items) => &items[index],
        _ => panic!("no list"),
    }
}

fn keys(value: &Value) -> usize {
    match value {
        Value::Table(t) => t.len(),
        _ => panic!("no table"),
    }
}

fn items(value: &Value) -> usize {
    match value {
        Value::List(items) => items.len(),
        _ => panic!("no list"),
    }
}

fn parse_error(error: ParseError, at: (usize, usize, usize)) -> Error {
    Error::Parse(error, Position::new(at.0, at.1, at.2))
}

fn lex_error(kind: LexErrorKind, line: usize, column: usize) -> Error {
    Error::Lex(LexError { kind, line, column })
}

#[test]
fn test_from_slice() {
    let file = b"// people\njmmaa {\n  name \"jm\"\n  langs [ \"rust\" \"ts\" ]\n}\n";

    let output = mcl::from_slice(file).unwrap();

    assert!(!matches!(member(&output, "jmmaa"), Value::Null));
}

#[test]
fn test_from_str() {
    let output = mcl::from_str(r#"foo { bar "baz" }"#).unwrap();

    let num = member(member(&output, "foo"), "bar");

    assert!(matches!(num, Value::String(_)));

    let val = text_of(num);

    assert!(val == Some("baz"))
}

#[test]
fn test_arr() {
    let output = mcl::from_str("\"marky\" 32 23.23 null").unwrap();

    assert!(matches!(item(&output, 0), Value::String(_)));
    assert!(number_of(item(&output, 1)).is_some());
    assert!(number_of(item(&output, 2)).is_some());
    assert!(matches!(item(&output, 3), Value::Null));

    let val = number_of(item(&output, 2));

    assert!(val == Some(23.23));
}

#[test]
fn nested_table_holds_exactly_its_keys() {
    let output = mcl::from_str(r#"foo { bar "baz" }"#).unwrap();
    assert_eq!(keys(&output), 1);
    assert_eq!(keys(member(&output, "foo")), 1);
    match &output {
        Value::Table(t) => assert!(t.get("bar").is_none()),
        _ => panic!("no table"),
    }
}

#[test]
fn list_of_scalars_keeps_kinds_and_order() {
    let output = mcl::from_str("\"marky\" 32 23.23 null").unwrap();
    assert_eq!(items(&output), 4);
    assert_eq!(text_of(item(&output, 0)), Some("marky"));
    assert!(matches!(item(&output, 1), Value::Integer(32)));
    match item(&output, 2) {
        Value::Float(text) => assert_eq!(text.as_slice(), b"23.23"),
        _ => panic!("no decimal"),
    }
    assert!(matches!(item(&output, 3), Value::Null));
}

#[test]
fn bare_word_first_makes_a_table() {
    let output = mcl::from_str("a 1 b 2").unwrap();
    assert_eq!(keys(&output), 2);
    assert!(matches!(member(&output, "a"), Value::Integer(1)));
    assert!(matches!(member(&output, "b"), Value::Integer(2)));
}

#[test]
fn line_comment_is_skipped_with_its_line_feed() {
    let output = mcl::from_str("// note\n5").unwrap();
    assert_eq!(items(&output), 1);
    assert!(matches!(item(&output, 0), Value::Integer(5)));
}

#[test]
fn unterminated_string_is_reported_at_its_opening_quote() {
    assert_eq!(
        mcl::from_str("\"abc").unwrap_err(),
        lex_error(LexErrorKind::UnterminatedString, 1, 1)
    );
    assert_eq!(
        mcl::from_str("a\n  \"abc").unwrap_err(),
        lex_error(LexErrorKind::UnterminatedString, 2, 3)
    );
}

#[test]
fn later_value_replaces_earlier_one() {
    let output = mcl::from_str("a 1 a 2").unwrap();
    assert_eq!(keys(&output), 1);
    assert!(matches!(member(&output, "a"), Value::Integer(2)));
    let output = mcl::from_str("a 1 b 2 a 3 b 4").unwrap();
    assert_eq!(keys(&output), 2);
    assert!(matches!(member(&output, "a"), Value::Integer(3)));
    assert!(matches!(member(&output, "b"), Value::Integer(4)));
}

#[test]
fn leading_zero_splits_into_two_numbers() {
    let output = mcl::from_str("01").unwrap();
    assert_eq!(items(&output), 2);
    assert!(matches!(item(&output, 0), Value::Integer(0)));
    assert!(matches!(item(&output, 1), Value::Integer(1)));
}

#[test]
fn plain_string_is_its_raw_bytes() {
    let output = mcl::from_str("\"a b\tc 'd' {e} // f\"").unwrap();
    assert_eq!(text_of(item(&output, 0)), Some("a b\tc 'd' {e} // f"));
    let output = mcl::from_str("\"h\u{e9}llo \u{4e16}\u{754c}\"").unwrap();
    assert_eq!(text_of(item(&output, 0)), Some("h\u{e9}llo \u{4e16}\u{754c}"));
    let output = mcl::from_str("\"\"").unwrap();
    assert_eq!(text_of(item(&output, 0)), Some(""));
}

#[test]
fn blank_space_and_comments_do_not_change_the_tree() {
    let plain = mcl::from_str("a{b[1 2]c\"x\"}").unwrap();
    let spread =
        mcl::from_str("  // first\n a /* one */ {\r\n\tb [ 1 /* * / */ 2 ]\n\n c \"x\" } // end\n")
            .unwrap();
    for tree in [&plain, &spread] {
        assert_eq!(keys(tree), 1);
        let a = member(tree, "a");
        assert_eq!(keys(a), 2);
        let b = member(a, "b");
        assert_eq!(items(b), 2);
        assert!(matches!(item(b, 0), Value::Integer(1)));
        assert!(matches!(item(b, 1), Value::Integer(2)));
        assert_eq!(text_of(member(a, "c")), Some("x"));
    }
}

#[test]
fn same_buffer_gives_same_result() {
    let text = "a { b [ 1 2.5 \"x\" ] } // c\n";
    assert_eq!(format!("{:?}", mcl::from_str(text)), format!("{:?}", mcl::from_str(text)));
    assert_eq!(format!("{:?}", mcl::from_str("a {")), format!("{:?}", mcl::from_str("a {")));
    assert_eq!(mcl::from_str("\"a\nb\"").unwrap_err(), mcl::from_str("\"a\nb\"").unwrap_err());
}

#[test]
fn from_slice_reads_as_from_str() {
    let output = mcl::from_slice(b"name \"x\" list [ true false null ]").unwrap();
    assert_eq!(text_of(member(&output, "name")), Some("x"));
    let list = member(&output, "list");
    assert_eq!(items(list), 3);
    assert!(matches!(item(list, 0), Value::Boolean(true)));
    assert!(matches!(item(list, 1), Value::Boolean(false)));
    assert!(matches!(item(list, 2), Value::Null));
}

#[test]
fn from_slice_allows_any_bytes_in_comments() {
    let output = mcl::from_slice(b"/* \xff\xfe */ a 1 // \xc0\n").unwrap();
    assert!(matches!(member(&output, "a"), Value::Integer(1)));
}

#[test]
fn string_that_is_not_utf8_is_refused() {
    assert_eq!(
        mcl::from_slice(b"a \"\xff\"").unwrap_err(),
        parse_error(ParseError::InvalidEncoding(1), (1, 4, 3))
    );
    assert_eq!(
        mcl::from_slice(b"\"\xc3\" 1").unwrap_err(),
        parse_error(ParseError::InvalidEncoding(0), (1, 2, 1))
    );
}

#[test]
fn braces_and_brackets_at_the_top() {
    let output = mcl::from_str("{ a 1 }").unwrap();
    assert_eq!(keys(&output), 1);
    assert!(matches!(member(&output, "a"), Value::Integer(1)));
    let output = mcl::from_str("[ a ]");
    assert_eq!(output.unwrap_err(), parse_error(ParseError::InvalidValue(1), (1, 3, 2)));
    let output = mcl::from_str("[ 1 [ 2 3 ] {} ]").unwrap();
    assert_eq!(items(&output), 3);
    assert_eq!(items(item(&output, 1)), 2);
    assert_eq!(keys(item(&output, 2)), 0);
    let output = mcl::from_str("{ a 1 } b 2").unwrap();
    assert_eq!(keys(&output), 1);
}

#[test]
fn missing_close_ends_the_container_at_the_end() {
    let output = mcl::from_str("a { b 1").unwrap();
    assert!(matches!(member(member(&output, "a"), "b"), Value::Integer(1)));
    let output = mcl::from_str("[ 1 [ 2").unwrap();
    assert_eq!(items(&output), 2);
    assert_eq!(items(item(&output, 1)), 1);
}

#[test]
fn empty_input_has_no_tokens() {
    assert_eq!(
        mcl::from_str("").unwrap_err(),
        parse_error(ParseError::UnexpectedEndOfTokens, (1, 1, 0))
    );
    assert_eq!(
        mcl::from_str(" \t\r\n// only\n/* this */").unwrap_err(),
        parse_error(ParseError::UnexpectedEndOfTokens, (1, 1, 0))
    );
}

#[test]
fn syntactic_errors() {
    assert_eq!(
        mcl::from_str("a 1 b").unwrap_err(),
        parse_error(ParseError::UnexpectedEndOfTokens, (1, 6, 5))
    );
    assert_eq!(
        mcl::from_str("a 1 2 3").unwrap_err(),
        parse_error(ParseError::InvalidKey(2), (1, 5, 4))
    );
    assert_eq!(
        mcl::from_str("a }").unwrap_err(),
        parse_error(ParseError::InvalidValue(1), (1, 3, 2))
    );
    assert_eq!(
        mcl::from_str("a b").unwrap_err(),
        parse_error(ParseError::InvalidValue(1), (1, 3, 2))
    );
    assert_eq!(
        mcl::from_str("1 ]").unwrap_err(),
        parse_error(ParseError::InvalidValue(1), (1, 3, 2))
    );
    assert_eq!(
        mcl::from_str("a 1 } 2").unwrap_err(),
        parse_error(ParseError::InvalidKey(2), (1, 5, 4))
    );
    assert_eq!(
        mcl::from_str("a +").unwrap_err(),
        parse_error(ParseError::NumberFormat(1), (1, 3, 2))
    );
    assert_eq!(
        mcl::from_str("9223372036854775808").unwrap_err(),
        parse_error(ParseError::NumberFormat(0), (1, 1, 0))
    );
}

#[test]
fn nested_failure_names_its_container() {
    assert_eq!(
        mcl::from_str("a { b [ 1 } ] }").unwrap_err(),
        parse_error(ParseError::NestedContainerFailure(
            Container::Table,
            Box::new(ParseError::NestedContainerFailure(
                Container::List,
                Box::new(ParseError::InvalidValue(5))
            ))
        ), (1, 11, 10))
    );
    assert_eq!(
        mcl::from_str("[ { 1 2 } ]").unwrap_err(),
        parse_error(ParseError::NestedContainerFailure(
            Container::Table,
            Box::new(ParseError::InvalidKey(2))
        ), (1, 5, 4))
    );
    assert_eq!(
        mcl::from_str("{ 1 2 }").unwrap_err(),
        parse_error(ParseError::InvalidKey(1), (1, 3, 2))
    );
}

#[test]
fn lexical_errors() {
    assert_eq!(
        mcl::from_str("a \"b\nc\"").unwrap_err(),
        lex_error(LexErrorKind::NewlineInString, 1, 5)
    );
    assert_eq!(
        mcl::from_str("a\n `b\nc").unwrap_err(),
        lex_error(LexErrorKind::UnterminatedTemplateString, 2, 2)
    );
    assert_eq!(
        mcl::from_str("`b\\").unwrap_err(),
        lex_error(LexErrorKind::UnterminatedTemplateString, 1, 1)
    );
    assert_eq!(
        mcl::from_str("a // b").unwrap_err(),
        lex_error(LexErrorKind::UnterminatedComment, 1, 4)
    );
    assert_eq!(
        mcl::from_str("a\n/* b\n* /").unwrap_err(),
        lex_error(LexErrorKind::UnterminatedComment, 2, 2)
    );
    assert_eq!(
        mcl::from_str("1.x").unwrap_err(),
        lex_error(LexErrorKind::InvalidDecimalPoint(Some(b'x')), 1, 3)
    );
    assert_eq!(
        mcl::from_str("a 1.").unwrap_err(),
        lex_error(LexErrorKind::InvalidDecimalPoint(None), 1, 5)
    );
    assert_eq!(
        mcl::from_str("a\n\n  #").unwrap_err(),
        lex_error(LexErrorKind::UnrecognizedCharacter(b'#'), 3, 3)
    );
    assert_eq!(
        mcl::from_str("1.5.5").unwrap_err(),
        lex_error(LexErrorKind::UnrecognizedCharacter(b'.'), 1, 4)
    );
    assert_eq!(
        mcl::from_str("a /b").unwrap_err(),
        lex_error(LexErrorKind::UnrecognizedCharacter(b'b'), 1, 4)
    );
    assert_eq!(
        mcl::from_str("a /").unwrap_err(),
        lex_error(LexErrorKind::UnrecognizedCharacter(b'/'), 1, 3)
    );
}

#[test]
fn numbers() {
    let output = mcl::from_str("-12 +7 0 -0 0.5 -.5 +3.25 9223372036854775807 -9223372036854775808")
        .unwrap();
    assert_eq!(items(&output), 9);
    assert!(matches!(item(&output, 0), Value::Integer(-12)));
    assert!(matches!(item(&output, 1), Value::Integer(7)));
    assert!(matches!(item(&output, 2), Value::Integer(0)));
    assert!(matches!(item(&output, 3), Value::Integer(0)));
    assert_eq!(number_of(item(&output, 4)), Some(0.5));
    assert_eq!(number_of(item(&output, 5)), Some(-0.5));
    assert_eq!(number_of(item(&output, 6)), Some(3.25));
    assert!(matches!(item(&output, 7), Value::Integer(i64::MAX)));
    assert!(matches!(item(&output, 8), Value::Integer(i64::MIN)));
    let output = mcl::from_str("-012 00.5").unwrap();
    assert_eq!(items(&output), 3);
    assert!(matches!(item(&output, 0), Value::Integer(-12)));
    assert!(matches!(item(&output, 1), Value::Integer(0)));
    assert_eq!(number_of(item(&output, 2)), Some(0.5));
}

#[test]
fn escapes_in_strings_and_keys() {
    let output = mcl::from_str(r#"`a\nb\tc\rd\\e\"f\'g\`h\qi` 1"#).unwrap();
    assert_eq!(text_of(item(&output, 0)), Some("a\nb\tc\rd\\e\"f'g`hqi"));
    let output = mcl::from_str("`two\nlines` `x`").unwrap();
    assert_eq!(text_of(item(&output, 0)), Some("two\nlines"));
    assert_eq!(text_of(item(&output, 1)), Some("x"));
    let output = mcl::from_str(r#"{ "a\tb" 1 `c\`d` 2 }"#).unwrap();
    assert!(matches!(member(&output, "a\tb"), Value::Integer(1)));
    assert!(matches!(member(&output, "c`d"), Value::Integer(2)));
    let output = mcl::from_str(r#""a\\" 1"#).unwrap();
    assert_eq!(text_of(item(&output, 0)), Some("a\\"));
    let output = mcl::from_str(r#""say \"hi\"" "x\ny""#).unwrap();
    assert_eq!(text_of(item(&output, 0)), Some("say \"hi\""));
    assert_eq!(text_of(item(&output, 1)), Some("x\ny"));
}

#[test]
fn parse_failure_lies_where_its_token_starts() {
    assert_eq!(
        mcl::from_str("a 1\nb {\n  c ]\n}").unwrap_err(),
        parse_error(
            ParseError::NestedContainerFailure(
                Container::Table,
                Box::new(ParseError::InvalidValue(5))
            ),
            (3, 5, 12)
        )
    );
    assert_eq!(
        mcl::from_str("// x\na 1\n  `b\nc`").unwrap_err(),
        parse_error(ParseError::UnexpectedEndOfTokens, (4, 2, 15))
    );
    assert_eq!(
        mcl::from_str("a\n\n  }").unwrap_err(),
        parse_error(ParseError::InvalidValue(1), (3, 3, 5))
    );
}

#[test]
fn keyed_string_reads_back_byte_for_byte() {
    for text in ["", " ", "a b", "{ [ ] } // /* */ `", "h\u{e9}llo \u{4e16}\u{754c}", "'x'\t"] {
        let source = format!("k \"{}\"", text);
        let output = mcl::from_str(&source).unwrap();
        assert_eq!(keys(&output), 1);
        assert_eq!(text_of(member(&output, "k")), Some(text));
    }
    for text in ["", "a\nb", "\"quoted\"", "{ } [ ]"] {
        let source = format!("key_1 `{}`", text);
        let output = mcl::from_str(&source).unwrap();
        assert_eq!(text_of(member(&output, "key_1")), Some(text));
    }
}

#[test]
fn filler_at_many_places_changes_nothing() {
    let plain = "a{b[1 2]c\"x\"}";
    let spread = "/**/a// 1\n{ b\t[\r\n1 /* 2 */ 2 ] /* c */ c \"x\"\n}\n\n// end\n";
    assert_eq!(format!("{:?}", mcl::from_str(plain)), format!("{:?}", mcl::from_str(spread)));
    let plain = "a 1 2";
    let spread = " a /* x */ 1\n2 // y\n";
    match (mcl::from_str(plain).unwrap_err(), mcl::from_str(spread).unwrap_err()) {
        (Error::Parse(e, _), Error::Parse(f, _)) => assert_eq!(e, f),
        _ => panic!("no parse failure"),
    }
}
