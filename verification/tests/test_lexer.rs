use mcl::error::{LexError, LexErrorKind};
use mcl::lexer::Lexer;
use mcl::token::{DelimiterKind, IdentifierKind, LiteralKind, Location, Position, Token, TokenKind};

fn scan(source: &[u8]) -> Vec<TokenKind<'_>> {
    Lexer::new().tokenize(source).unwrap()
}

fn failure(source: &[u8]) -> LexError {
    Lexer::new().tokenize(source).unwrap_err()
}

fn token(start: (usize, usize, usize), end: (usize, usize, usize), bytes: &[u8]) -> Token<'_> {
    Token::new(
        Location::new(
            Position::new(start.0, start.1, start.2),
            Position::new(end.0, end.1, end.2),
        ),
        bytes,
    )
}

fn number(start: (usize, usize, usize), end: (usize, usize, usize), bytes: &[u8]) -> TokenKind<'_> {
    TokenKind::Literal(LiteralKind::Number(token(start, end, bytes)))
}

fn string(start: (usize, usize, usize), end: (usize, usize, usize), bytes: &[u8]) -> TokenKind<'_> {
    TokenKind::Literal(LiteralKind::String(token(start, end, bytes)))
}

fn identifier(
    start: (usize, usize, usize),
    end: (usize, usize, usize),
    bytes: &[u8],
) -> TokenKind<'_> {
    TokenKind::Identifier(IdentifierKind::String(token(start, end, bytes)))
}

#[test]
fn leading_zero_gives_two_number_tokens() {
    assert_eq!(
        scan(b"01"),
        vec![number((1, 1, 0), (1, 2, 1), b"0"), number((1, 2, 1), (1, 3, 2), b"1")]
    );
    assert_eq!(
        scan(b"007"),
        vec![
            number((1, 1, 0), (1, 2, 1), b"0"),
            number((1, 2, 1), (1, 3, 2), b"0"),
            number((1, 3, 2), (1, 4, 3), b"7")
        ]
    );
    assert_eq!(scan(b"0.25"), vec![number((1, 1, 0), (1, 5, 4), b"0.25")]);
    assert_eq!(scan(b"10"), vec![number((1, 1, 0), (1, 3, 2), b"10")]);
    assert_eq!(scan(b"-01"), vec![number((1, 1, 0), (1, 4, 3), b"-01")]);
}

fn location(start: (usize, usize, usize), end: (usize, usize, usize)) -> Location {
    Location::new(Position::new(start.0, start.1, start.2), Position::new(end.0, end.1, end.2))
}

#[test]
fn delimiters_and_reserved_words_have_spans_and_no_bytes() {
    assert_eq!(
        scan(b"{}[] true false\nnull"),
        vec![
            TokenKind::Delimiter(DelimiterKind::TablePrec, location((1, 1, 0), (1, 2, 1))),
            TokenKind::Delimiter(DelimiterKind::TableTerm, location((1, 2, 1), (1, 3, 2))),
            TokenKind::Delimiter(DelimiterKind::ListPrec, location((1, 3, 2), (1, 4, 3))),
            TokenKind::Delimiter(DelimiterKind::ListTerm, location((1, 4, 3), (1, 5, 4))),
            TokenKind::Literal(LiteralKind::True(location((1, 6, 5), (1, 10, 9)))),
            TokenKind::Literal(LiteralKind::False(location((1, 11, 10), (1, 16, 15)))),
            TokenKind::Literal(LiteralKind::Null(location((2, 1, 16), (2, 5, 20)))),
        ]
    );
}

#[test]
fn every_token_has_a_span_that_is_not_empty() {
    let source = b"a { b [ 1 2.5 \"x\" \"\" `` `y\nz` true ] } // c\n";
    let tokens = scan(source);
    assert_eq!(tokens.len(), 13);
    let mut last = 0;
    for token in &tokens {
        let l = token.loc();
        assert!(last <= l.start().index());
        assert!(l.start().index() < l.end().index());
        assert!(l.end().index() <= source.len());
        last = l.end().index();
    }
}

#[test]
fn empty_string_has_the_span_of_its_closing_delimiter() {
    assert_eq!(scan(b" \"\""), vec![string((1, 3, 2), (1, 4, 3), b"")]);
    assert_eq!(scan(b"``"), vec![string((1, 2, 1), (1, 3, 2), b"")]);
    assert_eq!(scan(b"\"\"\"\""), vec![
        string((1, 2, 1), (1, 3, 2), b""),
        string((1, 4, 3), (1, 5, 4), b"")
    ]);
    assert_eq!(scan(b"\"a\""), vec![string((1, 2, 1), (1, 3, 2), b"a")]);
}

#[test]
fn identifiers_and_their_spans() {
    assert_eq!(
        scan(b"ab_1 truex\n  nul T"),
        vec![
            identifier((1, 1, 0), (1, 5, 4), b"ab_1"),
            identifier((1, 6, 5), (1, 11, 10), b"truex"),
            identifier((2, 3, 13), (2, 6, 16), b"nul"),
            identifier((2, 7, 17), (2, 8, 18), b"T"),
        ]
    );
}

#[test]
fn quoted_string_excludes_its_quotes() {
    assert_eq!(scan(b"\"abc\""), vec![string((1, 2, 1), (1, 5, 4), b"abc")]);
    assert_eq!(scan(b"\"a\\\\\""), vec![string((1, 2, 1), (1, 5, 4), b"a\\\\")]);
}

#[test]
fn escaped_quote_does_not_close_a_quoted_string() {
    assert_eq!(scan(b"\"a\\\"b\" c"), vec![
        string((1, 2, 1), (1, 6, 5), b"a\\\"b"),
        identifier((1, 8, 7), (1, 9, 8), b"c")
    ]);
    assert_eq!(failure(b"\"a\\\""), LexError {
        kind: LexErrorKind::UnterminatedString,
        line: 1,
        column: 1
    });
    assert_eq!(failure(b" \"a\\"), LexError {
        kind: LexErrorKind::UnterminatedString,
        line: 1,
        column: 2
    });
    assert_eq!(failure(b"\"a\\\nb\""), LexError {
        kind: LexErrorKind::NewlineInString,
        line: 1,
        column: 4
    });
}

#[test]
fn template_string_keeps_escapes_and_line_feeds() {
    assert_eq!(scan(b"`a\nb`"), vec![string((1, 2, 1), (2, 2, 4), b"a\nb")]);
    assert_eq!(scan(b"`a\\`b` x"), vec![
        string((1, 2, 1), (1, 6, 5), b"a\\`b"),
        identifier((1, 8, 7), (1, 9, 8), b"x")
    ]);
    assert_eq!(scan(b"`\\\n` x"), vec![
        string((1, 2, 1), (1, 4, 3), b"\\\n"),
        identifier((1, 6, 5), (1, 7, 6), b"x")
    ]);
}

#[test]
fn numbers_and_signs() {
    assert_eq!(
        scan(b"+ -5 1.50 +.5"),
        vec![
            number((1, 1, 0), (1, 2, 1), b"+"),
            number((1, 3, 2), (1, 5, 4), b"-5"),
            number((1, 6, 5), (1, 10, 9), b"1.50"),
            number((1, 11, 10), (1, 14, 13), b"+.5"),
        ]
    );
    assert_eq!(scan(b"12ab"), vec![
        number((1, 1, 0), (1, 3, 2), b"12"),
        identifier((1, 3, 2), (1, 5, 4), b"ab")
    ]);
}

#[test]
fn comments_move_the_position() {
    assert_eq!(scan(b"// a\nb"), vec![identifier((2, 1, 5), (2, 2, 6), b"b")]);
    assert_eq!(scan(b"/* a\n b */ c"), vec![identifier((2, 7, 11), (2, 8, 12), b"c")]);
    assert_eq!(scan(b"/***/c"), vec![identifier((1, 6, 5), (1, 7, 6), b"c")]);
    assert_eq!(failure(b"/*/"), LexError {
        kind: LexErrorKind::UnterminatedComment,
        line: 1,
        column: 2
    });
    assert_eq!(scan(b"\r\n\t x"), vec![identifier((2, 3, 4), (2, 4, 5), b"x")]);
}

#[test]
fn first_failure_ends_the_scan() {
    assert_eq!(failure(b"a \"b\" # `c"), LexError {
        kind: LexErrorKind::UnrecognizedCharacter(b'#'),
        line: 1,
        column: 7
    });
    assert_eq!(failure(b"a\xffb"), LexError {
        kind: LexErrorKind::UnrecognizedCharacter(0xff),
        line: 1,
        column: 2
    });
}

#[test]
fn scanning_twice_gives_the_same_tokens() {
    let source = b"a { b [ 1 2.5 \"x\" `y\nz` ] } // c\n";
    assert_eq!(scan(source), scan(source));
    assert_eq!(failure(b"a `b"), failure(b"a `b"));
}

#[test]
fn a_used_lexer_stays_at_the_end() {
    let mut lexer = Lexer::new();
    assert_eq!(lexer.tokenize(b"a b").unwrap().len(), 2);
    assert_eq!(lexer.tokenize(b"a b").unwrap().len(), 0);
    assert_eq!(lexer.tokenize(b"a b c d").unwrap(), vec![
        identifier((1, 5, 4), (1, 6, 5), b"c"),
        identifier((1, 7, 6), (1, 8, 7), b"d")
    ]);
}

#[test]
fn positions_locations_and_tokens_give_back_their_parts() {
    let p = Position::new(3, 4, 5);
    assert_eq!((p.line(), p.column(), p.index()), (3, 4, 5));
    let l = Location::new(Position::new(1, 2, 3), Position::new(4, 5, 6));
    assert_eq!(*l.start(), Position::new(1, 2, 3));
    assert_eq!(*l.end(), Position::new(4, 5, 6));
    let t = Token::new(l, b"xyz");
    assert_eq!(t.bytes(), b"xyz");
    assert_eq!(*t.loc(), l);
}
