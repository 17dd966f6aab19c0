use vstd::prelude::*;

verus! {

/// A place in a buffer as mathematics sees it: one-based line and column,
/// zero-based byte offset, none of them bounded by a machine word.
pub struct Cursor {
    pub line: int,
    pub column: int,
    pub index: int,
}

/// The half-open byte range `[start.index, end.index)` with the line and column of both ends.
pub struct Span {
    pub start: Cursor,
    pub end: Cursor,
}

/// What a payload token holds: where it was found and the bytes found there.
pub struct Piece {
    pub span: Span,
    pub bytes: Seq<u8>,
}

/// A token with its span. Identifiers, strings and numbers hold bytes as well.
pub enum Lexeme {
    TableOpen(Span),
    TableClose(Span),
    ListOpen(Span),
    ListClose(Span),
    Identifier(Piece),
    Text(Piece),
    Number(Piece),
    True(Span),
    False(Span),
    Null(Span),
}

/// A token without its span: the kind and, for payload kinds, the bytes.
/// This is all that parsing looks at.
pub enum Shape {
    TableOpen,
    TableClose,
    ListOpen,
    ListClose,
    Identifier(Seq<u8>),
    Text(Seq<u8>),
    Number(Seq<u8>),
    True,
    False,
    Null,
}

impl Lexeme {
    /// The token with its span forgotten.
    pub open spec fn shape(self) -> Shape {
        match self {
            Lexeme::TableOpen(_) => Shape::TableOpen,
            Lexeme::TableClose(_) => Shape::TableClose,
            Lexeme::ListOpen(_) => Shape::ListOpen,
            Lexeme::ListClose(_) => Shape::ListClose,
            Lexeme::Identifier(p) => Shape::Identifier(p.bytes),
            Lexeme::Text(p) => Shape::Text(p.bytes),
            Lexeme::Number(p) => Shape::Number(p.bytes),
            Lexeme::True(_) => Shape::True,
            Lexeme::False(_) => Shape::False,
            Lexeme::Null(_) => Shape::Null,
        }
    }

    /// Where the token stands in the buffer.
    pub open spec fn span(self) -> Span {
        match self {
            Lexeme::TableOpen(s) => s,
            Lexeme::TableClose(s) => s,
            Lexeme::ListOpen(s) => s,
            Lexeme::ListClose(s) => s,
            Lexeme::Identifier(p) => p.span,
            Lexeme::Text(p) => p.span,
            Lexeme::Number(p) => p.span,
            Lexeme::True(s) => s,
            Lexeme::False(s) => s,
            Lexeme::Null(s) => s,
        }
    }
}

/// The shapes of a run of tokens, in order.
pub open spec fn shapes(lexemes: Seq<Lexeme>) -> Seq<Shape> {
    Seq::new(lexemes.len(), |i: int| lexemes[i].shape())
}

/// A place in the source buffer: one-based line and column, zero-based byte offset.
#[derive(Debug, Clone, Copy, PartialEq, Eq)]
pub struct Position {
    pub l: usize,
    pub c: usize,
    pub i: usize,
}

impl View for Position {
    type V = Cursor;

    open spec fn view(&self) -> Cursor {
        Cursor { line: self.l as int, column: self.c as int, index: self.i as int }
    }
}

impl Position {
    /// The place on line `l`, column `c`, at offset `i`.
    pub fn new(l: usize, c: usize, i: usize) -> (p: Position)
        ensures
            p == (Position { l, c, i }),
    {
        Position { l, c, i }
    }

    /// The line, counted from one.
    pub fn line(&self) -> (l: usize)
        ensures
            l == self.l,
    {
        self.l
    }

    /// The column, counted in bytes from one.
    pub fn column(&self) -> (c: usize)
        ensures
            c == self.c,
    {
        self.c
    }

    /// The offset into the buffer, counted in bytes from zero.
    pub fn index(&self) -> (i: usize)
        ensures
            i == self.i,
    {
        self.i
    }
}

/// The span of a token: where it starts and where it ends.
#[derive(Debug, Clone, Copy, PartialEq, Eq)]
pub struct Location {
    pub s: Position,
    pub e: Position,
}

impl View for Location {
    type V = Span;

    open spec fn view(&self) -> Span {
        Span { start: self.s@, end: self.e@ }
    }
}

impl Location {
    /// The span from `s` to just before `e`.
    pub fn new(s: Position, e: Position) -> (loc: Location)
        ensures
            loc == (Location { s, e }),
    {
        Location { s, e }
    }

    /// Where the first byte stands.
    pub fn start(&self) -> (p: &Position)
        ensures
            *p == self.s,
    {
        &self.s
    }

    /// Where the byte behind the last one stands.
    pub fn end(&self) -> (p: &Position)
        ensures
            *p == self.e,
    {
        &self.e
    }
}

/// A payload token: its span and the bytes of the buffer that it borrows. The span is
/// that of the bytes; an empty string, which has none, has the span of its closing
/// delimiter, so that no token's span is empty.
#[derive(Debug, Clone, Copy, PartialEq, Eq)]
pub struct Token<'a> {
    pub l: Location,
    pub b: &'a [u8],
}

impl<'a> View for Token<'a> {
    type V = Piece;

    open spec fn view(&self) -> Piece {
        Piece { span: self.l@, bytes: self.b@ }
    }
}

impl<'a> Token<'a> {
    /// The token that holds the bytes `b`, found at `l`.
    pub fn new(l: Location, b: &'a [u8]) -> (t: Token<'a>)
        ensures
            t == (Token { l, b }),
    {
        Token { l, b }
    }

    /// The bytes of the token, as they stand in the buffer.
    pub fn bytes(&self) -> (b: &'a [u8])
        ensures
            b == self.b,
    {
        self.b
    }

    /// Where the token was found.
    pub fn loc(&self) -> (l: &Location)
        ensures
            *l == self.l,
    {
        &self.l
    }
}

/// A literal: a string (quoted or template, without its delimiters and with its escapes
/// as written), a number, or one of the three reserved words, which hold no bytes.
#[derive(Debug, Clone, Copy, PartialEq, Eq)]
pub enum LiteralKind<'a> {
    String(Token<'a>),
    Number(Token<'a>),
    True(Location),
    False(Location),
    Null(Location),
}

/// A bare word that is not reserved.
#[derive(Debug, Clone, Copy, PartialEq, Eq)]
pub enum IdentifierKind<'a> {
    String(Token<'a>),
}

/// A brace or a bracket: `}`, `{`, `[` and `]`, in this order.
#[derive(Debug, Clone, Copy, PartialEq, Eq)]
pub enum DelimiterKind {
    TableTerm,
    TablePrec,
    ListPrec,
    ListTerm,
}

/// A token. A delimiter holds no bytes: it stands with its span.
#[derive(Debug, Clone, Copy, PartialEq, Eq)]
pub enum TokenKind<'a> {
    Identifier(IdentifierKind<'a>),
    Literal(LiteralKind<'a>),
    Delimiter(DelimiterKind, Location),
}

impl<'a> View for TokenKind<'a> {
    type V = Lexeme;

    open spec fn view(&self) -> Lexeme {
        match self {
            TokenKind::Identifier(IdentifierKind::String(t)) => Lexeme::Identifier(t@),
            TokenKind::Literal(LiteralKind::String(t)) => Lexeme::Text(t@),
            TokenKind::Literal(LiteralKind::Number(t)) => Lexeme::Number(t@),
            TokenKind::Literal(LiteralKind::True(l)) => Lexeme::True(l@),
            TokenKind::Literal(LiteralKind::False(l)) => Lexeme::False(l@),
            TokenKind::Literal(LiteralKind::Null(l)) => Lexeme::Null(l@),
            TokenKind::Delimiter(DelimiterKind::TablePrec, l) => Lexeme::TableOpen(l@),
            TokenKind::Delimiter(DelimiterKind::TableTerm, l) => Lexeme::TableClose(l@),
            TokenKind::Delimiter(DelimiterKind::ListPrec, l) => Lexeme::ListOpen(l@),
            TokenKind::Delimiter(DelimiterKind::ListTerm, l) => Lexeme::ListClose(l@),
        }
    }
}

impl<'a> TokenKind<'a> {
    /// Where the token stands in the buffer, whatever its kind.
    pub fn loc(&self) -> (l: &Location)
        ensures
            l@ == self@.span(),
    {
        match self {
            TokenKind::Identifier(IdentifierKind::String(t)) => t.loc(),
            TokenKind::Literal(LiteralKind::String(t)) => t.loc(),
            TokenKind::Literal(LiteralKind::Number(t)) => t.loc(),
            TokenKind::Literal(LiteralKind::True(l)) => l,
            TokenKind::Literal(LiteralKind::False(l)) => l,
            TokenKind::Literal(LiteralKind::Null(l)) => l,
            TokenKind::Delimiter(_, l) => l,
        }
    }
}

/// The tokens of a slice as mathematics sees them, in order.
pub open spec fn lexemes<'a>(tokens: Seq<TokenKind<'a>>) -> Seq<Lexeme> {
    Seq::new(tokens.len(), |i: int| tokens[i]@)
}


/// The shapes of the tokens of a slice, in order.
pub open spec fn shapes_of<'a>(tokens: Seq<TokenKind<'a>>) -> Seq<Shape> {
    shapes(lexemes(tokens))
}

} // verus!
