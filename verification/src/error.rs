use crate::token::{lexemes, Cursor, Lexeme, Position, TokenKind};
use vstd::prelude::*;

verus! {

/// What went wrong while scanning.
#[derive(Debug, Clone, Copy, PartialEq, Eq)]
pub enum LexErrorKind {
    /// A quoted string whose closing quote is missing.
    UnterminatedString,
    /// A raw line feed inside a quoted string.
    NewlineInString,
    /// A template string whose closing backtick is missing.
    UnterminatedTemplateString,
    /// A comment that the buffer ends in.
    UnterminatedComment,
    /// A decimal point followed by the given byte, or by the end of the buffer, in place
    /// of a digit.
    InvalidDecimalPoint(Option<u8>),
    /// A byte that starts no token, or stands behind a slash and opens no comment, or a
    /// slash that the buffer ends with.
    UnrecognizedCharacter(u8),
}

/// A scanning failure as mathematics sees it.
pub struct LexFault {
    pub kind: LexErrorKind,
    pub line: int,
    pub column: int,
}

/// A scanning failure and the line and column that it is reported at.
#[derive(Debug, Clone, Copy, PartialEq, Eq)]
pub struct LexError {
    pub kind: LexErrorKind,
    pub line: usize,
    pub column: usize,
}

impl View for LexError {
    type V = LexFault;

    open spec fn view(&self) -> LexFault {
        LexFault { kind: self.kind, line: self.line as int, column: self.column as int }
    }
}


/// The two kinds of container.
#[derive(Debug, Clone, Copy, PartialEq, Eq)]
pub enum Container {
    Table,
    List,
}

/// A parsing failure as mathematics sees it. Where a token is at fault, its index in the
/// token sequence is given.
pub enum ParseFault {
    /// A value was due and no token was left.
    UnexpectedEndOfTokens,
    /// A key was due and no token was left.
    ExpectedKey,
    /// A key was due and the token is neither a string nor an identifier.
    InvalidKey(int),
    /// A value was due and the token starts none.
    InvalidValue(int),
    /// The number token's text denotes no number that can be held.
    NumberFormat(int),
    /// The string's content is not valid UTF-8.
    InvalidEncoding(int),
    /// A nested container of the given kind failed for the reason given.
    NestedContainerFailure(Container, Box<ParseFault>),
}

/// A parsing failure. Where a token is at fault, its index in the token sequence is given.
#[derive(Debug, PartialEq, Eq)]
pub enum ParseError {
    /// A value was due and no token was left.
    UnexpectedEndOfTokens,
    /// A key was due and no token was left.
    ExpectedKey,
    /// A key was due and the token is neither a string nor an identifier.
    InvalidKey(usize),
    /// A value was due and the token starts none.
    InvalidValue(usize),
    /// The number token's text denotes no number that can be held.
    NumberFormat(usize),
    /// The string's content is not valid UTF-8.
    InvalidEncoding(usize),
    /// A nested container of the given kind failed for the reason given.
    NestedContainerFailure(Container, Box<ParseError>),
}

impl ParseError {
    /// The failure as mathematics sees it.
    pub open spec fn fault(&self) -> ParseFault
        decreases self,
    {
        match self {
            ParseError::UnexpectedEndOfTokens => ParseFault::UnexpectedEndOfTokens,
            ParseError::ExpectedKey => ParseFault::ExpectedKey,
            ParseError::InvalidKey(i) => ParseFault::InvalidKey(*i as int),
            ParseError::InvalidValue(i) => ParseFault::InvalidValue(*i as int),
            ParseError::NumberFormat(i) => ParseFault::NumberFormat(*i as int),
            ParseError::InvalidEncoding(i) => ParseFault::InvalidEncoding(*i as int),
            ParseError::NestedContainerFailure(c, inner) => ParseFault::NestedContainerFailure(
                *c,
                Box::new((**inner).fault()),
            ),
        }
    }
}

impl ParseFault {
    /// The index of the token at fault, where the failure names one: for a failure inside
    /// a nested container, the token that its innermost reason names.
    pub open spec fn token(self) -> Option<int>
        decreases self,
    {
        match self {
            ParseFault::InvalidKey(i) => Some(i),
            ParseFault::InvalidValue(i) => Some(i),
            ParseFault::NumberFormat(i) => Some(i),
            ParseFault::InvalidEncoding(i) => Some(i),
            ParseFault::NestedContainerFailure(_, inner) => (*inner).token(),
            _ => None,
        }
    }
}

/// Where in the buffer a parsing failure lies, given the tokens that were parsed: where
/// the token at fault starts or, where the failure names none because the tokens ran out,
/// where the last token ends; in a buffer without tokens, its very start.
pub open spec fn place(tokens: Seq<Lexeme>, fault: ParseFault) -> Cursor {
    match fault.token() {
        Some(i) if 0 <= i < tokens.len() => tokens[i].span().start,
        _ => if tokens.len() > 0 {
            tokens.last().span().end
        } else {
            Cursor::origin()
        },
    }
}

impl ParseError {
    /// The index of the token at fault, where the failure names one.
    pub fn token(&self) -> (r: Option<usize>)
        ensures
            match r {
                Some(i) => self@.token() == Some(i as int),
                None => self@.token() is None,
            },
        decreases self,
    {
        match self {
            ParseError::InvalidKey(i) => Some(*i),
            ParseError::InvalidValue(i) => Some(*i),
            ParseError::NumberFormat(i) => Some(*i),
            ParseError::InvalidEncoding(i) => Some(*i),
            ParseError::NestedContainerFailure(_, inner) => inner.token(),
            _ => None,
        }
    }

    /// Where in the buffer the failure lies, given the tokens that were parsed.
    pub fn position<'a>(&self, tokens: &[TokenKind<'a>]) -> (p: Position)
        ensures
            p@ == place(lexemes(tokens@), self@),
    {
        match self.token() {
            Some(i) if i < tokens.len() => *tokens[i].loc().start(),
            _ => if tokens.len() > 0 {
                *tokens[tokens.len() - 1].loc().end()
            } else {
                Position::new(1, 1, 0)
            },
        }
    }
}

impl View for ParseError {
    type V = ParseFault;

    open spec fn view(&self) -> ParseFault {
        self.fault()
    }
}

/// Why a text could not be read: scanning failed, or parsing did, at the given place in
/// the buffer.
pub enum Fault {
    Lex(LexFault),
    Parse(ParseFault, Cursor),
}

/// Why a text could not be read: scanning failed, or parsing did, at the given place in
/// the buffer. Either way the failure comes with its line and column.
#[derive(Debug, PartialEq, Eq)]
pub enum Error {
    Lex(LexError),
    Parse(ParseError, Position),
}

impl View for Error {
    type V = Fault;

    open spec fn view(&self) -> Fault {
        match self {
            Error::Lex(e) => Fault::Lex(e@),
            Error::Parse(e, at) => Fault::Parse(e@, at@),
        }
    }
}

} // verus!
