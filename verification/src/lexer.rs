use crate::ascii::{
    byte_is_digit, byte_is_letter, byte_is_word, BACKSLASH, BACKTICK, CARRIAGE_RETURN, DIGIT_0,
    LINE_FEED, LIST_CLOSE, LIST_OPEN, LOWER_A, LOWER_E, LOWER_F, LOWER_L, LOWER_N, LOWER_R,
    LOWER_S, LOWER_T, LOWER_U, MINUS, PLUS, POINT, QUOTE, SLASH, SPACE, STAR, TAB, TABLE_CLOSE,
    TABLE_OPEN,
};
use crate::error::{LexError, LexErrorKind, LexFault};
use crate::scan::{
    after, block_comment_step, block_stop, byte_span, comment_step, digits_end, fault, found,
    lemma_step_advances, line_comment_step, line_stop, number_step, quote_stop, quoted_step, scan,
    sound, step, template_step, template_stop, word_end, word_false, word_null, word_step,
    word_true,
};
use crate::token::{
    lexemes, Cursor, DelimiterKind, IdentifierKind, Lexeme, LiteralKind, Location, Position, Token,
    TokenKind,
};
use vstd::prelude::*;
use vstd::slice::slice_subrange;

verus! {

/// What a result of the scanner is in the terms of the scanning rules.
pub open spec fn token_outcome<'a>(r: Result<TokenKind<'a>, LexError>) -> Result<
    Option<Lexeme>,
    LexFault,
> {
    match r {
        Ok(t) => Ok(Some(t@)),
        Err(e) => Err(e@),
    }
}

/// What the result of skipping a comment is in the terms of the scanning rules.
pub open spec fn skip_outcome(r: Result<(), LexError>) -> Result<Option<Lexeme>, LexFault> {
    match r {
        Ok(()) => Ok(None),
        Err(e) => Err(e@),
    }
}

/// What the result of a whole scan is in the terms of the scanning rules.
pub open spec fn scan_outcome<'a>(r: Result<Vec<TokenKind<'a>>, LexError>) -> Result<
    Seq<Lexeme>,
    LexFault,
> {
    match r {
        Ok(tokens) => Ok(lexemes(tokens@)),
        Err(e) => Err(e@),
    }
}

fn is_true(raw: &[u8]) -> (r: bool)
    ensures
        r == (raw@ == word_true()),
{
    let r = raw.len() == 4 && raw[0] == LOWER_T && raw[1] == LOWER_R && raw[2] == LOWER_U
        && raw[3] == LOWER_E;
    proof {
        if r {
            assert(raw@ =~= word_true());
        }
    }
    r
}

fn is_false(raw: &[u8]) -> (r: bool)
    ensures
        r == (raw@ == word_false()),
{
    let r = raw.len() == 5 && raw[0] == LOWER_F && raw[1] == LOWER_A && raw[2] == LOWER_L
        && raw[3] == LOWER_S && raw[4] == LOWER_E;
    proof {
        if r {
            assert(raw@ =~= word_false());
        }
    }
    r
}

fn is_null(raw: &[u8]) -> (r: bool)
    ensures
        r == (raw@ == word_null()),
{
    let r = raw.len() == 4 && raw[0] == LOWER_N && raw[1] == LOWER_U && raw[2] == LOWER_L
        && raw[3] == LOWER_L;
    proof {
        if r {
            assert(raw@ =~= word_null());
        }
    }
    r
}

/// The scanner: a cursor that walks a buffer once, from front to back.
pub struct Lexer {
    index: usize,
    column: usize,
    line: usize,
}

impl View for Lexer {
    type V = Cursor;

    /// Where the lexer stands.
    closed spec fn view(&self) -> Cursor {
        Cursor { line: self.line as int, column: self.column as int, index: self.index as int }
    }
}

impl Lexer {
    /// Line and column never run ahead of the offset.
    #[verifier::type_invariant]
    spec fn well_placed(self) -> bool {
        sound(self@)
    }

    /// The cursor may take a step inside a buffer of `len` bytes without leaving the range
    /// of a machine word.
    pub open spec fn inside(&self, len: int) -> bool {
        &&& sound(self@)
        &&& self@.index < len
        &&& len < usize::MAX
    }

    fn index(&self) -> (i: usize)
        ensures
            i == self@.index,
    {
        self.index
    }

    fn column(&self) -> (c: usize)
        ensures
            c == self@.column,
    {
        self.column
    }

    fn line(&self) -> (l: usize)
        ensures
            l == self@.line,
    {
        self.line
    }

    fn next(&mut self)
        requires
            sound(old(self)@),
            old(self)@.index + 2 <= usize::MAX,
        ensures
            final(self)@ == old(self)@.ahead(1),
    {
        self.index += 1;
        self.column += 1;
    }

    fn next_line(&mut self)
        requires
            sound(old(self)@),
            old(self)@.index + 2 <= usize::MAX,
        ensures
            final(self)@ == old(self)@.next_line(),
    {
        self.index += 1;
        self.column = 1;
        self.line += 1;
    }

    fn position(&self) -> (p: Position)
        ensures
            p@ == self@,
    {
        Position::new(self.line(), self.column(), self.index())
    }

    fn fail(kind: LexErrorKind, at: Position) -> (e: LexError)
        ensures
            e@ == fault(kind, at@),
    {
        LexError { kind, line: at.line(), column: at.column() }
    }

    /// A lexer that has read nothing: it stands on line 1, column 1, at offset 0.
    pub fn new() -> (lexer: Lexer)
        ensures
            lexer@ == Cursor::origin(),
    {
        Lexer { index: 0, column: 1, line: 1 }
    }

    /// Scans the quoted string whose opening quote the cursor stands on.
    fn string<'a>(&mut self, source: &'a [u8]) -> (r: Result<TokenKind<'a>, LexError>)
        requires
            old(self).inside(source@.len() as int),
        ensures
            token_outcome(r) == quoted_step(source@, old(self)@).outcome,
            final(self)@ == quoted_step(source@, old(self)@).rest,
            sound(final(self)@),
            final(self)@.index <= source@.len(),
    {
        let opening = self.position();
        self.next();
        let start = self.position();
        while self.index < source.len() && source[self.index] != QUOTE && source[self.index]
            != LINE_FEED
            invariant
                source@.len() < usize::MAX,
                sound(opening@),
                start@ == opening@.ahead(1),
                start@.index <= self@.index <= source@.len(),
                self@ == opening@.at(self@.index),
                quote_stop(source@, start@.index) == quote_stop(source@, self@.index),
            decreases source@.len() - self@.index,
        {
            if source[self.index] == BACKSLASH && self.index + 1 < source.len() && source[self.index
                + 1] != LINE_FEED {
                self.next();
                self.next();
            } else {
                self.next();
            }
        }
        if self.index >= source.len() {
            return Err(Lexer::fail(LexErrorKind::UnterminatedString, opening));
        }
        let end = self.position();
        if source[self.index] == LINE_FEED {
            return Err(Lexer::fail(LexErrorKind::NewlineInString, end));
        }
        self.next();
        let raw = slice_subrange(source, start.index(), end.index());
        let last = if start.index() < end.index() {
            end
        } else {
            self.position()
        };
        Ok(TokenKind::Literal(LiteralKind::String(Token::new(Location::new(start, last), raw))))
    }

    /// Scans the bare word whose first letter the cursor stands on.
    fn identifier<'a>(&mut self, source: &'a [u8]) -> (r: Result<TokenKind<'a>, LexError>)
        requires
            old(self).inside(source@.len() as int),
        ensures
            token_outcome(r) == word_step(source@, old(self)@).outcome,
            final(self)@ == word_step(source@, old(self)@).rest,
            sound(final(self)@),
            final(self)@.index <= source@.len(),
    {
        let start = self.position();
        while self.index < source.len() && byte_is_word(source[self.index])
            invariant
                source@.len() < usize::MAX,
                sound(start@),
                start@.index <= self@.index <= source@.len(),
                self@ == start@.at(self@.index),
                word_end(source@, start@.index) == word_end(source@, self@.index),
            decreases source@.len() - self@.index,
        {
            self.next();
        }
        let end = self.position();
        let raw = slice_subrange(source, start.index(), end.index());
        if is_true(raw) {
            Ok(TokenKind::Literal(LiteralKind::True(Location::new(start, end))))
        } else if is_false(raw) {
            Ok(TokenKind::Literal(LiteralKind::False(Location::new(start, end))))
        } else if is_null(raw) {
            Ok(TokenKind::Literal(LiteralKind::Null(Location::new(start, end))))
        } else {
            Ok(
                TokenKind::Identifier(
                    IdentifierKind::String(Token::new(Location::new(start, end), raw)),
                ),
            )
        }
    }

    /// Scans the number whose first byte, a digit or a sign, the cursor stands on.
    fn number<'a>(&mut self, source: &'a [u8]) -> (r: Result<TokenKind<'a>, LexError>)
        requires
            old(self).inside(source@.len() as int),
        ensures
            token_outcome(r) == number_step(source@, old(self)@).outcome,
            final(self)@ == number_step(source@, old(self)@).rest,
            sound(final(self)@),
            final(self)@.index <= source@.len(),
    {
        let start = self.position();
        let zero = source[self.index] == DIGIT_0;
        self.next();
        if !zero {
            while self.index < source.len() && byte_is_digit(source[self.index])
                invariant
                    source@.len() < usize::MAX,
                    sound(start@),
                    start@.index < self@.index <= source@.len(),
                    self@ == start@.at(self@.index),
                    digits_end(source@, start@.index + 1) == digits_end(source@, self@.index),
                decreases source@.len() - self@.index,
            {
                self.next();
            }
        }
        if self.index < source.len() && source[self.index] == POINT {
            self.next();
            let after_point = self.position();
            if self.index >= source.len() {
                return Err(Lexer::fail(LexErrorKind::InvalidDecimalPoint(None), after_point));
            }
            let b = source[self.index];
            if !byte_is_digit(b) {
                return Err(Lexer::fail(LexErrorKind::InvalidDecimalPoint(Some(b)), after_point));
            }
            while self.index < source.len() && byte_is_digit(source[self.index])
                invariant
                    source@.len() < usize::MAX,
                    sound(start@),
                    after_point@.index <= self@.index <= source@.len(),
                    start@.index < after_point@.index,
                    self@ == start@.at(self@.index),
                    digits_end(source@, after_point@.index) == digits_end(source@, self@.index),
                decreases source@.len() - self@.index,
            {
                self.next();
            }
        }
        let end = self.position();
        let raw = slice_subrange(source, start.index(), end.index());
        Ok(TokenKind::Literal(LiteralKind::Number(Token::new(Location::new(start, end), raw))))
    }

    /// Scans the template string whose opening backtick the cursor stands on.
    fn template_string<'a>(&mut self, source: &'a [u8]) -> (r: Result<TokenKind<'a>, LexError>)
        requires
            old(self).inside(source@.len() as int),
        ensures
            token_outcome(r) == template_step(source@, old(self)@).outcome,
            final(self)@ == template_step(source@, old(self)@).rest,
            sound(final(self)@),
            final(self)@.index <= source@.len(),
    {
        let opening = self.position();
        self.next();
        let start = self.position();
        while self.index < source.len() && source[self.index] != BACKTICK
            invariant
                source@.len() < usize::MAX,
                sound(self@),
                start@.index <= self@.index <= source@.len(),
                template_stop(source@, start@) == template_stop(source@, self@),
            decreases source@.len() - self@.index,
        {
            let b = source[self.index];
            if b == BACKSLASH {
                if self.index + 1 < source.len() {
                    self.next();
                    self.next();
                } else {
                    self.next();
                }
            } else if b == LINE_FEED {
                self.next_line();
            } else {
                self.next();
            }
        }
        if self.index >= source.len() {
            return Err(Lexer::fail(LexErrorKind::UnterminatedTemplateString, opening));
        }
        let end = self.position();
        self.next();
        let raw = slice_subrange(source, start.index(), end.index());
        let last = if start.index() < end.index() {
            end
        } else {
            self.position()
        };
        Ok(TokenKind::Literal(LiteralKind::String(Token::new(Location::new(start, last), raw))))
    }

    /// Skips the line comment whose second slash the cursor stands on.
    fn ignore_comment(&mut self, source: &[u8]) -> (r: Result<(), LexError>)
        requires
            old(self).inside(source@.len() as int),
        ensures
            skip_outcome(r) == line_comment_step(source@, old(self)@).outcome,
            final(self)@ == line_comment_step(source@, old(self)@).rest,
            sound(final(self)@),
            final(self)@.index <= source@.len(),
    {
        let start = self.position();
        self.next();
        while self.index < source.len() && source[self.index] != LINE_FEED
            invariant
                source@.len() < usize::MAX,
                sound(start@),
                start@.index < self@.index <= source@.len(),
                self@ == start@.at(self@.index),
                line_stop(source@, start@.index + 1) == line_stop(source@, self@.index),
            decreases source@.len() - self@.index,
        {
            self.next();
        }
        if self.index >= source.len() {
            return Err(Lexer::fail(LexErrorKind::UnterminatedComment, start));
        }
        self.next_line();
        Ok(())
    }

    /// Skips the block comment whose opening star the cursor stands on.
    fn ignore_multiline_comment(&mut self, source: &[u8]) -> (r: Result<(), LexError>)
        requires
            old(self).inside(source@.len() as int),
        ensures
            skip_outcome(r) == block_comment_step(source@, old(self)@).outcome,
            final(self)@ == block_comment_step(source@, old(self)@).rest,
            sound(final(self)@),
            final(self)@.index <= source@.len(),
    {
        let start = self.position();
        self.next();
        while self.index < source.len()
            invariant
                source@.len() < usize::MAX,
                sound(self@),
                start@ == old(self)@,
                start@.index < self@.index <= source@.len(),
                block_stop(source@, start@.ahead(1)) == block_stop(source@, self@),
            decreases source@.len() - self@.index,
        {
            let b = source[self.index];
            if b == STAR {
                if self.index + 1 < source.len() && source[self.index + 1] == SLASH {
                    self.next();
                    self.next();
                    return Ok(());
                }
                self.next();
            } else if b == LINE_FEED {
                self.next_line();
            } else {
                self.next();
            }
        }
        Err(Lexer::fail(LexErrorKind::UnterminatedComment, start))
    }

    /// Skips the comment whose first slash the cursor stands on.
    fn comment(&mut self, source: &[u8]) -> (r: Result<(), LexError>)
        requires
            old(self).inside(source@.len() as int),
        ensures
            skip_outcome(r) == comment_step(source@, old(self)@).outcome,
            final(self)@ == comment_step(source@, old(self)@).rest,
            sound(final(self)@),
            final(self)@.index <= source@.len(),
    {
        let start = self.position();
        self.next();
        if self.index >= source.len() {
            return Err(Lexer::fail(LexErrorKind::UnrecognizedCharacter(SLASH), start));
        }
        let b = source[self.index];
        if b == SLASH {
            self.ignore_comment(source)
        } else if b == STAR {
            self.ignore_multiline_comment(source)
        } else {
            Err(Lexer::fail(LexErrorKind::UnrecognizedCharacter(b), self.position()))
        }
    }

    /// Steps over the one byte of a delimiter and gives its token.
    fn delimiter<'a>(&mut self, kind: DelimiterKind) -> (t: TokenKind<'a>)
        requires
            sound(old(self)@),
            old(self)@.index + 2 <= usize::MAX,
        ensures
            t == TokenKind::Delimiter(kind, t->Delimiter_1),
            t->Delimiter_1@ == byte_span(old(self)@),
            final(self)@ == old(self)@.ahead(1),
    {
        let start = self.position();
        self.next();
        TokenKind::Delimiter(kind, Location::new(start, self.position()))
    }

    /// Scans `source` from the cursor to its end and gives the tokens in the order found,
    /// or the first failure. Blank space and comments give no token. The cursor is left
    /// where scanning stopped. The buffer must be short enough for the position behind
    /// its last byte to be counted in a machine word.
    pub fn tokenize<'a>(&mut self, source: &'a [u8]) -> (r: Result<Vec<TokenKind<'a>>, LexError>)
        requires
            source@.len() < usize::MAX,
        ensures
            scan_outcome(r) == scan(source@, old(self)@).outcome,
            final(self)@ == scan(source@, old(self)@).rest,
    {
        proof {
            use_type_invariant(&*self);
        }
        let mut tokens: Vec<TokenKind<'a>> = Vec::with_capacity(source.len());
        while self.index < source.len()
            invariant
                source@.len() < usize::MAX,
                sound(self@),
                scan(source@, old(self)@) == after(lexemes(tokens@), scan(source@, self@)),
            decreases source@.len() - self@.index,
        {
            let ghost before = self@;
            let ghost seen = lexemes(tokens@);
            proof {
                lemma_step_advances(source@, before);
            }
            let b = source[self.index];
            if b == TABLE_OPEN {
                tokens.push(self.delimiter(DelimiterKind::TablePrec));
            } else if b == TABLE_CLOSE {
                tokens.push(self.delimiter(DelimiterKind::TableTerm));
            } else if b == LIST_OPEN {
                tokens.push(self.delimiter(DelimiterKind::ListPrec));
            } else if b == LIST_CLOSE {
                tokens.push(self.delimiter(DelimiterKind::ListTerm));
            } else if b == LINE_FEED {
                self.next_line();
            } else if b == CARRIAGE_RETURN || b == TAB || b == SPACE {
                self.next();
            } else if byte_is_letter(b) {
                match self.identifier(source) {
                    Ok(t) => tokens.push(t),
                    Err(e) => return Err(e),
                }
            } else if b == QUOTE {
                match self.string(source) {
                    Ok(t) => tokens.push(t),
                    Err(e) => return Err(e),
                }
            } else if b == BACKTICK {
                match self.template_string(source) {
                    Ok(t) => tokens.push(t),
                    Err(e) => return Err(e),
                }
            } else if byte_is_digit(b) || b == PLUS || b == MINUS {
                match self.number(source) {
                    Ok(t) => tokens.push(t),
                    Err(e) => return Err(e),
                }
            } else if b == SLASH {
                match self.comment(source) {
                    Ok(()) => {},
                    Err(e) => return Err(e),
                }
            } else {
                return Err(Lexer::fail(LexErrorKind::UnrecognizedCharacter(b), self.position()));
            }
            proof {
                let s = step(source@, before);
                assert(s.outcome is Ok);
                assert(self@ == s.rest);
                let t = s.outcome->Ok_0;
                assert(lexemes(tokens@) =~= seen + found(t));
                let rest = scan(source@, self@);
                match rest.outcome {
                    Ok(more) => {
                        assert((seen + found(t)) + more =~= seen + (found(t) + more));
                    },
                    Err(e) => {},
                }
            }
        }
        proof {
            assert(lexemes(tokens@) + Seq::<Lexeme>::empty() =~= lexemes(tokens@));
        }
        Ok(tokens)
    }
}

impl Default for Lexer {
    /// A lexer that has read nothing, as `new` gives it.
    fn default() -> (lexer: Lexer)
        ensures
            lexer@ == Cursor::origin(),
    {
        Lexer::new()
    }
}

} // verus!
