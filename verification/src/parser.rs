use crate::ascii::{holds_byte, POINT};
use crate::error::{Container, ParseError, ParseFault};
use crate::grammar::{
    as_list, as_table, document, key_at, lemma_value_advances, list_body, number_at, table_body,
    value_at,
};
use crate::number::{bytes_to_float, bytes_to_int};
use crate::text::decode_text;
use crate::token::{shapes_of, DelimiterKind, IdentifierKind, LiteralKind, TokenKind};
use crate::value::{data, Datum, Table, Value};
use vstd::prelude::*;

verus! {

/// What the result of reading a value is in the terms of the grammar.
pub open spec fn value_outcome(r: Result<Value, ParseError>) -> Result<Datum, ParseFault> {
    match r {
        Ok(v) => Ok(v.datum()),
        Err(e) => Err(e@),
    }
}

/// What the result of reading a key is in the terms of the grammar.
pub open spec fn key_outcome(r: Result<String, ParseError>) -> Result<Seq<char>, ParseFault> {
    match r {
        Ok(k) => Ok(k@),
        Err(e) => Err(e@),
    }
}

/// What the result of reading a table's body is in the terms of the grammar.
pub open spec fn table_outcome(r: Result<Table, ParseError>) -> Result<
    Map<Seq<char>, Datum>,
    ParseFault,
> {
    match r {
        Ok(t) => Ok(t@),
        Err(e) => Err(e@),
    }
}

/// What the result of reading a list's body is in the terms of the grammar.
pub open spec fn list_outcome(r: Result<Vec<Value>, ParseError>) -> Result<Seq<Datum>, ParseFault> {
    match r {
        Ok(items) => Ok(data(items@)),
        Err(e) => Err(e@),
    }
}

/// The number that the number token at `at` denotes, whose bytes are `raw`.
fn number_value(raw: &[u8], at: usize) -> (r: Result<Value, ParseError>)
    ensures
        value_outcome(r) == number_at(raw@, at as int),
{
    if holds_byte(raw, POINT) {
        match bytes_to_float(raw) {
            Some(text) => Ok(Value::Float(text)),
            None => Err(ParseError::NumberFormat(at)),
        }
    } else {
        match bytes_to_int(raw) {
            Some(v) => Ok(Value::Integer(v)),
            None => Err(ParseError::NumberFormat(at)),
        }
    }
}

/// The tree builder: a cursor that walks a token sequence once, from front to back.
pub struct Parser {
    index: usize,
}

impl View for Parser {
    type V = int;

    /// The index of the token that the parser stands before.
    closed spec fn view(&self) -> int {
        self.index as int
    }
}

impl Parser {
    fn index(&self) -> (i: usize)
        ensures
            i == self@,
    {
        self.index
    }

    fn next(&mut self)
        requires
            old(self)@ < usize::MAX,
        ensures
            final(self)@ == old(self)@ + 1,
    {
        self.index += 1;
    }

    /// A parser that stands before the first token.
    pub fn new() -> (parser: Parser)
        ensures
            parser@ == 0,
    {
        Parser { index: 0 }
    }

    /// Reads the key that the cursor stands on and steps over it.
    pub fn create_key<'a>(&mut self, tokens: &[TokenKind<'a>]) -> (r: Result<String, ParseError>)
        ensures
            key_outcome(r) == key_at(shapes_of(tokens@), old(self)@).outcome,
            final(self)@ == key_at(shapes_of(tokens@), old(self)@).next,
    {
        if self.index >= tokens.len() {
            return Err(ParseError::ExpectedKey);
        }
        let at = self.index();
        let text = match &tokens[at] {
            TokenKind::Literal(LiteralKind::String(t)) => decode_text(t.bytes()),
            TokenKind::Identifier(IdentifierKind::String(t)) => decode_text(t.bytes()),
            _ => {
                return Err(ParseError::InvalidKey(at));
            },
        };
        match text {
            Some(key) => {
                self.next();
                Ok(key)
            },
            None => Err(ParseError::InvalidEncoding(at)),
        }
    }

    /// Reads the value that the cursor stands on and steps over all of it, a container's
    /// closing token included.
    pub fn create_value<'a>(&mut self, tokens: &[TokenKind<'a>]) -> (r: Result<Value, ParseError>)
        ensures
            value_outcome(r) == value_at(shapes_of(tokens@), old(self)@).outcome,
            final(self)@ == value_at(shapes_of(tokens@), old(self)@).next,
            r matches Ok(v) ==> v.wf(),
        decreases tokens@.len() - old(self)@, 0nat,
    {
        if self.index >= tokens.len() {
            return Err(ParseError::UnexpectedEndOfTokens);
        }
        let at = self.index();
        match &tokens[at] {
            TokenKind::Literal(LiteralKind::True(_)) => {
                self.next();
                Ok(Value::Boolean(true))
            },
            TokenKind::Literal(LiteralKind::False(_)) => {
                self.next();
                Ok(Value::Boolean(false))
            },
            TokenKind::Literal(LiteralKind::Null(_)) => {
                self.next();
                Ok(Value::Null)
            },
            TokenKind::Literal(LiteralKind::String(t)) => match decode_text(t.bytes()) {
                Some(s) => {
                    self.next();
                    Ok(Value::String(s))
                },
                None => Err(ParseError::InvalidEncoding(at)),
            },
            TokenKind::Literal(LiteralKind::Number(t)) => match number_value(t.bytes(), at) {
                Ok(v) => {
                    self.next();
                    Ok(v)
                },
                Err(e) => Err(e),
            },
            TokenKind::Delimiter(DelimiterKind::TablePrec, _) => {
                self.next();
                match self.create_table(tokens) {
                    Ok(table) => Ok(table),
                    Err(e) => Err(
                        ParseError::NestedContainerFailure(Container::Table, Box::new(e)),
                    ),
                }
            },
            TokenKind::Delimiter(DelimiterKind::ListPrec, _) => {
                self.next();
                match self.create_list(tokens) {
                    Ok(list) => Ok(list),
                    Err(e) => Err(ParseError::NestedContainerFailure(Container::List, Box::new(e))),
                }
            },
            _ => Err(ParseError::InvalidValue(at)),
        }
    }

    /// Reads the values of a list's body from the cursor on.
    fn list_items<'a>(&mut self, tokens: &[TokenKind<'a>], enclosed: bool) -> (r: Result<
        Vec<Value>,
        ParseError,
    >)
        ensures
            list_outcome(r) == list_body(
                shapes_of(tokens@),
                old(self)@,
                Seq::empty(),
                enclosed,
            ).outcome,
            final(self)@ == list_body(shapes_of(tokens@), old(self)@, Seq::empty(), enclosed).next,
            r matches Ok(items) ==> forall|i: int|
                0 <= i < items.len() ==> (#[trigger] items[i]).wf(),
        decreases tokens@.len() - old(self)@, 1nat,
    {
        let ghost shapes = shapes_of(tokens@);
        let ghost start = self@;
        let mut values: Vec<Value> = Vec::new();
        proof {
            assert(data(values@) =~= Seq::<Datum>::empty());
        }
        while self.index < tokens.len()
            invariant
                shapes == shapes_of(tokens@),
                start == old(self)@,
                start <= self@,
                list_body(shapes, start, Seq::empty(), enclosed) == list_body(
                    shapes,
                    self@,
                    data(values@),
                    enclosed,
                ),
                forall|i: int| 0 <= i < values.len() ==> (#[trigger] values[i]).wf(),
            decreases tokens@.len() - self@,
        {
            let ghost before = self@;
            let ghost seen = data(values@);
            if enclosed {
                if let TokenKind::Delimiter(DelimiterKind::ListTerm, _) = &tokens[self.index] {
                    self.next();
                    return Ok(values);
                }
            }
            proof {
                lemma_value_advances(shapes, before);
            }
            match self.create_value(tokens) {
                Ok(value) => {
                    values.push(value);
                    proof {
                        assert(data(values@) =~= seen.push(value.datum()));
                    }
                },
                Err(e) => {
                    return Err(e);
                },
            }
        }
        Ok(values)
    }

    /// Reads the keys and values of a table's body from the cursor on.
    fn table_entries<'a>(&mut self, tokens: &[TokenKind<'a>], enclosed: bool) -> (r: Result<
        Table,
        ParseError,
    >)
        ensures
            table_outcome(r) == table_body(
                shapes_of(tokens@),
                old(self)@,
                Map::empty(),
                enclosed,
            ).outcome,
            final(self)@ == table_body(shapes_of(tokens@), old(self)@, Map::empty(), enclosed).next,
            r matches Ok(t) ==> t.wf(),
        decreases tokens@.len() - old(self)@, 1nat,
    {
        let ghost shapes = shapes_of(tokens@);
        let ghost start = self@;
        let mut values = Table::new();
        while self.index < tokens.len()
            invariant
                shapes == shapes_of(tokens@),
                start == old(self)@,
                start <= self@,
                table_body(shapes, start, Map::empty(), enclosed) == table_body(
                    shapes,
                    self@,
                    values@,
                    enclosed,
                ),
                values.wf(),
            decreases tokens@.len() - self@,
        {
            let ghost before = self@;
            if enclosed {
                if let TokenKind::Delimiter(DelimiterKind::TableTerm, _) = &tokens[self.index] {
                    self.next();
                    return Ok(values);
                }
            }
            let key = match self.create_key(tokens) {
                Ok(key) => key,
                Err(e) => {
                    return Err(e);
                },
            };
            proof {
                lemma_value_advances(shapes, before + 1);
            }
            let value = match self.create_value(tokens) {
                Ok(value) => value,
                Err(e) => {
                    return Err(e);
                },
            };
            values.insert(key, value);
        }
        Ok(values)
    }

    /// Reads the body of the list whose opening bracket the cursor has passed, through its
    /// closing bracket or to the end of the tokens.
    pub fn create_list<'a>(&mut self, tokens: &[TokenKind<'a>]) -> (r: Result<Value, ParseError>)
        ensures
            value_outcome(r) == as_list(
                list_body(shapes_of(tokens@), old(self)@, Seq::empty(), true),
            ).outcome,
            final(self)@ == list_body(shapes_of(tokens@), old(self)@, Seq::empty(), true).next,
            r matches Ok(v) ==> v.wf(),
        decreases tokens@.len() - old(self)@, 2nat,
    {
        match self.list_items(tokens, true) {
            Ok(items) => Ok(Value::List(items)),
            Err(e) => Err(e),
        }
    }

    /// Reads the body of the table whose opening brace the cursor has passed, through its
    /// closing brace or to the end of the tokens.
    pub fn create_table<'a>(&mut self, tokens: &[TokenKind<'a>]) -> (r: Result<Value, ParseError>)
        ensures
            value_outcome(r) == as_table(
                table_body(shapes_of(tokens@), old(self)@, Map::empty(), true),
            ).outcome,
            final(self)@ == table_body(shapes_of(tokens@), old(self)@, Map::empty(), true).next,
            r matches Ok(v) ==> v.wf(),
        decreases tokens@.len() - old(self)@, 2nat,
    {
        match self.table_entries(tokens, true) {
            Ok(table) => Ok(Value::Table(table)),
            Err(e) => Err(e),
        }
    }

    /// Reads a whole document from the cursor on.
    pub fn parse<'a>(&mut self, tokens: &[TokenKind<'a>]) -> (r: Result<Value, ParseError>)
        ensures
            value_outcome(r) == document(shapes_of(tokens@), old(self)@).outcome,
            final(self)@ == document(shapes_of(tokens@), old(self)@).next,
            r matches Ok(v) ==> v.wf(),
    {
        if self.index >= tokens.len() {
            return Err(ParseError::UnexpectedEndOfTokens);
        }
        match &tokens[self.index] {
            TokenKind::Delimiter(DelimiterKind::TablePrec, _) => {
                self.next();
                self.create_table(tokens)
            },
            TokenKind::Delimiter(DelimiterKind::ListPrec, _) => {
                self.next();
                self.create_list(tokens)
            },
            TokenKind::Identifier(IdentifierKind::String(_)) => {
                match self.table_entries(tokens, false) {
                    Ok(table) => Ok(Value::Table(table)),
                    Err(e) => Err(e),
                }
            },
            _ => {
                match self.list_items(tokens, false) {
                    Ok(items) => Ok(Value::List(items)),
                    Err(e) => Err(e),
                }
            },
        }
    }
}

impl Default for Parser {
    /// A parser that stands before the first token, as `new` gives it.
    fn default() -> (parser: Parser)
        ensures
            parser@ == 0,
    {
        Parser::new()
    }
}

} // verus!
