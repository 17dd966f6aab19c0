//! A reader for MCL, a small notation for configuration data: tables `{ key value ... }`,
//! lists `[ value ... ]`, quoted and template strings, bare words, numbers, `true`, `false`,
//! `null`, and line and block comments.
//!
//! Reading goes in two passes. The scanner (`lexer`) turns a buffer into tokens; what it
//! gives is stated in `scan`. The tree builder (`parser`) turns tokens into a `Value`; what
//! it gives is stated in `grammar`. `from_str` and `from_slice` run both. What holds of
//! them beyond their contracts is proved in `laws`, on the ground that `spacing` lays for
//! blank space and comments.

use vstd::prelude::*;

pub mod ascii;
pub mod error;
pub mod grammar;
pub mod laws;
pub mod lexer;
pub mod number;
pub mod parser;
pub mod scan;
pub mod spacing;
pub mod text;
pub mod token;
pub mod value;

pub use crate::error::{Error, LexError, ParseError};
pub use crate::lexer::Lexer;
pub use crate::parser::Parser;
pub use crate::value::{Table, Value};

use crate::error::{place, Fault};
use crate::grammar::document;
use crate::scan::scan;
use crate::token::{shapes, Cursor};
use crate::value::Datum;
use vstd::string::StringSliceAdditionalSpecFns;

verus! {

/// What a buffer denotes: the document that its tokens make, or the first failure of
/// scanning or, where scanning succeeds, of parsing with the place where it lies.
pub open spec fn read(source: Seq<u8>) -> Result<Datum, Fault> {
    match scan(source, Cursor::origin()).outcome {
        Ok(tokens) => match document(shapes(tokens), 0).outcome {
            Ok(d) => Ok(d),
            Err(e) => Err(Fault::Parse(e, place(tokens, e))),
        },
        Err(e) => Err(Fault::Lex(e)),
    }
}

/// What the result of reading a buffer is in the terms of `read`.
pub open spec fn read_outcome(r: Result<Value, Error>) -> Result<Datum, Fault> {
    match r {
        Ok(v) => Ok(v.datum()),
        Err(e) => Err(e@),
    }
}

/// Reads the document that the bytes hold. The buffer must be short enough for the
/// position behind its last byte to be counted in a machine word.
pub fn from_slice(v: &[u8]) -> (r: Result<Value, Error>)
    requires
        v@.len() < usize::MAX,
    ensures
        read_outcome(r) == read(v@),
        r matches Ok(value) ==> value.wf(),
{
    let mut lexer = Lexer::new();
    let tokens = match lexer.tokenize(v) {
        Ok(tokens) => tokens,
        Err(e) => {
            return Err(Error::Lex(e));
        },
    };
    let mut parser = Parser::new();
    match parser.parse(tokens.as_slice()) {
        Ok(output) => Ok(output),
        Err(e) => {
            let at = e.position(tokens.as_slice());
            Err(Error::Parse(e, at))
        },
    }
}

/// Reads the document that the text holds, as `from_slice` reads its bytes.
pub fn from_str(v: &str) -> (r: Result<Value, Error>)
    requires
        v.spec_bytes().len() < usize::MAX,
    ensures
        read_outcome(r) == read(v.spec_bytes()),
        r matches Ok(value) ==> value.wf(),
{
    from_slice(v.as_bytes())
}

} // verus!
