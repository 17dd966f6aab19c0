use crate::ascii::POINT;
use crate::error::{Container, ParseFault};
use crate::number::{integer_of, is_decimal};
use crate::text::decoded;
use crate::token::Shape;
use crate::value::Datum;
use vstd::prelude::*;
use vstd::utf8::{decode_utf8, valid_utf8};

verus! {

/// What reading from some token on gives: what was read, or the failure; and the index of
/// the token that reading stopped before.
pub struct Parsed<T> {
    pub outcome: Result<T, ParseFault>,
    pub next: int,
}

/// The text of the string or identifier token at `i` whose bytes are `raw`: the bytes with
/// their escapes replaced, read as UTF-8.
pub open spec fn text_at(raw: Seq<u8>, i: int) -> Result<Seq<char>, ParseFault> {
    if valid_utf8(decoded(raw)) {
        Ok(decode_utf8(decoded(raw)))
    } else {
        Err(ParseFault::InvalidEncoding(i))
    }
}

/// The number of the number token at `i` whose bytes are `raw`: a decimal number where
/// they hold a point, and a whole number else.
pub open spec fn number_at(raw: Seq<u8>, i: int) -> Result<Datum, ParseFault> {
    if raw.contains(POINT) {
        if is_decimal(raw) {
            Ok(Datum::Float(raw))
        } else {
            Err(ParseFault::NumberFormat(i))
        }
    } else {
        match integer_of(raw) {
            Some(v) => Ok(Datum::Integer(v)),
            None => Err(ParseFault::NumberFormat(i)),
        }
    }
}

/// Reads the key at `i`: a string or an identifier.
pub open spec fn key_at(tokens: Seq<Shape>, i: int) -> Parsed<Seq<char>> {
    if 0 <= i < tokens.len() {
        match tokens[i] {
            Shape::Text(raw) | Shape::Identifier(raw) => match text_at(raw, i) {
                Ok(key) => Parsed { outcome: Ok(key), next: i + 1 },
                Err(e) => Parsed { outcome: Err(e), next: i },
            },
            _ => Parsed { outcome: Err(ParseFault::InvalidKey(i)), next: i },
        }
    } else {
        Parsed { outcome: Err(ParseFault::ExpectedKey), next: i }
    }
}

/// The index that a container's body goes on from after the value that was read from `i`
/// on, among `len` tokens, and ended before `next`. A value takes one token at least and
/// none behind the last, so this is `next`.
pub open spec fn onward(i: int, next: int, len: nat) -> int {
    if i < next <= len {
        next
    } else {
        i + 1
    }
}

/// Reads the value that starts at `i`. A failure inside a nested container is wrapped with
/// the container's kind.
pub open spec fn value_at(tokens: Seq<Shape>, i: int) -> Parsed<Datum>
    decreases tokens.len() - i, 0nat,
{
    if 0 <= i < tokens.len() {
        match tokens[i] {
            Shape::True => Parsed { outcome: Ok(Datum::Boolean(true)), next: i + 1 },
            Shape::False => Parsed { outcome: Ok(Datum::Boolean(false)), next: i + 1 },
            Shape::Null => Parsed { outcome: Ok(Datum::Null), next: i + 1 },
            Shape::Text(raw) => match text_at(raw, i) {
                Ok(s) => Parsed { outcome: Ok(Datum::String(s)), next: i + 1 },
                Err(e) => Parsed { outcome: Err(e), next: i },
            },
            Shape::Number(raw) => match number_at(raw, i) {
                Ok(n) => Parsed { outcome: Ok(n), next: i + 1 },
                Err(e) => Parsed { outcome: Err(e), next: i },
            },
            Shape::TableOpen => {
                let body = table_body(tokens, i + 1, Map::empty(), true);
                match body.outcome {
                    Ok(m) => Parsed { outcome: Ok(Datum::Table(m)), next: body.next },
                    Err(e) => Parsed {
                        outcome: Err(
                            ParseFault::NestedContainerFailure(Container::Table, Box::new(e)),
                        ),
                        next: body.next,
                    },
                }
            },
            Shape::ListOpen => {
                let body = list_body(tokens, i + 1, Seq::empty(), true);
                match body.outcome {
                    Ok(l) => Parsed { outcome: Ok(Datum::List(l)), next: body.next },
                    Err(e) => Parsed {
                        outcome: Err(
                            ParseFault::NestedContainerFailure(Container::List, Box::new(e)),
                        ),
                        next: body.next,
                    },
                }
            },
            _ => Parsed { outcome: Err(ParseFault::InvalidValue(i)), next: i },
        }
    } else {
        Parsed { outcome: Err(ParseFault::UnexpectedEndOfTokens), next: i }
    }
}

/// Reads keys and values from `i` on into `acc`, a later value for a key replacing the
/// earlier one, until the tokens end or, where the body is `enclosed`, a closing brace
/// stands where a key would: the brace is taken and ends the body. Where the tokens end
/// first, the body ends there as well.
pub open spec fn table_body(
    tokens: Seq<Shape>,
    i: int,
    acc: Map<Seq<char>, Datum>,
    enclosed: bool,
) -> Parsed<Map<Seq<char>, Datum>>
    decreases tokens.len() - i, 1nat,
{
    if 0 <= i < tokens.len() {
        if enclosed && tokens[i] is TableClose {
            Parsed { outcome: Ok(acc), next: i + 1 }
        } else {
            let key = key_at(tokens, i);
            match key.outcome {
                Ok(k) => {
                    let value = value_at(tokens, i + 1);
                    match value.outcome {
                        Ok(v) => table_body(
                            tokens,
                            onward(i, value.next, tokens.len()),
                            acc.insert(k, v),
                            enclosed,
                        ),
                        Err(e) => Parsed { outcome: Err(e), next: value.next },
                    }
                },
                Err(e) => Parsed { outcome: Err(e), next: key.next },
            }
        }
    } else {
        Parsed { outcome: Ok(acc), next: i }
    }
}

/// Reads values from `i` on and puts them behind `acc`, until the tokens end or, where the
/// body is `enclosed`, a closing bracket stands where a value would: the bracket is taken
/// and ends the body. Where the tokens end first, the body ends there as well.
pub open spec fn list_body(tokens: Seq<Shape>, i: int, acc: Seq<Datum>, enclosed: bool) -> Parsed<
    Seq<Datum>,
>
    decreases tokens.len() - i, 1nat,
{
    if 0 <= i < tokens.len() {
        if enclosed && tokens[i] is ListClose {
            Parsed { outcome: Ok(acc), next: i + 1 }
        } else {
            let value = value_at(tokens, i);
            match value.outcome {
                Ok(v) => list_body(
                    tokens,
                    onward(i, value.next, tokens.len()),
                    acc.push(v),
                    enclosed,
                ),
                Err(e) => Parsed { outcome: Err(e), next: value.next },
            }
        }
    } else {
        Parsed { outcome: Ok(acc), next: i }
    }
}

/// Reads a whole document from `i` on. The token at `i` decides what it is: an opening
/// brace or bracket starts a table or a list that ends with its closing one, whatever
/// follows; an identifier makes all the tokens the body of a table; any other token makes
/// them the body of a list.
pub open spec fn document(tokens: Seq<Shape>, i: int) -> Parsed<Datum> {
    if 0 <= i < tokens.len() {
        match tokens[i] {
            Shape::TableOpen => as_table(table_body(tokens, i + 1, Map::empty(), true)),
            Shape::ListOpen => as_list(list_body(tokens, i + 1, Seq::empty(), true)),
            Shape::Identifier(_) => as_table(table_body(tokens, i, Map::empty(), false)),
            _ => as_list(list_body(tokens, i, Seq::empty(), false)),
        }
    } else {
        Parsed { outcome: Err(ParseFault::UnexpectedEndOfTokens), next: i }
    }
}

/// A table's body as the table that it makes.
pub open spec fn as_table(body: Parsed<Map<Seq<char>, Datum>>) -> Parsed<Datum> {
    match body.outcome {
        Ok(m) => Parsed { outcome: Ok(Datum::Table(m)), next: body.next },
        Err(e) => Parsed { outcome: Err(e), next: body.next },
    }
}

/// A list's body as the list that it makes.
pub open spec fn as_list(body: Parsed<Seq<Datum>>) -> Parsed<Datum> {
    match body.outcome {
        Ok(l) => Parsed { outcome: Ok(Datum::List(l)), next: body.next },
        Err(e) => Parsed { outcome: Err(e), next: body.next },
    }
}

/// Reading a value stops inside the tokens and, where it succeeds, behind where it began.
pub proof fn lemma_value_advances(tokens: Seq<Shape>, i: int)
    requires
        0 <= i,
    ensures
        i <= value_at(tokens, i).next,
        value_at(tokens, i).next <= tokens.len() || value_at(tokens, i).next == i,
        value_at(tokens, i).outcome is Ok ==> i < value_at(tokens, i).next <= tokens.len(),
    decreases tokens.len() - i, 0nat,
{
    if i < tokens.len() {
        match tokens[i] {
            Shape::TableOpen => {
                lemma_table_advances(tokens, i + 1, Map::empty(), true);
            },
            Shape::ListOpen => {
                lemma_list_advances(tokens, i + 1, Seq::empty(), true);
            },
            _ => {},
        }
    }
}

/// Reading a table's body stops inside the tokens and not before where it began.
pub proof fn lemma_table_advances(
    tokens: Seq<Shape>,
    i: int,
    acc: Map<Seq<char>, Datum>,
    enclosed: bool,
)
    requires
        0 <= i,
    ensures
        i <= table_body(tokens, i, acc, enclosed).next,
        table_body(tokens, i, acc, enclosed).next <= tokens.len() || table_body(
            tokens,
            i,
            acc,
            enclosed,
        ).next == i,
    decreases tokens.len() - i, 1nat,
{
    if i < tokens.len() {
        if enclosed && tokens[i] is TableClose {
        } else {
            let key = key_at(tokens, i);
            if let Ok(k) = key.outcome {
                lemma_value_advances(tokens, i + 1);
                let value = value_at(tokens, i + 1);
                if let Ok(v) = value.outcome {
                    lemma_table_advances(tokens, value.next, acc.insert(k, v), enclosed);
                }
            }
        }
    }
}

/// Reading a list's body stops inside the tokens and not before where it began.
pub proof fn lemma_list_advances(tokens: Seq<Shape>, i: int, acc: Seq<Datum>, enclosed: bool)
    requires
        0 <= i,
    ensures
        i <= list_body(tokens, i, acc, enclosed).next,
        list_body(tokens, i, acc, enclosed).next <= tokens.len() || list_body(
            tokens,
            i,
            acc,
            enclosed,
        ).next == i,
    decreases tokens.len() - i, 1nat,
{
    if i < tokens.len() {
        if enclosed && tokens[i] is ListClose {
        } else {
            lemma_value_advances(tokens, i);
            let value = value_at(tokens, i);
            if let Ok(v) = value.outcome {
                lemma_list_advances(tokens, value.next, acc.push(v), enclosed);
            }
        }
    }
}

} // verus!
