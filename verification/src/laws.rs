use crate::ascii::{
    BACKSLASH, BACKTICK, DIGIT_0, LINE_FEED, LIST_CLOSE, LIST_OPEN, MINUS, PLUS, POINT, QUOTE,
    SPACE, TABLE_CLOSE, TABLE_OPEN,
};
use crate::error::{Fault, LexError, LexErrorKind, LexFault, ParseFault};
use crate::grammar::{document, list_body, table_body, text_at, value_at};
use crate::lexer::scan_outcome;
use crate::number::{digits_start, is_decimal};
use crate::read;
use crate::scan::{
    digits_end, fault, is_blank, is_digit, is_letter, is_word, lemma_digits_end,
    lemma_digits_end_at, lemma_quote_stop, lemma_quote_stop_at, lemma_step_advances,
    lemma_template_stop_at, lemma_template_stop_bounds, lemma_word_end, lemma_word_end_at,
    number_step, piece, quote_stop, scan, step, word_end, word_false, word_null, word_true,
};
use crate::spacing::{
    boundary, is_filler, lemma_boundary_stays, lemma_scan_with_filler, scan_shapes,
};
use crate::text::{decoded, lemma_unescape_plain, unescape};
use crate::token::{lexemes, shapes, Cursor, Lexeme, Piece, Shape, Span, TokenKind};
use crate::value::Datum;
use vstd::prelude::*;
use vstd::utf8::{decode_utf8, encode_utf8, valid_utf8};

verus! {

/// Scanning is a function of the buffer and of where the scanner starts: two scans of the
/// same bytes from the same cursor give the same number of tokens, each pair of them alike
/// in kind, bytes and span, or they give the same failure.
pub proof fn law_scan_is_deterministic<'a, 'b>(
    source: Seq<u8>,
    start: Cursor,
    first: Result<Vec<TokenKind<'a>>, LexError>,
    second: Result<Vec<TokenKind<'b>>, LexError>,
)
    requires
        scan_outcome(first) == scan(source, start).outcome,
        scan_outcome(second) == scan(source, start).outcome,
    ensures
        first is Ok <==> second is Ok,
        first is Ok ==> {
            &&& first->Ok_0@.len() == second->Ok_0@.len()
            &&& forall|i: int|
                0 <= i < first->Ok_0@.len() ==> (#[trigger] first->Ok_0@[i])@ == second->Ok_0@[i]@
        },
        first is Err ==> first->Err_0@ == second->Err_0@,
{
    if first is Ok {
        let a = lexemes(first->Ok_0@);
        let b = lexemes(second->Ok_0@);
        assert(a == b);
        assert forall|i: int| 0 <= i < first->Ok_0@.len() implies (#[trigger] first->Ok_0@[i])@
            == second->Ok_0@[i]@ by {
            assert(a[i] == b[i]);
        }
    }
}

/// Parsing looks at the kinds and bytes of the tokens only: token sequences that differ in
/// nothing but their spans give the same document, or fail alike.
pub proof fn law_parse_ignores_spans(first: Seq<Lexeme>, second: Seq<Lexeme>, start: int)
    requires
        first.len() == second.len(),
        forall|i: int| 0 <= i < first.len() ==> (#[trigger] first[i]).shape() == second[i].shape(),
    ensures
        document(shapes(first), start) == document(shapes(second), start),
{
    assert(shapes(first) =~= shapes(second));
}

/// The text of a string or identifier token without a backslash is its bytes read as
/// UTF-8, and encodes back to exactly those bytes.
pub proof fn law_plain_text_round_trip(raw: Seq<u8>, i: int)
    requires
        !raw.contains(BACKSLASH),
        valid_utf8(raw),
    ensures
        decoded(raw) == raw,
        unescape(raw) == raw,
        text_at(raw, i) == Ok::<Seq<char>, ParseFault>(decode_utf8(raw)),
        encode_utf8(decode_utf8(raw)) == raw,
{
    lemma_unescape_plain(raw);
    vstd::utf8::decode_utf8_encode_utf8(raw);
}

/// A buffer that holds one string literal between the given delimiters.
pub open spec fn literal(delimiter: u8, body: Seq<u8>) -> Seq<u8> {
    seq![delimiter] + body + seq![delimiter]
}

/// The bytes can stand as they are between two of the given delimiters: they hold neither
/// the delimiter nor a backslash, nor, between double quotes, a line feed.
pub open spec fn plain_body(delimiter: u8, body: Seq<u8>) -> bool {
    &&& delimiter == QUOTE || delimiter == BACKTICK
    &&& !body.contains(delimiter)
    &&& !body.contains(BACKSLASH)
    &&& delimiter == QUOTE ==> !body.contains(LINE_FEED)
}

/// The document that one string makes: a list of it.
pub open spec fn one_string(text: Seq<char>) -> Datum {
    Datum::List(seq![Datum::String(text)])
}

/// The document that one key with a string makes: a table of the two.
pub open spec fn one_entry(key: Seq<char>, text: Seq<char>) -> Datum {
    Datum::Table(Map::<Seq<char>, Datum>::empty().insert(key, Datum::String(text)))
}

/// Wherever a plain string literal stands in a buffer, the scanner gives one string token
/// for it: the token holds exactly the bytes between the delimiters, none lost and neither
/// delimiter among them, also where there are none; its span is not empty; and the scanner
/// goes on behind the closing delimiter.
pub proof fn law_string_token_holds_its_body(
    src: Seq<u8>,
    cur: Cursor,
    delimiter: u8,
    body: Seq<u8>,
)
    requires
        plain_body(delimiter, body),
        0 <= cur.index,
        cur.index + body.len() + 2 <= src.len(),
        src.subrange(cur.index, cur.index + body.len() + 2) == literal(delimiter, body),
    ensures
        step(src, cur).outcome is Ok,
        step(src, cur).outcome->Ok_0 is Some,
        step(src, cur).outcome->Ok_0->Some_0 is Text,
        step(src, cur).outcome->Ok_0->Some_0->Text_0.bytes == body,
        step(src, cur).outcome->Ok_0->Some_0.shape() == Shape::Text(body),
        step(src, cur).outcome->Ok_0->Some_0->Text_0.span.start.index == cur.index + 1,
        step(src, cur).outcome->Ok_0->Some_0->Text_0.span.start.index < step(
            src,
            cur,
        ).outcome->Ok_0->Some_0->Text_0.span.end.index,
        step(src, cur).rest.index == cur.index + body.len() + 2,
{
    let i = cur.index;
    let n = body.len() as int;
    let part = src.subrange(i, i + n + 2);
    assert(src[i] == part[0]);
    assert(src[i + n + 1] == part[n + 1]);
    assert forall|k: int| i + 1 <= k < i + n + 1 implies #[trigger] src[k] == body[k - i - 1] by {
        assert(src[k] == part[k - i]);
    }
    if delimiter == QUOTE {
        lemma_quote_stop_at(src, i + 1, i + n + 1);
    } else {
        lemma_template_stop_at(src, cur.ahead(1), i + n + 1);
    }
    assert(src.subrange(i + 1, i + n + 1) =~= body);
}

/// A buffer that holds nothing but a plain string literal scans to one string token, and
/// the token holds exactly the bytes between the delimiters.
pub proof fn law_string_scans_to_its_body(delimiter: u8, body: Seq<u8>)
    requires
        plain_body(delimiter, body),
    ensures
        scan(literal(delimiter, body), Cursor::origin()).outcome is Ok,
        scan(literal(delimiter, body), Cursor::origin()).outcome->Ok_0.len() == 1,
        scan(literal(delimiter, body), Cursor::origin()).outcome->Ok_0[0] is Text,
        scan(literal(delimiter, body), Cursor::origin()).outcome->Ok_0[0]->Text_0.bytes == body,
        shapes(scan(literal(delimiter, body), Cursor::origin()).outcome->Ok_0) == seq![
            Shape::Text(body),
        ],
{
    let src = literal(delimiter, body);
    let origin = Cursor::origin();
    assert(src.subrange(0, src.len() as int) =~= src);
    law_string_token_holds_its_body(src, origin, delimiter, body);
    let s = step(src, origin);
    let token = s.outcome->Ok_0->Some_0;
    assert(scan(src, s.rest).outcome == Ok::<Seq<Lexeme>, LexFault>(Seq::empty()));
    let tokens = seq![token];
    assert(tokens + Seq::<Lexeme>::empty() =~= tokens);
    assert(scan(src, origin).outcome == Ok::<Seq<Lexeme>, LexFault>(tokens));
    assert(shapes(tokens) =~= seq![Shape::Text(body)]);
}

/// A plain string literal reads back byte for byte: a buffer that holds nothing but the
/// literal denotes the list of one string, and that string encodes to exactly the bytes
/// between the delimiters.
pub proof fn law_string_round_trip(delimiter: u8, body: Seq<u8>)
    requires
        plain_body(delimiter, body),
        valid_utf8(body),
    ensures
        read(literal(delimiter, body)) == Ok::<Datum, Fault>(one_string(decode_utf8(body))),
        encode_utf8(decode_utf8(body)) == body,
{
    law_string_scans_to_its_body(delimiter, body);
    law_plain_text_round_trip(body, 0);
    let shape = seq![Shape::Text(body)];
    let item = Datum::String(decode_utf8(body));
    let first = Seq::<Datum>::empty().push(item);
    assert(first =~= seq![item]);
    assert(value_at(shape, 0).next == 1);
    assert(list_body(shape, 1, first, false).outcome == Ok::<Seq<Datum>, ParseFault>(first));
    assert(list_body(shape, 0, Seq::empty(), false) == list_body(shape, 1, first, false));
}

/// Bytes below 128 are valid UTF-8.
proof fn lemma_ascii_is_utf8(s: Seq<u8>)
    requires
        forall|k: int| 0 <= k < s.len() ==> #[trigger] s[k] < 0x80,
    ensures
        valid_utf8(s),
    decreases s.len(),
{
    if s.len() > 0 {
        let b = s[0];
        assert(b < 0x80);
        assert((b & 0x7f) <= 0x7f) by (bit_vector);
        let rest = vstd::utf8::pop_first_scalar(s);
        assert(rest =~= s.subrange(1, s.len() as int));
        assert forall|k: int| 0 <= k < rest.len() implies #[trigger] rest[k] < 0x80 by {
            assert(rest[k] == s[k + 1]);
        }
        lemma_ascii_is_utf8(rest);
    }
}

/// A key with a plain string literal behind it reads back byte for byte: the buffer of an
/// identifier, a space and the literal denotes the table that binds the identifier to the
/// string between the delimiters, whatever that string is: empty, or with spaces, braces,
/// brackets, slashes or text beyond ASCII in it.
pub proof fn law_keyed_string_round_trip(key: Seq<u8>, delimiter: u8, body: Seq<u8>)
    requires
        identifier_text(key),
        plain_body(delimiter, body),
        valid_utf8(body),
    ensures
        valid_utf8(key),
        read(key + seq![SPACE] + literal(delimiter, body)) == Ok::<Datum, Fault>(
            one_entry(decode_utf8(key), decode_utf8(body)),
        ),
        encode_utf8(decode_utf8(body)) == body,
{
    let src = key + seq![SPACE] + literal(delimiter, body);
    let m = key.len() as int;
    let n = body.len() as int;
    let origin = Cursor::origin();
    assert(src.len() == m + n + 3);
    assert forall|k: int| 0 <= k < m implies is_word(#[trigger] src[k]) by {
        assert(src[k] == key[k]);
        assert(is_word(key[k]));
    }
    assert(src[m] == SPACE);
    assert forall|k: int| 0 <= k < key.len() implies #[trigger] key[k] < 0x80 && key[k]
        != BACKSLASH by {
        assert(is_word(key[k]));
    }
    lemma_ascii_is_utf8(key);
    lemma_word_end_at(src, 0, m);
    assert(src.subrange(0, m) =~= key);
    assert(src[0] == key[0]);
    let first = step(src, origin);
    let name = Lexeme::Identifier(piece(src, origin, origin.at(m)));
    assert(first.outcome == Ok::<Option<Lexeme>, LexFault>(Some(name)));
    assert(first.rest.index == m);
    let second = step(src, first.rest);
    assert(second.outcome == Ok::<Option<Lexeme>, LexFault>(None));
    assert(second.rest.index == m + 1);
    assert(src.subrange(m + 1, m + 1 + n + 2) =~= literal(delimiter, body));
    law_string_token_holds_its_body(src, second.rest, delimiter, body);
    let third = step(src, second.rest);
    let text = third.outcome->Ok_0->Some_0;
    assert(scan(src, third.rest).outcome == Ok::<Seq<Lexeme>, LexFault>(Seq::empty()));
    assert(seq![text] + Seq::<Lexeme>::empty() =~= seq![text]);
    assert(scan(src, second.rest).outcome == Ok::<Seq<Lexeme>, LexFault>(seq![text]));
    assert(Seq::<Lexeme>::empty() + seq![text] =~= seq![text]);
    assert(scan(src, first.rest).outcome == Ok::<Seq<Lexeme>, LexFault>(seq![text]));
    let tokens = seq![name, text];
    assert(seq![name] + seq![text] =~= tokens);
    assert(scan(src, origin).outcome == Ok::<Seq<Lexeme>, LexFault>(tokens));
    let shape = seq![Shape::Identifier(key), Shape::Text(body)];
    assert(shapes(tokens) =~= shape);
    law_plain_text_round_trip(key, 0);
    law_plain_text_round_trip(body, 1);
    let entry = Map::<Seq<char>, Datum>::empty().insert(
        decode_utf8(key),
        Datum::String(decode_utf8(body)),
    );
    assert(value_at(shape, 1).outcome == Ok::<Datum, ParseFault>(
        Datum::String(decode_utf8(body)),
    ));
    assert(value_at(shape, 1).next == 2);
    assert(table_body(shape, 2, entry, false).outcome == Ok::<
        Map<Seq<char>, Datum>,
        ParseFault,
    >(entry));
    assert(table_body(shape, 0, Map::empty(), false) == table_body(shape, 2, entry, false));
}

/// A missing closing quote is reported at the opening quote, wherever the string stands:
/// where neither a double quote nor a line feed follows the opening quote, the scanner
/// gives no token for the bytes up to the buffer's end, and the scan from there fails with
/// that report.
pub proof fn law_unterminated_string_is_reported_at_its_quote(src: Seq<u8>, cur: Cursor)
    requires
        0 <= cur.index < src.len(),
        src[cur.index] == QUOTE,
        forall|k: int|
            cur.index < k < src.len() ==> #[trigger] src[k] != QUOTE && src[k] != LINE_FEED,
    ensures
        step(src, cur).outcome == Err::<Option<Lexeme>, LexFault>(
            fault(LexErrorKind::UnterminatedString, cur),
        ),
        scan(src, cur).outcome == Err::<Seq<Lexeme>, LexFault>(
            fault(LexErrorKind::UnterminatedString, cur),
        ),
{
    lemma_quote_stop_open(src, cur.index + 1);
}

/// Where neither a double quote nor a line feed follows, a quoted string's body runs to
/// the buffer's end.
proof fn lemma_quote_stop_open(src: Seq<u8>, i: int)
    requires
        0 <= i <= src.len(),
        forall|k: int| i <= k < src.len() ==> #[trigger] src[k] != QUOTE && src[k] != LINE_FEED,
    ensures
        quote_stop(src, i) == src.len(),
    decreases src.len() - i,
{
    if i < src.len() {
        assert(src[i] != QUOTE && src[i] != LINE_FEED);
        if src[i] == BACKSLASH && i + 1 < src.len() && src[i + 1] != LINE_FEED {
            lemma_quote_stop_open(src, i + 2);
        } else {
            lemma_quote_stop_open(src, i + 1);
        }
    }
}

/// The span is not empty and lies inside the buffer.
pub open spec fn span_in(src: Seq<u8>, s: Span) -> bool {
    0 <= s.start.index < s.end.index <= src.len()
}

/// The bytes of the buffer that the span takes in.
pub open spec fn covered(src: Seq<u8>, s: Span) -> Seq<u8> {
    src.subrange(s.start.index, s.end.index)
}

/// The text of an identifier token: a letter, then letters, digits and underscores, and
/// none of the three reserved words.
pub open spec fn identifier_text(s: Seq<u8>) -> bool {
    &&& s.len() >= 1
    &&& is_letter(s[0])
    &&& forall|k: int| 0 <= k < s.len() ==> is_word(#[trigger] s[k])
    &&& s != word_true()
    &&& s != word_false()
    &&& s != word_null()
}

/// The text of a number token: a digit or a sign, then digits and at most one point, which
/// has a digit behind it.
pub open spec fn number_text(s: Seq<u8>) -> bool {
    &&& s.len() >= 1
    &&& (is_digit(s[0]) || s[0] == PLUS || s[0] == MINUS)
    &&& forall|k: int| 1 <= k < s.len() ==> is_digit(#[trigger] s[k]) || s[k] == POINT
    &&& forall|j: int, k: int|
        1 <= j < k < s.len() && #[trigger] s[j] == POINT ==> #[trigger] s[k] != POINT
    &&& forall|k: int|
        1 <= k < s.len() && #[trigger] s[k] == POINT ==> k + 1 < s.len() && is_digit(s[k + 1])
}

/// The piece of a string token: its bytes stand between two double quotes and hold no
/// line feed, or they stand between two backticks; its span is that of the bytes or, where
/// there are none, of the closing delimiter.
pub open spec fn text_in(src: Seq<u8>, p: Piece) -> bool {
    let first = p.span.start.index;
    let close = first + p.bytes.len();
    &&& 1 <= first
    &&& close < src.len()
    &&& p.bytes == src.subrange(first, close)
    &&& p.span.end.index == if p.bytes.len() > 0 {
        close
    } else {
        close + 1
    }
    &&& src[first - 1] == src[close]
    &&& src[close] == QUOTE || src[close] == BACKTICK
    &&& src[close] == QUOTE ==> !p.bytes.contains(LINE_FEED)
}

/// What holds of every token that scanning `src` gives: its span is not empty and lies
/// inside the buffer, and takes in what the token is.
pub open spec fn lexeme_in(src: Seq<u8>, t: Lexeme) -> bool {
    &&& span_in(src, t.span())
    &&& match t {
        Lexeme::Identifier(p) => p.bytes == covered(src, p.span) && identifier_text(p.bytes),
        Lexeme::Number(p) => p.bytes == covered(src, p.span) && number_text(p.bytes),
        Lexeme::Text(p) => text_in(src, p),
        Lexeme::True(s) => covered(src, s) == word_true(),
        Lexeme::False(s) => covered(src, s) == word_false(),
        Lexeme::Null(s) => covered(src, s) == word_null(),
        Lexeme::TableOpen(s) => covered(src, s) == seq![TABLE_OPEN],
        Lexeme::TableClose(s) => covered(src, s) == seq![TABLE_CLOSE],
        Lexeme::ListOpen(s) => covered(src, s) == seq![LIST_OPEN],
        Lexeme::ListClose(s) => covered(src, s) == seq![LIST_CLOSE],
    }
}

proof fn lemma_number_step_text(src: Seq<u8>, cur: Cursor)
    requires
        0 <= cur.index < src.len(),
        is_digit(src[cur.index]) || src[cur.index] == PLUS || src[cur.index] == MINUS,
        number_step(src, cur).outcome is Ok,
    ensures
        lexeme_in(src, number_step(src, cur).outcome->Ok_0->Some_0),
{
    let i = cur.index;
    let whole = if src[i] == DIGIT_0 {
        i + 1
    } else {
        digits_end(src, i + 1)
    };
    lemma_digits_end(src, i + 1);
    let p = number_step(src, cur).outcome->Ok_0->Some_0->Number_0;
    let s = p.bytes;
    if whole < src.len() && src[whole] == POINT {
        lemma_digits_end(src, whole + 1);
        let end = digits_end(src, whole + 1);
        assert(s == src.subrange(i, end));
        assert forall|k: int| 1 <= k < s.len() implies is_digit(#[trigger] s[k]) || s[k]
            == POINT by {
            assert(s[k] == src[i + k]);
        }
        assert forall|j: int, k: int|
            1 <= j < k < s.len() && #[trigger] s[j] == POINT implies #[trigger] s[k] != POINT by {
            assert(s[j] == src[i + j]);
            assert(s[k] == src[i + k]);
            if i + j < whole {
                assert(is_digit(src[i + j]));
            }
            assert(is_digit(src[i + k]));
        }
        assert forall|k: int| 1 <= k < s.len() && #[trigger] s[k] == POINT implies k + 1 < s.len()
            && is_digit(s[k + 1]) by {
            assert(s[k] == src[i + k]);
            if i + k != whole {
                assert(is_digit(src[i + k]));
            }
            assert(s[k + 1] == src[i + k + 1]);
        }
    } else {
        assert(s == src.subrange(i, whole));
        assert forall|k: int| 1 <= k < s.len() implies is_digit(#[trigger] s[k]) || s[k]
            == POINT by {
            assert(s[k] == src[i + k]);
        }
        assert forall|j: int, k: int|
            1 <= j < k < s.len() && #[trigger] s[j] == POINT implies #[trigger] s[k] != POINT by {
            assert(s[j] == src[i + j]);
            assert(is_digit(src[i + j]));
        }
        assert forall|k: int| 1 <= k < s.len() && #[trigger] s[k] == POINT implies k + 1 < s.len()
            && is_digit(s[k + 1]) by {
            assert(s[k] == src[i + k]);
            assert(is_digit(src[i + k]));
        }
    }
}

/// What one dispatch gives, where it gives a token, is well formed, and stands between
/// where the dispatch began and where it ended.
pub proof fn lemma_step_lexeme(src: Seq<u8>, cur: Cursor)
    requires
        0 <= cur.index < src.len(),
        step(src, cur).outcome is Ok,
        step(src, cur).outcome->Ok_0 is Some,
    ensures
        lexeme_in(src, step(src, cur).outcome->Ok_0->Some_0),
        cur.index <= step(src, cur).outcome->Ok_0->Some_0.span().start.index,
        step(src, cur).outcome->Ok_0->Some_0.span().end.index <= step(src, cur).rest.index,
{
    let b = src[cur.index];
    let i = cur.index;
    let t = step(src, cur).outcome->Ok_0->Some_0;
    if b == TABLE_OPEN || b == TABLE_CLOSE || b == LIST_OPEN || b == LIST_CLOSE {
        assert(src.subrange(i, i + 1) =~= seq![b]);
    } else if b == LINE_FEED || is_blank(b) {
    } else if is_letter(b) {
        lemma_word_end(src, i);
        let end = word_end(src, i);
        let s = src.subrange(i, end);
        assert(s[0] == b);
        assert forall|k: int| 0 <= k < s.len() implies is_word(#[trigger] s[k]) by {
            assert(s[k] == src[i + k]);
        }
    } else if b == QUOTE {
        lemma_quote_stop(src, i + 1);
        let end = quote_stop(src, i + 1);
        let s = src.subrange(i + 1, end);
        assert forall|k: int| 0 <= k < s.len() implies #[trigger] s[k] != LINE_FEED by {
            assert(s[k] == src[i + 1 + k]);
        }
    } else if b == BACKTICK {
        lemma_template_stop_bounds(src, cur.ahead(1));
    } else if is_digit(b) || b == PLUS || b == MINUS {
        lemma_number_step_text(src, cur);
        lemma_step_advances(src, cur);
    } else {
    }
}

/// Every token that a scan gives has a span that is not empty and lies inside the buffer,
/// and is what its span takes in: a delimiter is its byte, a reserved word its letters, an
/// identifier a word that is not reserved, a number a text with at most one point and a
/// digit behind it; a string holds the bytes between its delimiters, with no line feed
/// between double quotes, and has their span or, where there are none, that of the
/// closing delimiter.
pub proof fn law_tokens_are_well_formed(src: Seq<u8>, cur: Cursor)
    requires
        scan(src, cur).outcome is Ok,
    ensures
        forall|i: int|
            0 <= i < scan(src, cur).outcome->Ok_0.len() ==> lexeme_in(
                src,
                #[trigger] scan(src, cur).outcome->Ok_0[i],
            ),
    decreases src.len() - cur.index,
{
    if 0 <= cur.index < src.len() {
        let s = step(src, cur);
        lemma_step_advances(src, cur);
        law_tokens_are_well_formed(src, s.rest);
        if s.outcome->Ok_0 is Some {
            lemma_step_lexeme(src, cur);
        }
    }
}

/// The spans of a scan come in the order of the buffer and do not overlap: every token
/// starts at or behind the cursor that the scan began at, and each token ends before the
/// next one starts, or where it starts.
pub proof fn law_spans_are_in_order(src: Seq<u8>, cur: Cursor)
    requires
        0 <= cur.index,
        scan(src, cur).outcome is Ok,
    ensures
        forall|i: int|
            0 <= i < scan(src, cur).outcome->Ok_0.len() ==> cur.index <= (#[trigger] scan(
                src,
                cur,
            ).outcome->Ok_0[i]).span().start.index,
        forall|i: int, j: int|
            0 <= i < j < scan(src, cur).outcome->Ok_0.len() ==> (#[trigger] scan(
                src,
                cur,
            ).outcome->Ok_0[i]).span().end.index <= (#[trigger] scan(
                src,
                cur,
            ).outcome->Ok_0[j]).span().start.index,
    decreases src.len() - cur.index,
{
    if cur.index < src.len() {
        let s = step(src, cur);
        lemma_step_advances(src, cur);
        law_spans_are_in_order(src, s.rest);
        law_tokens_are_well_formed(src, s.rest);
        let more = scan(src, s.rest).outcome->Ok_0;
        let all = scan(src, cur).outcome->Ok_0;
        if s.outcome->Ok_0 is Some {
            lemma_step_lexeme(src, cur);
            let t = s.outcome->Ok_0->Some_0;
            assert(all =~= seq![t] + more);
            assert(all[0] == t);
            assert forall|i: int| 1 <= i < all.len() implies all[i] == more[i - 1] by {}
            assert forall|i: int| 0 <= i < all.len() implies cur.index <= (#[trigger] all[i]).span(
            ).start.index by {
                if i >= 1 {
                    assert(all[i] == more[i - 1]);
                }
            }
            assert forall|i: int, j: int| 0 <= i < j < all.len() implies (#[trigger] all[i]).span(
            ).end.index <= (#[trigger] all[j]).span().start.index by {
                assert(all[j] == more[j - 1]);
                if i >= 1 {
                    assert(all[i] == more[i - 1]);
                }
            }
        } else {
            assert(all =~= more);
        }
    }
}

/// Two readings are the same in all but places: they give the same document, or parsing
/// fails for the same reason at the same token, or scanning fails in the same way.
pub open spec fn same_reading(first: Result<Datum, Fault>, second: Result<Datum, Fault>) -> bool {
    match (first, second) {
        (Ok(x), Ok(y)) => x == y,
        (Err(Fault::Parse(e, _)), Err(Fault::Parse(f, _))) => e == f,
        (Err(Fault::Lex(e)), Err(Fault::Lex(f))) => e.kind == f.kind,
        _ => false,
    }
}

/// Buffers whose tokens have the same kinds and bytes, or that fail to scan in the same
/// way, read the same.
pub proof fn law_same_shapes_read_the_same(first: Seq<u8>, second: Seq<u8>)
    requires
        scan_shapes(first, Cursor::origin()) == scan_shapes(second, Cursor::origin()),
    ensures
        same_reading(read(first), read(second)),
{
}

/// Blank space and comments between tokens change no document. Where `filler` scans to
/// nothing (it is blank space, line feeds and whole comments) and `before` ends where a
/// dispatch of the scanner begins in `before + behind` (at a token's end, or at the very
/// start or end), the buffer with the filler put in there gives tokens of the same kinds
/// and bytes as the buffer without it, or fails to scan in the same way; and the two
/// buffers read the same.
pub proof fn law_filler_changes_no_document(before: Seq<u8>, filler: Seq<u8>, behind: Seq<u8>)
    requires
        is_filler(filler),
        boundary(before + behind, Cursor::origin(), before.len() as int),
    ensures
        scan_shapes(before + filler + behind, Cursor::origin()) == scan_shapes(
            before + behind,
            Cursor::origin(),
        ),
        same_reading(read(before + filler + behind), read(before + behind)),
{
    lemma_scan_with_filler(before, filler, behind, Cursor::origin(), Cursor::origin());
}

/// Filler to be put into a buffer at an offset.
pub struct Insertion {
    pub at: int,
    pub filler: Seq<u8>,
}

/// The buffer with the filler put in.
pub open spec fn put_in(src: Seq<u8>, one: Insertion) -> Seq<u8> {
    src.subrange(0, one.at) + one.filler + src.subrange(one.at, src.len() as int)
}

/// The buffer after the insertions, made one after the other.
pub open spec fn spread(src: Seq<u8>, steps: Seq<Insertion>) -> Seq<u8>
    decreases steps.len(),
{
    if steps.len() == 0 {
        src
    } else {
        spread(put_in(src, steps[0]), steps.drop_first())
    }
}

/// Each insertion puts filler where a dispatch of the scanner begins in the buffer as it
/// stands when the insertion is made: before, between or behind its tokens, blank space
/// and comments, and never inside one.
pub open spec fn between_tokens(src: Seq<u8>, steps: Seq<Insertion>) -> bool
    decreases steps.len(),
{
    steps.len() == 0 || {
        &&& 0 <= steps[0].at <= src.len()
        &&& is_filler(steps[0].filler)
        &&& boundary(src, Cursor::origin(), steps[0].at)
        &&& between_tokens(put_in(src, steps[0]), steps.drop_first())
    }
}

/// Any number of insertions of blank space and comments between tokens change no token's
/// kind or bytes, add no token and lose none, and so change no document, at any depth:
/// the buffer after them reads the same as the buffer before.
pub proof fn law_fillers_change_no_document(src: Seq<u8>, steps: Seq<Insertion>)
    requires
        between_tokens(src, steps),
    ensures
        scan_shapes(spread(src, steps), Cursor::origin()) == scan_shapes(src, Cursor::origin()),
        same_reading(read(spread(src, steps)), read(src)),
    decreases steps.len(),
{
    if steps.len() > 0 {
        let one = steps[0];
        let before = src.subrange(0, one.at);
        let behind = src.subrange(one.at, src.len() as int);
        assert(before + behind =~= src);
        law_filler_changes_no_document(before, one.filler, behind);
        law_fillers_change_no_document(put_in(src, one), steps.drop_first());
    }
}

/// The insertions put filler where a dispatch of the scanner begins in `src` itself
/// (before, between or behind its tokens, blank space and comments), and are given from
/// the back of the buffer to its front, so that each offset is still one of `src`.
pub open spec fn between_tokens_of(src: Seq<u8>, steps: Seq<Insertion>) -> bool {
    &&& forall|i: int|
        0 <= i < steps.len() ==> {
            &&& 0 <= (#[trigger] steps[i]).at <= src.len()
            &&& is_filler(steps[i].filler)
            &&& boundary(src, Cursor::origin(), steps[i].at)
        }
    &&& forall|i: int, j: int|
        0 <= i < j < steps.len() ==> (#[trigger] steps[j]).at <= (#[trigger] steps[i]).at
}

/// Blank space and comments put between the tokens of a buffer, at any number of places
/// and in any amount, change no token's kind or bytes, add no token and lose none: the
/// buffer with them reads the same as the buffer without, at any depth of nesting.
pub proof fn law_spread_buffer_reads_the_same(src: Seq<u8>, steps: Seq<Insertion>)
    requires
        between_tokens_of(src, steps),
    ensures
        between_tokens(src, steps),
        scan_shapes(spread(src, steps), Cursor::origin()) == scan_shapes(src, Cursor::origin()),
        same_reading(read(spread(src, steps)), read(src)),
{
    lemma_between_tokens(src, steps);
    law_fillers_change_no_document(src, steps);
}

/// Insertions between the tokens of a buffer, made from its back to its front, are each
/// made between the tokens of the buffer as it then stands.
proof fn lemma_between_tokens(src: Seq<u8>, steps: Seq<Insertion>)
    requires
        between_tokens_of(src, steps),
    ensures
        between_tokens(src, steps),
    decreases steps.len(),
{
    if steps.len() > 0 {
        let one = steps[0];
        let rest = steps.drop_first();
        let before = src.subrange(0, one.at);
        let behind = src.subrange(one.at, src.len() as int);
        let next = put_in(src, one);
        assert(before + behind =~= src);
        assert forall|i: int| 0 <= i < rest.len() implies {
            &&& 0 <= (#[trigger] rest[i]).at <= next.len()
            &&& is_filler(rest[i].filler)
            &&& boundary(next, Cursor::origin(), rest[i].at)
        } by {
            assert(rest[i] == steps[i + 1]);
            assert(steps[i + 1].at <= steps[0].at);
            lemma_boundary_stays(
                before,
                one.filler,
                behind,
                Cursor::origin(),
                Cursor::origin(),
                rest[i].at,
            );
        }
        assert forall|i: int, j: int| 0 <= i < j < rest.len() implies (#[trigger] rest[j]).at <= (
        #[trigger] rest[i]).at by {
            assert(rest[i] == steps[i + 1]);
            assert(rest[j] == steps[j + 1]);
        }
        lemma_between_tokens(next, rest);
    }
}

/// A number token with a point always denotes a decimal number: whatever the scanner
/// gives as a number and holds a point, the parser takes.
pub proof fn law_scanned_decimal_is_valid(s: Seq<u8>)
    requires
        number_text(s),
        s.contains(POINT),
    ensures
        is_decimal(s),
{
    let at = choose|k: int| 0 <= k < s.len() && s[k] == POINT;
    let start = digits_start(s);
    assert(1 <= at);
    assert forall|k: int| start <= k < at implies is_digit(#[trigger] s[k]) by {
        if k >= 1 {
            assert(is_digit(s[k]) || s[k] == POINT);
            if s[k] == POINT {
                assert(s[at] != POINT);
            }
        }
    }
    lemma_digits_end_at(s, start, at);
    assert forall|k: int| at + 1 <= k < s.len() implies is_digit(#[trigger] s[k]) by {
        assert(is_digit(s[k]) || s[k] == POINT);
        assert(s[at] == POINT);
    }
    assert(at + 1 < s.len() && is_digit(s[at + 1]));
    lemma_digits_end_at(s, at + 1, s.len() as int);
}

} // verus!
