use crate::ascii::{
    BACKSLASH, BACKTICK, CARRIAGE_RETURN, DIGIT_0, DIGIT_9, LINE_FEED, LIST_CLOSE, LIST_OPEN,
    LOWER_A, LOWER_E, LOWER_F, LOWER_L, LOWER_N, LOWER_R, LOWER_S, LOWER_T, LOWER_U, LOWER_Z,
    MINUS, PLUS, POINT, QUOTE, SLASH, SPACE, STAR, TAB, TABLE_CLOSE, TABLE_OPEN, UNDERSCORE,
    UPPER_A, UPPER_Z,
};
use crate::error::{LexErrorKind, LexFault};
use crate::token::{Cursor, Lexeme, Piece, Span};
use vstd::prelude::*;

verus! {

/// A letter of the Latin alphabet, in either case.
pub open spec fn is_letter(b: u8) -> bool {
    (LOWER_A <= b && b <= LOWER_Z) || (UPPER_A <= b && b <= UPPER_Z)
}

/// One of the ten digits.
pub open spec fn is_digit(b: u8) -> bool {
    DIGIT_0 <= b && b <= DIGIT_9
}

/// A byte that may continue an identifier.
pub open spec fn is_word(b: u8) -> bool {
    is_letter(b) || is_digit(b) || b == UNDERSCORE
}

/// A byte that is skipped between tokens without starting a new line.
pub open spec fn is_blank(b: u8) -> bool {
    b == SPACE || b == TAB || b == CARRIAGE_RETURN
}

impl Cursor {
    /// The cursor of a lexer that has read nothing.
    pub open spec fn origin() -> Cursor {
        Cursor { line: 1, column: 1, index: 0 }
    }

    /// The cursor `n` bytes further on the same line.
    pub open spec fn ahead(self, n: int) -> Cursor {
        Cursor { line: self.line, column: self.column + n, index: self.index + n }
    }

    /// The cursor behind a line feed.
    pub open spec fn next_line(self) -> Cursor {
        Cursor { line: self.line + 1, column: 1, index: self.index + 1 }
    }

    /// The cursor on the same line at byte `index`, which lies at or behind it.
    pub open spec fn at(self, index: int) -> Cursor {
        self.ahead(index - self.index)
    }
}

/// The first offset from `i` on that holds no identifier byte, or the buffer's length.
pub open spec fn word_end(src: Seq<u8>, i: int) -> int
    decreases src.len() - i,
{
    if 0 <= i < src.len() && is_word(src[i]) {
        word_end(src, i + 1)
    } else {
        i
    }
}

/// The first offset from `i` on that holds no digit, or the buffer's length.
pub open spec fn digits_end(src: Seq<u8>, i: int) -> int
    decreases src.len() - i,
{
    if 0 <= i < src.len() && is_digit(src[i]) {
        digits_end(src, i + 1)
    } else {
        i
    }
}

/// Where the body of a quoted string ends: the offset of the first double quote that no
/// backslash stands before, or of the first line feed, or the buffer's length. A backslash
/// takes the byte behind it along, unless that byte is a line feed.
pub open spec fn quote_stop(src: Seq<u8>, i: int) -> int
    decreases src.len() - i,
{
    if 0 <= i < src.len() && src[i] != QUOTE && src[i] != LINE_FEED {
        if src[i] == BACKSLASH && i + 1 < src.len() && src[i + 1] != LINE_FEED {
            quote_stop(src, i + 2)
        } else {
            quote_stop(src, i + 1)
        }
    } else {
        i
    }
}

/// The first offset from `i` on that holds a line feed, or the buffer's length.
pub open spec fn line_stop(src: Seq<u8>, i: int) -> int
    decreases src.len() - i,
{
    if 0 <= i < src.len() && src[i] != LINE_FEED {
        line_stop(src, i + 1)
    } else {
        i
    }
}

/// Where the body of a template string ends: the cursor on the first backtick that no
/// backslash stands before, or at the buffer's end. A backslash takes the byte behind it
/// along, whatever it is; a line feed elsewhere starts a new line.
pub open spec fn template_stop(src: Seq<u8>, cur: Cursor) -> Cursor
    decreases src.len() - cur.index,
{
    if 0 <= cur.index < src.len() {
        let b = src[cur.index];
        if b == BACKTICK {
            cur
        } else if b == BACKSLASH {
            if cur.index + 1 < src.len() {
                template_stop(src, cur.ahead(2))
            } else {
                cur.ahead(1)
            }
        } else if b == LINE_FEED {
            template_stop(src, cur.next_line())
        } else {
            template_stop(src, cur.ahead(1))
        }
    } else {
        cur
    }
}

/// Where a block comment ends, and whether it ends at all.
pub struct BlockEnd {
    /// Whether `*/` was found.
    pub closed: bool,
    /// The cursor behind `*/`, or at the buffer's end.
    pub rest: Cursor,
}

/// Reads the inside of a block comment from `cur` on.
pub open spec fn block_stop(src: Seq<u8>, cur: Cursor) -> BlockEnd
    decreases src.len() - cur.index,
{
    if 0 <= cur.index < src.len() {
        let b = src[cur.index];
        if b == STAR {
            if cur.index + 1 < src.len() && src[cur.index + 1] == SLASH {
                BlockEnd { closed: true, rest: cur.ahead(2) }
            } else {
                block_stop(src, cur.ahead(1))
            }
        } else if b == LINE_FEED {
            block_stop(src, cur.next_line())
        } else {
            block_stop(src, cur.ahead(1))
        }
    } else {
        BlockEnd { closed: false, rest: cur }
    }
}

/// What one dispatch of the scanner gives: a token, nothing (blank space and comments),
/// or a failure; and the cursor it leaves.
pub struct Step {
    pub outcome: Result<Option<Lexeme>, LexFault>,
    pub rest: Cursor,
}

/// The failure of the given kind, reported at the cursor's line and column.
pub open spec fn fault(kind: LexErrorKind, at: Cursor) -> LexFault {
    LexFault { kind, line: at.line, column: at.column }
}

/// What a token holds that starts at `start` and ends before `end`.
pub open spec fn piece(src: Seq<u8>, start: Cursor, end: Cursor) -> Piece {
    Piece { span: Span { start, end }, bytes: src.subrange(start.index, end.index) }
}

/// What a string token holds whose body starts at `start` and whose closing delimiter
/// stands at `close`: the bytes of the body, and the span of the body or, where the body
/// is empty, of the closing delimiter, so that the span is never empty.
pub open spec fn text_piece(src: Seq<u8>, start: Cursor, close: Cursor) -> Piece {
    Piece {
        span: Span {
            start,
            end: if start.index < close.index {
                close
            } else {
                close.ahead(1)
            },
        },
        bytes: src.subrange(start.index, close.index),
    }
}

/// The span of the one byte at `cur`.
pub open spec fn byte_span(cur: Cursor) -> Span {
    Span { start: cur, end: cur.ahead(1) }
}

/// The reserved word `true`.
pub open spec fn word_true() -> Seq<u8> {
    seq![LOWER_T, LOWER_R, LOWER_U, LOWER_E]
}

/// The reserved word `false`.
pub open spec fn word_false() -> Seq<u8> {
    seq![LOWER_F, LOWER_A, LOWER_L, LOWER_S, LOWER_E]
}

/// The reserved word `null`.
pub open spec fn word_null() -> Seq<u8> {
    seq![LOWER_N, LOWER_U, LOWER_L, LOWER_L]
}

/// The token that a bare word is: one of the three reserved words, or an identifier.
pub open spec fn classify(p: Piece) -> Lexeme {
    if p.bytes == word_true() {
        Lexeme::True(p.span)
    } else if p.bytes == word_false() {
        Lexeme::False(p.span)
    } else if p.bytes == word_null() {
        Lexeme::Null(p.span)
    } else {
        Lexeme::Identifier(p)
    }
}

/// A bare word that starts at `cur`.
pub open spec fn word_step(src: Seq<u8>, cur: Cursor) -> Step {
    let end = cur.at(word_end(src, cur.index));
    Step { outcome: Ok(Some(classify(piece(src, cur, end)))), rest: end }
}

/// A quoted string whose opening quote stands at `cur`. The first double quote behind it
/// that no backslash escapes closes the string. The token holds what stands between the
/// quotes, escapes as written, and has the span of those bytes or, where there are none,
/// of the closing quote. A missing closing quote is reported at the opening quote, a line
/// feed where it stands.
pub open spec fn quoted_step(src: Seq<u8>, cur: Cursor) -> Step {
    let start = cur.ahead(1);
    let end = cur.at(quote_stop(src, start.index));
    if end.index >= src.len() {
        Step { outcome: Err(fault(LexErrorKind::UnterminatedString, cur)), rest: end }
    } else if src[end.index] == LINE_FEED {
        Step { outcome: Err(fault(LexErrorKind::NewlineInString, end)), rest: end }
    } else {
        Step { outcome: Ok(Some(Lexeme::Text(text_piece(src, start, end)))), rest: end.ahead(1) }
    }
}

/// A template string whose opening backtick stands at `cur`. The token holds what stands
/// between the backticks, escapes as written, and has the span of those bytes or, where
/// there are none, of the closing backtick. A missing closing backtick is reported at the
/// opening one.
pub open spec fn template_step(src: Seq<u8>, cur: Cursor) -> Step {
    let start = cur.ahead(1);
    let end = template_stop(src, start);
    if end.index >= src.len() {
        Step { outcome: Err(fault(LexErrorKind::UnterminatedTemplateString, cur)), rest: end }
    } else {
        Step { outcome: Ok(Some(Lexeme::Text(text_piece(src, start, end)))), rest: end.ahead(1) }
    }
}

/// A number that starts at `cur` with a digit or a sign. After a leading `0` no further
/// digit belongs to the whole part. A decimal point must have a digit behind it; what stands
/// there instead is reported where it stands.
pub open spec fn number_step(src: Seq<u8>, cur: Cursor) -> Step {
    let whole = if src[cur.index] == DIGIT_0 {
        cur.index + 1
    } else {
        digits_end(src, cur.index + 1)
    };
    if whole < src.len() && src[whole] == POINT {
        let after = cur.at(whole + 1);
        if after.index >= src.len() {
            Step {
                outcome: Err(fault(LexErrorKind::InvalidDecimalPoint(None), after)),
                rest: after,
            }
        } else if !is_digit(src[after.index]) {
            Step {
                outcome: Err(
                    fault(LexErrorKind::InvalidDecimalPoint(Some(src[after.index])), after),
                ),
                rest: after,
            }
        } else {
            let end = cur.at(digits_end(src, after.index));
            Step { outcome: Ok(Some(Lexeme::Number(piece(src, cur, end)))), rest: end }
        }
    } else {
        let end = cur.at(whole);
        Step { outcome: Ok(Some(Lexeme::Number(piece(src, cur, end)))), rest: end }
    }
}

/// A line comment whose second slash stands at `marker`: it runs through the next line
/// feed. One that the buffer ends in is reported at `marker`.
pub open spec fn line_comment_step(src: Seq<u8>, marker: Cursor) -> Step {
    let stop = marker.at(line_stop(src, marker.index + 1));
    if stop.index >= src.len() {
        Step { outcome: Err(fault(LexErrorKind::UnterminatedComment, marker)), rest: stop }
    } else {
        Step { outcome: Ok(None), rest: stop.next_line() }
    }
}

/// A block comment whose star stands at `marker`: it runs through the next `*/` behind
/// that star. One that the buffer ends in is reported at `marker`.
pub open spec fn block_comment_step(src: Seq<u8>, marker: Cursor) -> Step {
    let end = block_stop(src, marker.ahead(1));
    if end.closed {
        Step { outcome: Ok(None), rest: end.rest }
    } else {
        Step { outcome: Err(fault(LexErrorKind::UnterminatedComment, marker)), rest: end.rest }
    }
}

/// A comment whose first slash stands at `cur`. Where the byte behind the slash opens
/// neither kind of comment, that byte is unrecognized; where the buffer ends with the
/// slash, the slash is.
pub open spec fn comment_step(src: Seq<u8>, cur: Cursor) -> Step {
    let marker = cur.ahead(1);
    if marker.index >= src.len() {
        Step { outcome: Err(fault(LexErrorKind::UnrecognizedCharacter(SLASH), cur)), rest: marker }
    } else if src[marker.index] == SLASH {
        line_comment_step(src, marker)
    } else if src[marker.index] == STAR {
        block_comment_step(src, marker)
    } else {
        Step {
            outcome: Err(
                fault(LexErrorKind::UnrecognizedCharacter(src[marker.index]), marker),
            ),
            rest: marker,
        }
    }
}

/// One dispatch on the byte at `cur`, which lies inside the buffer.
pub open spec fn step(src: Seq<u8>, cur: Cursor) -> Step {
    let b = src[cur.index];
    if b == TABLE_OPEN {
        Step { outcome: Ok(Some(Lexeme::TableOpen(byte_span(cur)))), rest: cur.ahead(1) }
    } else if b == TABLE_CLOSE {
        Step { outcome: Ok(Some(Lexeme::TableClose(byte_span(cur)))), rest: cur.ahead(1) }
    } else if b == LIST_OPEN {
        Step { outcome: Ok(Some(Lexeme::ListOpen(byte_span(cur)))), rest: cur.ahead(1) }
    } else if b == LIST_CLOSE {
        Step { outcome: Ok(Some(Lexeme::ListClose(byte_span(cur)))), rest: cur.ahead(1) }
    } else if b == LINE_FEED {
        Step { outcome: Ok(None), rest: cur.next_line() }
    } else if is_blank(b) {
        Step { outcome: Ok(None), rest: cur.ahead(1) }
    } else if is_letter(b) {
        word_step(src, cur)
    } else if b == QUOTE {
        quoted_step(src, cur)
    } else if b == BACKTICK {
        template_step(src, cur)
    } else if is_digit(b) || b == PLUS || b == MINUS {
        number_step(src, cur)
    } else if b == SLASH {
        comment_step(src, cur)
    } else {
        Step { outcome: Err(fault(LexErrorKind::UnrecognizedCharacter(b), cur)), rest: cur }
    }
}

/// What scanning a buffer from some cursor on gives: every token up to the buffer's end,
/// or the first failure; and the cursor that is left.
pub struct Scan {
    pub outcome: Result<Seq<Lexeme>, LexFault>,
    pub rest: Cursor,
}

/// The scan `rest` with `found` put before its tokens.
pub open spec fn after(found: Seq<Lexeme>, rest: Scan) -> Scan {
    match rest.outcome {
        Ok(more) => Scan { outcome: Ok(found + more), rest: rest.rest },
        Err(e) => rest,
    }
}

/// The tokens that one dispatch adds: one or none.
pub open spec fn found(outcome: Option<Lexeme>) -> Seq<Lexeme> {
    match outcome {
        Some(t) => seq![t],
        None => Seq::empty(),
    }
}

/// Scans `src` from `cur` to its end.
pub open spec fn scan(src: Seq<u8>, cur: Cursor) -> Scan
    decreases src.len() - cur.index,
    via scan_decreases
{
    if 0 <= cur.index < src.len() {
        let s = step(src, cur);
        match s.outcome {
            Ok(t) => after(found(t), scan(src, s.rest)),
            Err(e) => Scan { outcome: Err(e), rest: s.rest },
        }
    } else {
        Scan { outcome: Ok(Seq::empty()), rest: cur }
    }
}

#[via_fn]
proof fn scan_decreases(src: Seq<u8>, cur: Cursor) {
    if 0 <= cur.index < src.len() {
        lemma_step_advances(src, cur);
    }
}

/// A word ends inside the buffer, behind word bytes only and before a byte that is none.
pub proof fn lemma_word_end(src: Seq<u8>, i: int)
    requires
        0 <= i <= src.len(),
    ensures
        i <= word_end(src, i) <= src.len(),
        forall|k: int| i <= k < word_end(src, i) ==> is_word(#[trigger] src[k]),
        word_end(src, i) < src.len() ==> !is_word(src[word_end(src, i)]),
    decreases src.len() - i,
{
    if i < src.len() && is_word(src[i]) {
        lemma_word_end(src, i + 1);
    }
}

/// A run of digits ends inside the buffer, behind digits only and before a byte that is
/// none.
pub proof fn lemma_digits_end(src: Seq<u8>, i: int)
    requires
        0 <= i <= src.len(),
    ensures
        i <= digits_end(src, i) <= src.len(),
        forall|k: int| i <= k < digits_end(src, i) ==> is_digit(#[trigger] src[k]),
        digits_end(src, i) < src.len() ==> !is_digit(src[digits_end(src, i)]),
    decreases src.len() - i,
{
    if i < src.len() && is_digit(src[i]) {
        lemma_digits_end(src, i + 1);
    }
}

/// A quoted string's body ends inside the buffer, on a double quote or a line feed, and
/// holds no line feed.
pub proof fn lemma_quote_stop(src: Seq<u8>, i: int)
    requires
        0 <= i <= src.len(),
    ensures
        i <= quote_stop(src, i) <= src.len(),
        forall|k: int| i <= k < quote_stop(src, i) ==> #[trigger] src[k] != LINE_FEED,
        quote_stop(src, i) < src.len() ==> src[quote_stop(src, i)] == QUOTE || src[quote_stop(
            src,
            i,
        )] == LINE_FEED,
    decreases src.len() - i,
{
    if i < src.len() && src[i] != QUOTE && src[i] != LINE_FEED {
        if src[i] == BACKSLASH && i + 1 < src.len() && src[i + 1] != LINE_FEED {
            lemma_quote_stop(src, i + 2);
        } else {
            lemma_quote_stop(src, i + 1);
        }
    }
}

/// A line ends inside the buffer, on the first line feed.
pub proof fn lemma_line_stop(src: Seq<u8>, i: int)
    requires
        0 <= i <= src.len(),
    ensures
        i <= line_stop(src, i) <= src.len(),
        forall|k: int| i <= k < line_stop(src, i) ==> #[trigger] src[k] != LINE_FEED,
        line_stop(src, i) < src.len() ==> src[line_stop(src, i)] == LINE_FEED,
    decreases src.len() - i,
{
    if i < src.len() && src[i] != LINE_FEED {
        lemma_line_stop(src, i + 1);
    }
}

/// A cursor is sound where line and column are at least one and, together, no more than
/// the bytes behind the cursor allow.
pub open spec fn sound(cur: Cursor) -> bool {
    &&& 1 <= cur.line
    &&& 1 <= cur.column
    &&& 0 <= cur.index
    &&& cur.line + cur.column <= cur.index + 2
}

/// A dispatch that does not fail moves the cursor forward, and never past the buffer's end.
pub proof fn lemma_step_advances(src: Seq<u8>, cur: Cursor)
    requires
        0 <= cur.index < src.len(),
    ensures
        step(src, cur).outcome is Ok ==> cur.index < step(src, cur).rest.index <= src.len(),
{
    let b = src[cur.index];
    lemma_word_end(src, cur.index);
    lemma_quote_stop(src, cur.index + 1);
    lemma_digits_end(src, cur.index + 1);
    if is_digit(b) || b == PLUS || b == MINUS {
        let whole = if b == DIGIT_0 {
            cur.index + 1
        } else {
            digits_end(src, cur.index + 1)
        };
        if whole < src.len() {
            lemma_digits_end(src, whole + 1);
        }
    }
    if b == BACKTICK {
        lemma_template_stop_bounds(src, cur.ahead(1));
    }
    if b == SLASH && cur.index + 1 < src.len() {
        lemma_line_stop(src, cur.index + 2);
        if src[cur.index + 1] == STAR {
            lemma_block_stop_bounds(src, cur.ahead(2));
        }
    }
}

/// A quoted string's body without a backslash ends at the first double quote or line
/// feed.
pub proof fn lemma_quote_stop_at(src: Seq<u8>, i: int, stop: int)
    requires
        0 <= i <= stop <= src.len(),
        forall|k: int|
            i <= k < stop ==> #[trigger] src[k] != QUOTE && src[k] != LINE_FEED && src[k]
                != BACKSLASH,
        stop < src.len() ==> src[stop] == QUOTE || src[stop] == LINE_FEED,
    ensures
        quote_stop(src, i) == stop,
    decreases stop - i,
{
    if i < stop {
        lemma_quote_stop_at(src, i + 1, stop);
    }
}

/// A template string's body without a backslash ends at the first backtick.
pub proof fn lemma_template_stop_at(src: Seq<u8>, cur: Cursor, stop: int)
    requires
        0 <= cur.index <= stop <= src.len(),
        forall|k: int|
            cur.index <= k < stop ==> #[trigger] src[k] != BACKTICK && src[k] != BACKSLASH,
        stop < src.len() ==> src[stop] == BACKTICK,
    ensures
        template_stop(src, cur).index == stop,
    decreases stop - cur.index,
{
    if cur.index < stop {
        if src[cur.index] == LINE_FEED {
            lemma_template_stop_at(src, cur.next_line(), stop);
        } else {
            lemma_template_stop_at(src, cur.ahead(1), stop);
        }
    }
}


/// A template string's body ends inside the buffer, on a backtick or at the buffer's end.
pub proof fn lemma_template_stop_bounds(src: Seq<u8>, cur: Cursor)
    requires
        0 <= cur.index <= src.len(),
    ensures
        cur.index <= template_stop(src, cur).index <= src.len(),
        template_stop(src, cur).index < src.len() ==> src[template_stop(src, cur).index]
            == BACKTICK,
    decreases src.len() - cur.index,
{
    if cur.index < src.len() {
        let b = src[cur.index];
        if b == BACKTICK {
        } else if b == BACKSLASH {
            if cur.index + 1 < src.len() {
                lemma_template_stop_bounds(src, cur.ahead(2));
            }
        } else if b == LINE_FEED {
            lemma_template_stop_bounds(src, cur.next_line());
        } else {
            lemma_template_stop_bounds(src, cur.ahead(1));
        }
    }
}


/// A run of digits ends at the first byte that is none.
pub proof fn lemma_digits_end_at(src: Seq<u8>, i: int, stop: int)
    requires
        0 <= i <= stop <= src.len(),
        forall|k: int| i <= k < stop ==> is_digit(#[trigger] src[k]),
        stop < src.len() ==> !is_digit(src[stop]),
    ensures
        digits_end(src, i) == stop,
    decreases stop - i,
{
    if i < stop {
        lemma_digits_end_at(src, i + 1, stop);
    }
}


/// A block comment ends inside the buffer: behind its `*/`, or at the buffer's end where
/// it has none.
pub proof fn lemma_block_stop_bounds(src: Seq<u8>, cur: Cursor)
    requires
        0 <= cur.index <= src.len(),
    ensures
        cur.index <= block_stop(src, cur).rest.index <= src.len(),
        block_stop(src, cur).closed ==> cur.index + 2 <= block_stop(src, cur).rest.index,
        !block_stop(src, cur).closed ==> block_stop(src, cur).rest.index == src.len(),
    decreases src.len() - cur.index,
{
    if cur.index < src.len() {
        let x = src[cur.index];
        if x == STAR {
            if cur.index + 1 < src.len() && src[cur.index + 1] == SLASH {
            } else {
                lemma_block_stop_bounds(src, cur.ahead(1));
            }
        } else if x == LINE_FEED {
            lemma_block_stop_bounds(src, cur.next_line());
        } else {
            lemma_block_stop_bounds(src, cur.ahead(1));
        }
    }
}


/// A word ends at the first byte that cannot continue it.
pub proof fn lemma_word_end_at(src: Seq<u8>, i: int, stop: int)
    requires
        0 <= i <= stop <= src.len(),
        forall|k: int| i <= k < stop ==> is_word(#[trigger] src[k]),
        stop < src.len() ==> !is_word(src[stop]),
    ensures
        word_end(src, i) == stop,
    decreases stop - i,
{
    if i < stop {
        lemma_word_end_at(src, i + 1, stop);
    }
}

} // verus!
