use crate::ascii::{
    BACKSLASH, BACKTICK, DIGIT_0, LINE_FEED, LIST_CLOSE, LIST_OPEN, MINUS, PLUS, POINT, QUOTE,
    SLASH, STAR, TABLE_CLOSE, TABLE_OPEN,
};
use crate::error::{LexErrorKind, LexFault};
use crate::scan::{
    after, block_stop, comment_step, digits_end, found, is_blank, is_digit, is_letter, is_word,
    lemma_block_stop_bounds, lemma_digits_end, lemma_line_stop, lemma_quote_stop,
    lemma_step_advances, lemma_template_stop_bounds, lemma_word_end, line_stop, number_step,
    quote_stop, quoted_step, scan, step, template_step, template_stop, word_end, word_step, Step,
};
use crate::token::{shapes, Cursor, Lexeme, Shape};
use vstd::prelude::*;

verus! {

/// The `n` bytes of `a` from `i` on are the `n` bytes of `b` from `j` on.
pub open spec fn alike(a: Seq<u8>, i: int, b: Seq<u8>, j: int, n: int) -> bool {
    &&& 0 <= i
    &&& 0 <= j
    &&& 0 <= n
    &&& i + n <= a.len()
    &&& j + n <= b.len()
    &&& forall|k: int| i <= k < i + n ==> #[trigger] a[k] == b[k + (j - i)]
}

/// Both runs of bytes reach the ends of their buffers.
pub open spec fn to_end(a: Seq<u8>, i: int, b: Seq<u8>, j: int, n: int) -> bool {
    i + n == a.len() && j + n == b.len()
}

/// A byte that begins what the scanner skips: blank space, a line feed or a comment.
pub open spec fn is_separator(b: u8) -> bool {
    is_blank(b) || b == LINE_FEED || b == SLASH
}

/// A word ends in one buffer where it ends in the other, if it ends inside the bytes that
/// the two share, or at their end where the other buffer has no word byte either.
pub proof fn lemma_word_end_alike(a: Seq<u8>, i: int, b: Seq<u8>, j: int, n: int, p: int)
    requires
        alike(a, i, b, j, n),
        i <= p <= i + n,
        word_end(a, p) <= i + n,
        word_end(a, p) < i + n || j + n == b.len() || !is_word(b[j + n]),
    ensures
        word_end(b, p + (j - i)) == word_end(a, p) + (j - i),
    decreases i + n - p,
{
    lemma_word_end(a, p);
    if p < i + n {
        assert(a[p] == b[p + (j - i)]);
        if is_word(a[p]) {
            lemma_word_end_alike(a, i, b, j, n, p + 1);
        }
    }
}

/// A run of digits ends in one buffer where it ends in the other, as a word does.
pub proof fn lemma_digits_end_alike(a: Seq<u8>, i: int, b: Seq<u8>, j: int, n: int, p: int)
    requires
        alike(a, i, b, j, n),
        i <= p <= i + n,
        digits_end(a, p) <= i + n,
        digits_end(a, p) < i + n || j + n == b.len() || !is_digit(b[j + n]),
    ensures
        digits_end(b, p + (j - i)) == digits_end(a, p) + (j - i),
    decreases i + n - p,
{
    lemma_digits_end(a, p);
    if p < i + n {
        assert(a[p] == b[p + (j - i)]);
        if is_digit(a[p]) {
            lemma_digits_end_alike(a, i, b, j, n, p + 1);
        }
    }
}

/// A quoted string's body ends in one buffer where it ends in the other, if it ends inside
/// the bytes that the two share, or both buffers end with them.
pub proof fn lemma_quote_stop_alike(a: Seq<u8>, i: int, b: Seq<u8>, j: int, n: int, p: int)
    requires
        alike(a, i, b, j, n),
        i <= p <= i + n,
        quote_stop(a, p) < i + n || to_end(a, i, b, j, n),
    ensures
        quote_stop(b, p + (j - i)) == quote_stop(a, p) + (j - i),
    decreases i + n - p,
{
    lemma_quote_stop(a, p);
    if p < i + n {
        assert(a[p] == b[p + (j - i)]);
        if a[p] != QUOTE && a[p] != LINE_FEED {
            if p + 1 < i + n {
                assert(a[p + 1] == b[p + 1 + (j - i)]);
            }
            if a[p] == BACKSLASH && p + 1 < a.len() && a[p + 1] != LINE_FEED {
                lemma_quote_stop(a, p + 2);
                lemma_quote_stop_alike(a, i, b, j, n, p + 2);
            } else {
                lemma_quote_stop(a, p + 1);
                lemma_quote_stop_alike(a, i, b, j, n, p + 1);
            }
        }
    }
}

/// A line ends in one buffer where it ends in the other, as a quoted string's body does.
pub proof fn lemma_line_stop_alike(a: Seq<u8>, i: int, b: Seq<u8>, j: int, n: int, p: int)
    requires
        alike(a, i, b, j, n),
        i <= p <= i + n,
        line_stop(a, p) < i + n || to_end(a, i, b, j, n),
    ensures
        line_stop(b, p + (j - i)) == line_stop(a, p) + (j - i),
    decreases i + n - p,
{
    lemma_line_stop(a, p);
    if p < i + n {
        assert(a[p] == b[p + (j - i)]);
        if a[p] != LINE_FEED {
            lemma_line_stop_alike(a, i, b, j, n, p + 1);
        }
    }
}

/// A template string's body ends in one buffer where it ends in the other, whatever the
/// lines and columns are, if it ends inside the bytes that the two share, or both buffers
/// end with them.
pub proof fn lemma_template_stop_alike(
    a: Seq<u8>,
    i: int,
    b: Seq<u8>,
    j: int,
    n: int,
    ca: Cursor,
    cb: Cursor,
)
    requires
        alike(a, i, b, j, n),
        i <= ca.index <= i + n,
        cb.index == ca.index + (j - i),
        template_stop(a, ca).index < i + n || to_end(a, i, b, j, n),
    ensures
        template_stop(b, cb).index == template_stop(a, ca).index + (j - i),
    decreases i + n - ca.index,
{
    lemma_template_stop_bounds(a, ca);
    if ca.index < i + n {
        let x = a[ca.index];
        assert(x == b[ca.index + (j - i)]);
        if x == BACKTICK {
        } else if x == BACKSLASH {
            if ca.index + 1 < a.len() {
                lemma_template_stop_bounds(a, ca.ahead(2));
                lemma_template_stop_alike(a, i, b, j, n, ca.ahead(2), cb.ahead(2));
            }
        } else if x == LINE_FEED {
            lemma_template_stop_alike(a, i, b, j, n, ca.next_line(), cb.next_line());
        } else {
            lemma_template_stop_alike(a, i, b, j, n, ca.ahead(1), cb.ahead(1));
        }
    }
}

/// A block comment ends in one buffer where it ends in the other, whatever the lines and
/// columns are, if it ends inside the bytes that the two share, or both buffers end with
/// them.
pub proof fn lemma_block_stop_alike(
    a: Seq<u8>,
    i: int,
    b: Seq<u8>,
    j: int,
    n: int,
    ca: Cursor,
    cb: Cursor,
)
    requires
        alike(a, i, b, j, n),
        i <= ca.index <= i + n,
        cb.index == ca.index + (j - i),
        (block_stop(a, ca).closed && block_stop(a, ca).rest.index <= i + n) || to_end(
            a,
            i,
            b,
            j,
            n,
        ),
    ensures
        block_stop(b, cb).closed == block_stop(a, ca).closed,
        block_stop(b, cb).rest.index == block_stop(a, ca).rest.index + (j - i),
    decreases i + n - ca.index,
{
    lemma_block_stop_bounds(a, ca);
    if ca.index < i + n {
        let x = a[ca.index];
        assert(x == b[ca.index + (j - i)]);
        if x == STAR {
            if ca.index + 1 < i + n {
                assert(a[ca.index + 1] == b[ca.index + 1 + (j - i)]);
            }
            if ca.index + 1 < a.len() && a[ca.index + 1] == SLASH {
            } else {
                lemma_block_stop_bounds(a, ca.ahead(1));
                lemma_block_stop_alike(a, i, b, j, n, ca.ahead(1), cb.ahead(1));
            }
        } else if x == LINE_FEED {
            lemma_block_stop_alike(a, i, b, j, n, ca.next_line(), cb.next_line());
        } else {
            lemma_block_stop_alike(a, i, b, j, n, ca.ahead(1), cb.ahead(1));
        }
    }
}


/// What one dispatch gives, without spans and places: the token's shape, nothing, or the
/// kind of failure.
pub open spec fn step_shape(s: Step) -> Result<Option<Shape>, LexErrorKind> {
    match s.outcome {
        Ok(Some(t)) => Ok(Some(t.shape())),
        Ok(None) => Ok(None),
        Err(e) => Err(e.kind),
    }
}

/// The two dispatches give the same shape and, where they give no failure, take the same
/// number of bytes.
pub open spec fn same_step(a: Seq<u8>, ca: Cursor, b: Seq<u8>, cb: Cursor) -> bool {
    &&& step_shape(step(b, cb)) == step_shape(step(a, ca))
    &&& step(a, ca).outcome is Ok ==> step(b, cb).rest.index - cb.index == step(a, ca).rest.index
        - ca.index
}

/// A token that ends before `at` in `b` cannot go on: the buffer ends there, or a
/// separator stands there.
pub open spec fn closes(b: Seq<u8>, at: int) -> bool {
    at == b.len() || (0 <= at < b.len() && is_separator(b[at]))
}

/// The bytes that two buffers share make the same pieces.
pub proof fn lemma_subrange_alike(
    a: Seq<u8>,
    i: int,
    b: Seq<u8>,
    j: int,
    n: int,
    from: int,
    to: int,
)
    requires
        alike(a, i, b, j, n),
        i <= from <= to <= i + n,
    ensures
        a.subrange(from, to) == b.subrange(from + (j - i), to + (j - i)),
{
    let x = a.subrange(from, to);
    let y = b.subrange(from + (j - i), to + (j - i));
    assert forall|k: int| 0 <= k < x.len() implies x[k] == y[k] by {
        assert(a[from + k] == b[from + k + (j - i)]);
    }
    assert(x =~= y);
}

proof fn lemma_word_step_alike(a: Seq<u8>, ca: Cursor, b: Seq<u8>, cb: Cursor, n: int)
    requires
        alike(a, ca.index, b, cb.index, n),
        n >= 1,
        to_end(a, ca.index, b, cb.index, n) || (word_step(a, ca).rest.index <= ca.index + n
            && closes(b, cb.index + n)),
    ensures
        step_shape(word_step(b, cb)) == step_shape(word_step(a, ca)),
        word_step(b, cb).rest.index - cb.index == word_step(a, ca).rest.index - ca.index,
{
    let i = ca.index;
    let j = cb.index;
    lemma_word_end(a, i);
    lemma_word_end_alike(a, i, b, j, n, i);
    lemma_subrange_alike(a, i, b, j, n, i, word_end(a, i));
}

proof fn lemma_quoted_step_alike(a: Seq<u8>, ca: Cursor, b: Seq<u8>, cb: Cursor, n: int)
    requires
        alike(a, ca.index, b, cb.index, n),
        n >= 1,
        to_end(a, ca.index, b, cb.index, n) || (quoted_step(a, ca).outcome is Ok && quoted_step(
            a,
            ca,
        ).rest.index <= ca.index + n),
    ensures
        step_shape(quoted_step(b, cb)) == step_shape(quoted_step(a, ca)),
        quoted_step(a, ca).outcome is Ok ==> quoted_step(b, cb).rest.index - cb.index
            == quoted_step(a, ca).rest.index - ca.index,
{
    let i = ca.index;
    let j = cb.index;
    lemma_quote_stop(a, i + 1);
    lemma_quote_stop_alike(a, i, b, j, n, i + 1);
    let stop = quote_stop(a, i + 1);
    if stop < i + n {
        assert(a[stop] == b[stop + (j - i)]);
        lemma_subrange_alike(a, i, b, j, n, i + 1, stop);
    }
}

proof fn lemma_template_step_alike(a: Seq<u8>, ca: Cursor, b: Seq<u8>, cb: Cursor, n: int)
    requires
        alike(a, ca.index, b, cb.index, n),
        n >= 1,
        to_end(a, ca.index, b, cb.index, n) || (template_step(a, ca).outcome is Ok
            && template_step(a, ca).rest.index <= ca.index + n),
    ensures
        step_shape(template_step(b, cb)) == step_shape(template_step(a, ca)),
        template_step(a, ca).outcome is Ok ==> template_step(b, cb).rest.index - cb.index
            == template_step(a, ca).rest.index - ca.index,
{
    let i = ca.index;
    let j = cb.index;
    lemma_template_stop_bounds(a, ca.ahead(1));
    lemma_template_stop_alike(a, i, b, j, n, ca.ahead(1), cb.ahead(1));
    let stop = template_stop(a, ca.ahead(1)).index;
    if stop < i + n {
        assert(a[stop] == b[stop + (j - i)]);
        lemma_subrange_alike(a, i, b, j, n, i + 1, stop);
    }
}

proof fn lemma_number_step_alike(a: Seq<u8>, ca: Cursor, b: Seq<u8>, cb: Cursor, n: int)
    requires
        alike(a, ca.index, b, cb.index, n),
        n >= 1,
        to_end(a, ca.index, b, cb.index, n) || (number_step(a, ca).outcome is Ok && number_step(
            a,
            ca,
        ).rest.index <= ca.index + n && closes(b, cb.index + n)),
    ensures
        step_shape(number_step(b, cb)) == step_shape(number_step(a, ca)),
        number_step(a, ca).outcome is Ok ==> number_step(b, cb).rest.index - cb.index
            == number_step(a, ca).rest.index - ca.index,
{
    let i = ca.index;
    let j = cb.index;
    let d = j - i;
    assert(a[i] == b[i + d]);
    lemma_digits_end(a, i + 1);
    let whole = if a[i] == DIGIT_0 {
        i + 1
    } else {
        digits_end(a, i + 1)
    };
    let whole_b = if b[j] == DIGIT_0 {
        j + 1
    } else {
        digits_end(b, j + 1)
    };
    if whole < a.len() && a[whole] == POINT {
        let after = whole + 1;
        if after < a.len() {
            lemma_digits_end(a, after);
        }
        assert(whole < i + n);
        if a[i] != DIGIT_0 {
            lemma_digits_end_alike(a, i, b, j, n, i + 1);
        }
        assert(whole_b == whole + d);
        assert(a[whole] == b[whole + d]);
        if after < a.len() && is_digit(a[after]) {
            assert(after < i + n);
            assert(a[after] == b[after + d]);
            lemma_digits_end_alike(a, i, b, j, n, after);
            lemma_subrange_alike(a, i, b, j, n, i, digits_end(a, after));
        } else if after < a.len() {
            assert(after < i + n);
            assert(a[after] == b[after + d]);
        }
    } else {
        assert(whole <= i + n);
        if a[i] != DIGIT_0 {
            lemma_digits_end_alike(a, i, b, j, n, i + 1);
        }
        assert(whole_b == whole + d);
        if whole < i + n {
            assert(a[whole] == b[whole + d]);
        }
        lemma_subrange_alike(a, i, b, j, n, i, whole);
    }
}

proof fn lemma_comment_step_alike(a: Seq<u8>, ca: Cursor, b: Seq<u8>, cb: Cursor, n: int)
    requires
        alike(a, ca.index, b, cb.index, n),
        n >= 1,
        to_end(a, ca.index, b, cb.index, n) || (comment_step(a, ca).outcome is Ok
            && comment_step(a, ca).rest.index <= ca.index + n),
    ensures
        step_shape(comment_step(b, cb)) == step_shape(comment_step(a, ca)),
        comment_step(a, ca).outcome is Ok ==> comment_step(b, cb).rest.index - cb.index
            == comment_step(a, ca).rest.index - ca.index,
{
    let i = ca.index;
    let j = cb.index;
    let d = j - i;
    let marker = i + 1;
    if marker < a.len() {
        if a[marker] == SLASH {
            lemma_line_stop(a, marker + 1);
        } else if a[marker] == STAR {
            lemma_block_stop_bounds(a, ca.ahead(2));
        }
        assert(marker < i + n);
        assert(a[marker] == b[marker + d]);
        if a[marker] == SLASH {
            lemma_line_stop_alike(a, i, b, j, n, marker + 1);
        } else if a[marker] == STAR {
            lemma_block_stop_alike(a, i, b, j, n, ca.ahead(2), cb.ahead(2));
        }
    }
}

/// One dispatch gives the same in two buffers that share the bytes it reads: where both
/// buffers end with the shared bytes, or where the dispatch succeeds inside them and, if
/// it gives a token, what follows them in the second buffer cannot continue it.
pub proof fn lemma_step_alike(a: Seq<u8>, ca: Cursor, b: Seq<u8>, cb: Cursor, n: int)
    requires
        alike(a, ca.index, b, cb.index, n),
        n >= 1,
        to_end(a, ca.index, b, cb.index, n) || (step(a, ca).outcome is Ok && step(
            a,
            ca,
        ).rest.index <= ca.index + n && (step(a, ca).outcome->Ok_0 is None || closes(
            b,
            cb.index + n,
        ))),
    ensures
        same_step(a, ca, b, cb),
{
    let i = ca.index;
    let j = cb.index;
    let x = a[i];
    assert(x == b[i + (j - i)]);
    if x == TABLE_OPEN || x == TABLE_CLOSE || x == LIST_OPEN || x == LIST_CLOSE {
    } else if x == LINE_FEED || is_blank(x) {
    } else if is_letter(x) {
        lemma_word_step_alike(a, ca, b, cb, n);
    } else if x == QUOTE {
        lemma_quoted_step_alike(a, ca, b, cb, n);
    } else if x == BACKTICK {
        lemma_template_step_alike(a, ca, b, cb, n);
    } else if is_digit(x) || x == PLUS || x == MINUS {
        lemma_number_step_alike(a, ca, b, cb, n);
    } else if x == SLASH {
        lemma_comment_step_alike(a, ca, b, cb, n);
    } else {
    }
}


/// What a scan gives, without spans and places: the shapes of the tokens, or the kind of
/// the failure.
pub open spec fn scan_shapes(src: Seq<u8>, cur: Cursor) -> Result<Seq<Shape>, LexErrorKind> {
    match scan(src, cur).outcome {
        Ok(tokens) => Ok(shapes(tokens)),
        Err(e) => Err(e.kind),
    }
}

/// The shapes `rest` with the shape of one dispatch put before them.
pub open spec fn shapes_after(
    first: Option<Shape>,
    rest: Result<Seq<Shape>, LexErrorKind>,
) -> Result<Seq<Shape>, LexErrorKind> {
    match rest {
        Ok(more) => match first {
            Some(t) => Ok(seq![t] + more),
            None => Ok(more),
        },
        Err(k) => Err(k),
    }
}

/// The shapes of a scan are the shape of its first dispatch and then the shapes of the
/// scan behind it.
pub proof fn lemma_scan_shapes_unfold(src: Seq<u8>, cur: Cursor)
    requires
        0 <= cur.index < src.len(),
    ensures
        scan_shapes(src, cur) == match step_shape(step(src, cur)) {
            Ok(first) => shapes_after(first, scan_shapes(src, step(src, cur).rest)),
            Err(k) => Err(k),
        },
{
    let s = step(src, cur);
    if let Ok(first) = s.outcome {
        let rest = scan(src, s.rest);
        if let Ok(more) = rest.outcome {
            assert(shapes(found(first) + more) =~= match first {
                Some(t) => seq![t.shape()] + shapes(more),
                None => shapes(more),
            });
        }
    }
}

/// A dispatch that gives nothing and does not fail stands on a separator.
pub proof fn lemma_nothing_is_separator(src: Seq<u8>, cur: Cursor)
    requires
        0 <= cur.index < src.len(),
        step(src, cur).outcome == Ok::<Option<Lexeme>, LexFault>(None),
    ensures
        is_separator(src[cur.index]),
{
}

/// Bytes that two buffers share are shared from any place among them on.
pub proof fn lemma_alike_rest(a: Seq<u8>, i: int, b: Seq<u8>, j: int, n: int, used: int)
    requires
        alike(a, i, b, j, n),
        0 <= used <= n,
    ensures
        alike(a, i + used, b, j + used, n - used),
{
    assert forall|k: int| i + used <= k < i + n implies #[trigger] a[k] == b[k + (j - i)] by {}
}

/// Two buffers that share all their bytes from two cursors on give the same shapes from
/// there on, or fail in the same way, wherever the cursors stand and whatever their lines
/// and columns are.
pub proof fn lemma_scan_alike_to_end(a: Seq<u8>, ca: Cursor, b: Seq<u8>, cb: Cursor, n: int)
    requires
        alike(a, ca.index, b, cb.index, n),
        to_end(a, ca.index, b, cb.index, n),
    ensures
        scan_shapes(b, cb) == scan_shapes(a, ca),
    decreases n,
{
    if n > 0 {
        lemma_step_alike(a, ca, b, cb, n);
        lemma_scan_shapes_unfold(a, ca);
        lemma_scan_shapes_unfold(b, cb);
        lemma_step_advances(a, ca);
        if step(a, ca).outcome is Ok {
            let ra = step(a, ca).rest;
            let rb = step(b, cb).rest;
            let used = ra.index - ca.index;
            lemma_alike_rest(a, ca.index, b, cb.index, n, used);
            lemma_scan_alike_to_end(a, ra, b, rb, n - used);
        }
    }
}

/// Bytes that scan to nothing, taken alone, scan to nothing where other bytes follow
/// them: a buffer that holds them from `cb` on and then the bytes that `a` holds from `ca`
/// on gives from `cb` on what `a` gives from `ca` on.
pub proof fn lemma_scan_through_filler(
    w: Seq<u8>,
    cw: Cursor,
    b: Seq<u8>,
    cb: Cursor,
    a: Seq<u8>,
    ca: Cursor,
    n: int,
)
    requires
        0 <= cw.index <= w.len(),
        scan(w, cw).outcome == Ok::<Seq<Lexeme>, LexFault>(Seq::empty()),
        alike(w, cw.index, b, cb.index, w.len() - cw.index),
        alike(a, ca.index, b, cb.index + (w.len() - cw.index), n),
        to_end(a, ca.index, b, cb.index + (w.len() - cw.index), n),
    ensures
        scan_shapes(b, cb) == scan_shapes(a, ca),
    decreases w.len() - cw.index,
{
    let m = w.len() - cw.index;
    if m == 0 {
        lemma_scan_alike_to_end(a, ca, b, cb, n);
    } else {
        let s = step(w, cw);
        lemma_step_advances(w, cw);
        assert(s.outcome is Ok);
        let more = scan(w, s.rest).outcome->Ok_0;
        assert((found(s.outcome->Ok_0) + more).len() == 0);
        assert(s.outcome->Ok_0 is None);
        assert(more =~= Seq::<Lexeme>::empty());
        lemma_step_alike(w, cw, b, cb, m);
        lemma_scan_shapes_unfold(b, cb);
        let rb = step(b, cb).rest;
        let used = s.rest.index - cw.index;
        lemma_alike_rest(w, cw.index, b, cb.index, m, used);
        lemma_scan_through_filler(w, s.rest, b, rb, a, ca, n);
    }
}

/// Scanning `src` from `cur` on comes to dispatch at offset `at`, or ends there, without
/// having failed before: a token, blank space or a comment ends at `at` or the scan starts
/// there.
pub open spec fn boundary(src: Seq<u8>, cur: Cursor, at: int) -> bool
    decreases src.len() - cur.index,
    via boundary_decreases
{
    if cur.index == at {
        true
    } else if 0 <= cur.index < at && cur.index < src.len() {
        step(src, cur).outcome is Ok && boundary(src, step(src, cur).rest, at)
    } else {
        false
    }
}

#[via_fn]
proof fn boundary_decreases(src: Seq<u8>, cur: Cursor, at: int) {
    if 0 <= cur.index < src.len() {
        lemma_step_advances(src, cur);
    }
}

/// Bytes that scan to nothing: blank space, line feeds and whole comments.
pub open spec fn is_filler(w: Seq<u8>) -> bool {
    scan(w, Cursor::origin()).outcome == Ok::<Seq<Lexeme>, LexFault>(Seq::empty())
}

/// Filler that is not empty starts with a separator.
pub proof fn lemma_filler_starts_with_separator(w: Seq<u8>)
    requires
        is_filler(w),
        w.len() > 0,
    ensures
        is_separator(w[0]),
{
    let origin = Cursor::origin();
    let s = step(w, origin);
    lemma_step_advances(w, origin);
    assert(s.outcome is Ok);
    let more = scan(w, s.rest).outcome->Ok_0;
    assert((found(s.outcome->Ok_0) + more).len() == 0);
    lemma_nothing_is_separator(w, origin);
}

/// Filler put in at or behind a boundary leaves the boundary where it is: what the
/// scanner does before the filler does not change.
pub proof fn lemma_boundary_stays(
    x: Seq<u8>,
    w: Seq<u8>,
    y: Seq<u8>,
    ca: Cursor,
    cb: Cursor,
    at: int,
)
    requires
        is_filler(w),
        ca.index == cb.index,
        0 <= ca.index,
        at <= x.len(),
        boundary(x + y, ca, at),
    ensures
        boundary(x + w + y, cb, at),
    decreases at - ca.index,
{
    let plain = x + y;
    let spread = x + w + y;
    let k = x.len() as int;
    if ca.index != at {
        lemma_step_advances(plain, ca);
        let ra = step(plain, ca).rest;
        assert(step(plain, ca).outcome is Ok && boundary(plain, ra, at));
        assert(ra.index <= at) by {
            reveal_with_fuel(boundary, 2);
        }
        if w.len() == 0 {
            assert(spread =~= plain);
            let n = plain.len() - ca.index;
            assert(alike(plain, ca.index, plain, cb.index, n));
            lemma_step_alike(plain, ca, plain, cb, n);
        } else {
            let n = k - ca.index;
            assert(alike(plain, ca.index, spread, cb.index, n)) by {
                assert forall|p: int| ca.index <= p < k implies #[trigger] plain[p]
                    == spread[p] by {}
            }
            assert(closes(spread, k)) by {
                lemma_filler_starts_with_separator(w);
                assert(spread[k] == w[0]);
            }
            lemma_step_alike(plain, ca, spread, cb, n);
        }
        lemma_boundary_stays(x, w, y, ra, step(spread, cb).rest, at);
    }
}

/// Filler put in at a boundary changes no shape: scanned from two cursors at the same
/// offset before the boundary, the buffer with the filler gives what the buffer without it
/// gives.
pub proof fn lemma_scan_with_filler(x: Seq<u8>, w: Seq<u8>, y: Seq<u8>, ca: Cursor, cb: Cursor)
    requires
        is_filler(w),
        ca.index == cb.index,
        0 <= ca.index <= x.len(),
        boundary(x + y, ca, x.len() as int),
    ensures
        scan_shapes(x + w + y, cb) == scan_shapes(x + y, ca),
    decreases x.len() - ca.index,
{
    let plain = x + y;
    let spread = x + w + y;
    let k = x.len() as int;
    if w.len() == 0 {
        assert(spread =~= plain);
        let n = plain.len() - ca.index;
        assert(alike(plain, ca.index, plain, cb.index, n));
        lemma_scan_alike_to_end(plain, ca, plain, cb, n);
    } else if ca.index == k {
        let origin = Cursor::origin();
        assert(alike(w, 0, spread, k, w.len() as int)) by {
            assert forall|p: int| 0 <= p < w.len() implies #[trigger] w[p] == spread[p + k] by {}
        }
        assert(alike(plain, k, spread, k + w.len(), y.len() as int)) by {
            assert forall|p: int| k <= p < k + y.len() implies #[trigger] plain[p] == spread[p
                + w.len()] by {}
        }
        lemma_scan_through_filler(w, origin, spread, cb, plain, ca, y.len() as int);
    } else {
        let n = k - ca.index;
        assert(alike(plain, ca.index, spread, cb.index, n)) by {
            assert forall|p: int| ca.index <= p < k implies #[trigger] plain[p] == spread[p] by {}
        }
        assert(closes(spread, k)) by {
            lemma_filler_starts_with_separator(w);
            assert(spread[k] == w[0]);
        }
        lemma_step_advances(plain, ca);
        let ra = step(plain, ca).rest;
        assert(step(plain, ca).outcome is Ok && boundary(plain, ra, k));
        assert(ra.index <= k) by {
            reveal_with_fuel(boundary, 2);
        }
        lemma_step_alike(plain, ca, spread, cb, n);
        lemma_scan_shapes_unfold(plain, ca);
        lemma_scan_shapes_unfold(spread, cb);
        lemma_scan_with_filler(x, w, y, step(plain, ca).rest, step(spread, cb).rest);
    }
}


/// Filler behind filler is filler.
pub proof fn law_filler_joins(v: Seq<u8>, w: Seq<u8>)
    requires
        is_filler(v),
        is_filler(w),
    ensures
        is_filler(v + w),
{
    let origin = Cursor::origin();
    let both = v + w;
    assert(alike(v, 0, both, 0, v.len() as int)) by {
        assert forall|p: int| 0 <= p < v.len() implies #[trigger] v[p] == both[p] by {}
    }
    assert(alike(w, 0, both, v.len() as int, w.len() as int)) by {
        assert forall|p: int| 0 <= p < w.len() implies #[trigger] w[p] == both[p + v.len()] by {}
    }
    lemma_scan_through_filler(v, origin, both, origin, w, origin, w.len() as int);
    assert(scan_shapes(both, origin) == scan_shapes(w, origin));
    assert(scan_shapes(w, origin) == Ok::<Seq<Shape>, LexErrorKind>(shapes(Seq::empty())));
    assert(scan(both, origin).outcome is Ok);
    let tokens = scan(both, origin).outcome->Ok_0;
    assert(shapes(tokens).len() == 0);
    assert(tokens =~= Seq::<Lexeme>::empty());
}

/// A run of blank bytes and line feeds is filler.
pub proof fn law_blank_space_is_filler(w: Seq<u8>)
    requires
        forall|k: int| 0 <= k < w.len() ==> is_blank(#[trigger] w[k]) || w[k] == LINE_FEED,
    ensures
        is_filler(w),
{
    lemma_blank_space_scans_to_nothing(w, Cursor::origin());
}

proof fn lemma_blank_space_scans_to_nothing(w: Seq<u8>, cur: Cursor)
    requires
        forall|k: int| 0 <= k < w.len() ==> is_blank(#[trigger] w[k]) || w[k] == LINE_FEED,
        0 <= cur.index,
    ensures
        scan(w, cur).outcome == Ok::<Seq<Lexeme>, LexFault>(Seq::empty()),
    decreases w.len() - cur.index,
{
    if cur.index < w.len() {
        let x = w[cur.index];
        assert(is_blank(x) || x == LINE_FEED);
        let rest = step(w, cur).rest;
        lemma_blank_space_scans_to_nothing(w, rest);
        assert(Seq::<Lexeme>::empty() + Seq::<Lexeme>::empty() =~= Seq::<Lexeme>::empty());
    }
}

/// A line comment with its line feed is filler.
pub proof fn law_line_comment_is_filler(text: Seq<u8>)
    requires
        !text.contains(LINE_FEED),
    ensures
        is_filler(seq![SLASH, SLASH] + text + seq![LINE_FEED]),
{
    let w = seq![SLASH, SLASH] + text + seq![LINE_FEED];
    let origin = Cursor::origin();
    let last = text.len() as int + 2;
    assert(w.len() == last + 1);
    assert(w[0] == SLASH && w[1] == SLASH && w[last] == LINE_FEED);
    assert forall|k: int| 2 <= k < last implies #[trigger] w[k] != LINE_FEED by {
        assert(w[k] == text[k - 2]);
    }
    lemma_line_stop_at(w, 2, last);
    let s = step(w, origin);
    assert(s.outcome == Ok::<Option<Lexeme>, LexFault>(None));
    assert(s.rest.index == w.len());
    assert(scan(w, s.rest).outcome == Ok::<Seq<Lexeme>, LexFault>(Seq::empty()));
    assert(found(None) + Seq::<Lexeme>::empty() =~= Seq::<Lexeme>::empty());
    assert(scan(w, origin) == after(found(None), scan(w, s.rest)));
}

/// A line ends at the first line feed.
pub proof fn lemma_line_stop_at(src: Seq<u8>, i: int, stop: int)
    requires
        0 <= i <= stop <= src.len(),
        forall|k: int| i <= k < stop ==> #[trigger] src[k] != LINE_FEED,
        stop < src.len() ==> src[stop] == LINE_FEED,
    ensures
        line_stop(src, i) == stop,
    decreases stop - i,
{
    if i < stop {
        lemma_line_stop_at(src, i + 1, stop);
    }
}

/// A block comment ends behind the first `*/`.
pub proof fn lemma_block_stop_at(src: Seq<u8>, cur: Cursor, star: int)
    requires
        0 <= cur.index <= star,
        star + 1 < src.len(),
        src[star] == STAR,
        src[star + 1] == SLASH,
        forall|k: int|
            cur.index <= k < star ==> !(#[trigger] src[k] == STAR && src[k + 1] == SLASH),
    ensures
        block_stop(src, cur).closed,
        block_stop(src, cur).rest.index == star + 2,
    decreases star - cur.index,
{
    if cur.index < star {
        let x = src[cur.index];
        if x == STAR {
            lemma_block_stop_at(src, cur.ahead(1), star);
        } else if x == LINE_FEED {
            lemma_block_stop_at(src, cur.next_line(), star);
        } else {
            lemma_block_stop_at(src, cur.ahead(1), star);
        }
    }
}

/// A block comment is filler, where its text holds no `*/`.
pub proof fn law_block_comment_is_filler(text: Seq<u8>)
    requires
        forall|k: int|
            0 <= k < text.len() - 1 ==> !(#[trigger] text[k] == STAR && text[k + 1] == SLASH),
    ensures
        is_filler(seq![SLASH, STAR] + text + seq![STAR, SLASH]),
{
    let w = seq![SLASH, STAR] + text + seq![STAR, SLASH];
    let origin = Cursor::origin();
    let star = text.len() as int + 2;
    assert(w.len() == star + 2);
    assert(w[0] == SLASH && w[1] == STAR && w[star] == STAR && w[star + 1] == SLASH);
    assert forall|k: int| 2 <= k < star implies !(#[trigger] w[k] == STAR && w[k + 1]
        == SLASH) by {
        assert(w[k] == text[k - 2]);
        if k + 1 < star {
            assert(w[k + 1] == text[k - 1]);
        }
    }
    lemma_block_stop_at(w, origin.ahead(2), star);
    let s = step(w, origin);
    assert(s.outcome == Ok::<Option<Lexeme>, LexFault>(None));
    assert(s.rest.index == w.len());
    assert(scan(w, s.rest).outcome == Ok::<Seq<Lexeme>, LexFault>(Seq::empty()));
    assert(found(None) + Seq::<Lexeme>::empty() =~= Seq::<Lexeme>::empty());
    assert(scan(w, origin) == after(found(None), scan(w, s.rest)));
}

} // verus!
