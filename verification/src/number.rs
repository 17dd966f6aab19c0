use crate::ascii::{byte_is_digit, DIGIT_0, LOWER_E, MINUS, PLUS, POINT, UPPER_E};
use crate::scan::{digits_end, is_digit};
use vstd::prelude::*;
use vstd::slice::slice_to_vec;

verus! {

/// A plus or a minus.
pub open spec fn is_sign(b: u8) -> bool {
    b == PLUS || b == MINUS
}

/// Every byte is a digit.
pub open spec fn all_digits(s: Seq<u8>) -> bool {
    forall|k: int| 0 <= k < s.len() ==> is_digit(#[trigger] s[k])
}

/// The number that a run of digits denotes in base ten; nothing denotes zero.
pub open spec fn digits_value(s: Seq<u8>) -> int
    decreases s.len(),
{
    if s.len() == 0 {
        0
    } else {
        digits_value(s.drop_last()) * 10 + (s.last() - DIGIT_0)
    }
}

/// The text without its sign, if it has one.
pub open spec fn unsigned(s: Seq<u8>) -> Seq<u8> {
    if s.len() > 0 && is_sign(s[0]) {
        s.subrange(1, s.len() as int)
    } else {
        s
    }
}

/// The whole number that a text denotes: an optional sign and then at least one digit,
/// and nothing else.
pub open spec fn integer_text(s: Seq<u8>) -> Option<int> {
    let digits = unsigned(s);
    if digits.len() > 0 && all_digits(digits) {
        if s[0] == MINUS {
            Some(-digits_value(digits))
        } else {
            Some(digits_value(digits))
        }
    } else {
        None
    }
}

/// The whole number that a text denotes, if it denotes one that 64 bits with a sign hold.
pub open spec fn integer_of(s: Seq<u8>) -> Option<int> {
    match integer_text(s) {
        Some(v) => if i64::MIN <= v <= i64::MAX {
            Some(v)
        } else {
            None
        },
        None => None,
    }
}

/// Where the digits of a text start: behind its sign, if it has one.
pub open spec fn digits_start(s: Seq<u8>) -> int {
    if s.len() > 0 && is_sign(s[0]) {
        1
    } else {
        0
    }
}

/// The letter that an exponent starts with, in either case.
pub open spec fn is_exponent_mark(b: u8) -> bool {
    b == LOWER_E || b == UPPER_E
}

/// From `at` to its end the text is the number of an exponent: an optional sign and one
/// digit or more.
pub open spec fn exponent_from(s: Seq<u8>, at: int) -> bool {
    let first = if at < s.len() && is_sign(s[at]) {
        at + 1
    } else {
        at
    };
    first < s.len() && digits_end(s, first) == s.len()
}

/// The text is a decimal number: an optional sign; digits, a point and digits, with one
/// digit at least among them; and, if anything follows, an exponent: `e` or `E`, an
/// optional sign and one digit or more.
pub open spec fn is_decimal(s: Seq<u8>) -> bool {
    let start = digits_start(s);
    let point = digits_end(s, start);
    let end = digits_end(s, point + 1);
    &&& point < s.len()
    &&& s[point] == POINT
    &&& (start < point || point + 1 < end)
    &&& (end == s.len() || (is_exponent_mark(s[end]) && exponent_from(s, end + 1)))
}

/// A run of digits denotes no less than any of its beginnings.
pub proof fn lemma_digits_grow(s: Seq<u8>, k: int)
    requires
        all_digits(s),
        0 <= k <= s.len(),
    ensures
        0 <= digits_value(s.subrange(0, k)) <= digits_value(s),
    decreases s.len() - k,
{
    if k == s.len() {
        assert(s.subrange(0, k) =~= s);
        lemma_digits_nonnegative(s);
    } else {
        lemma_digits_grow(s, k + 1);
        let longer = s.subrange(0, k + 1);
        assert(longer.drop_last() =~= s.subrange(0, k));
        assert(is_digit(s[k]));
        assert(longer.last() == s[k]);
        assert(all_digits(s.subrange(0, k))) by {
            assert forall|j: int| 0 <= j < k implies is_digit(#[trigger] s.subrange(0, k)[j]) by {
                assert(is_digit(s[j]));
            }
        }
        lemma_digits_nonnegative(s.subrange(0, k));
    }
}

/// A run of digits denotes no negative number.
pub proof fn lemma_digits_nonnegative(s: Seq<u8>)
    requires
        all_digits(s),
    ensures
        0 <= digits_value(s),
    decreases s.len(),
{
    if s.len() > 0 {
        assert(all_digits(s.drop_last())) by {
            assert forall|j: int| 0 <= j < s.len() - 1 implies is_digit(
                #[trigger] s.drop_last()[j],
            ) by {
                assert(is_digit(s[j]));
            }
        }
        lemma_digits_nonnegative(s.drop_last());
        assert(is_digit(s[s.len() - 1]));
    }
}

/// Reads a whole number in base ten.
pub fn bytes_to_int(_bytes: &[u8]) -> (r: Option<i64>)
    ensures
        match r {
            Some(v) => integer_of(_bytes@) == Some(v as int),
            None => integer_of(_bytes@) is None,
        },
{
    let n = _bytes.len();
    if n == 0 {
        return None;
    }
    let negative = _bytes[0] == MINUS;
    let start: usize = if _bytes[0] == PLUS || _bytes[0] == MINUS {
        1
    } else {
        0
    };
    if start == n {
        return None;
    }
    let ghost digits = unsigned(_bytes@);
    let limit: u64 = if negative {
        0x8000_0000_0000_0000
    } else {
        0x7fff_ffff_ffff_ffff
    };
    let mut magnitude: u64 = 0;
    let mut k: usize = start;
    while k < n
        invariant
            n == _bytes@.len(),
            digits == unsigned(_bytes@),
            digits.len() == n - start,
            start <= k <= n,
            start <= 1,
            forall|j: int| 0 <= j < digits.len() ==> digits[j] == _bytes@[j + start],
            all_digits(digits.subrange(0, k - start)),
            magnitude == digits_value(digits.subrange(0, k - start)),
            magnitude <= limit,
            negative == (_bytes@[0] == MINUS),
            limit == if negative {
                0x8000_0000_0000_0000u64
            } else {
                0x7fff_ffff_ffff_ffffu64
            },
        decreases n - k,
    {
        let b = _bytes[k];
        let ghost seen = digits.subrange(0, k - start);
        let ghost longer = digits.subrange(0, k - start + 1);
        if !byte_is_digit(b) {
            proof {
                assert(digits[k - start] == b);
            }
            return None;
        }
        let d: u64 = (b - DIGIT_0) as u64;
        proof {
            assert(longer.drop_last() =~= seen);
            assert(longer.last() == b);
            assert(digits_value(longer) == magnitude * 10 + d);
            assert(all_digits(longer)) by {
                assert forall|j: int| 0 <= j < longer.len() implies is_digit(
                    #[trigger] longer[j],
                ) by {
                    if j < k - start {
                        assert(is_digit(seen[j]));
                    }
                }
            }
        }
        if magnitude > (limit - d) / 10 {
            proof {
                assert(magnitude * 10 + d > limit);
                if all_digits(digits) {
                    lemma_digits_grow(digits, k - start + 1);
                }
            }
            return None;
        }
        magnitude = magnitude * 10 + d;
        k += 1;
    }
    proof {
        assert(digits.subrange(0, k - start) =~= digits);
    }
    if negative {
        if magnitude == 0x8000_0000_0000_0000 {
            Some(i64::MIN)
        } else {
            Some(-(magnitude as i64))
        }
    } else {
        Some(magnitude as i64)
    }
}


/// Where the digits from `from` on end.
fn skip_digits(bytes: &[u8], from: usize) -> (end: usize)
    requires
        from <= bytes@.len(),
    ensures
        end == digits_end(bytes@, from as int),
        from <= end <= bytes@.len(),
{
    let mut k: usize = from;
    while k < bytes.len() && byte_is_digit(bytes[k])
        invariant
            from <= k <= bytes@.len(),
            digits_end(bytes@, from as int) == digits_end(bytes@, k as int),
        decreases bytes@.len() - k,
    {
        k += 1;
    }
    k
}

/// Checks that the text is a decimal number, and gives a copy of it if it is one.
pub fn bytes_to_float(_bytes: &[u8]) -> (r: Option<Vec<u8>>)
    ensures
        match r {
            Some(text) => is_decimal(_bytes@) && text@ == _bytes@,
            None => !is_decimal(_bytes@),
        },
{
    let n = _bytes.len();
    let start: usize = if n > 0 && (_bytes[0] == PLUS || _bytes[0] == MINUS) {
        1
    } else {
        0
    };
    let point = skip_digits(_bytes, start);
    if point >= n || _bytes[point] != POINT {
        return None;
    }
    let end = skip_digits(_bytes, point + 1);
    if start == point && point + 1 == end {
        return None;
    }
    if end < n {
        if _bytes[end] != LOWER_E && _bytes[end] != UPPER_E {
            return None;
        }
        let at = end + 1;
        let first: usize = if at < n && (_bytes[at] == PLUS || _bytes[at] == MINUS) {
            at + 1
        } else {
            at
        };
        if first >= n {
            return None;
        }
        if skip_digits(_bytes, first) != n {
            return None;
        }
    }
    Some(slice_to_vec(_bytes))
}

} // verus!
