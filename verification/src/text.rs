use crate::ascii::{
    holds_byte, BACKSLASH, CARRIAGE_RETURN, LINE_FEED, LOWER_N, LOWER_R, LOWER_T, TAB,
};
use vstd::prelude::*;
use vstd::slice::slice_to_vec;
use vstd::utf8::{decode_utf8, encode_utf8, valid_utf8};

verus! {

/// The byte that a backslash and `b` stand for: a line feed for `n`, a carriage return for
/// `r`, a tab for `t`, and `b` itself for every other byte.
pub open spec fn escaped(b: u8) -> u8 {
    if b == LOWER_N {
        LINE_FEED
    } else if b == LOWER_R {
        CARRIAGE_RETURN
    } else if b == LOWER_T {
        TAB
    } else {
        b
    }
}

/// The bytes that `raw` stands for: each backslash is dropped and the byte behind it is
/// replaced by what the two stand for; every other byte stays. A backslash at the very end
/// stands for nothing.
pub open spec fn unescape(raw: Seq<u8>) -> Seq<u8>
    decreases raw.len(),
{
    if raw.len() == 0 {
        Seq::empty()
    } else if raw[0] != BACKSLASH {
        seq![raw[0]] + unescape(raw.subrange(1, raw.len() as int))
    } else if raw.len() == 1 {
        Seq::empty()
    } else {
        seq![escaped(raw[1])] + unescape(raw.subrange(2, raw.len() as int))
    }
}

/// The content of a string literal whose body is `raw`: the body itself where it holds no
/// backslash, and else the body unescaped.
pub open spec fn decoded(raw: Seq<u8>) -> Seq<u8> {
    if raw.contains(BACKSLASH) {
        unescape(raw)
    } else {
        raw
    }
}

/// Bytes without a backslash stand for themselves.
pub proof fn lemma_unescape_plain(raw: Seq<u8>)
    requires
        !raw.contains(BACKSLASH),
    ensures
        unescape(raw) == raw,
    decreases raw.len(),
{
    if raw.len() > 0 {
        let rest = raw.subrange(1, raw.len() as int);
        assert(raw[0] != BACKSLASH);
        assert forall|k: int| 0 <= k < rest.len() implies rest[k] != BACKSLASH by {
            assert(rest[k] == raw[k + 1]);
        }
        lemma_unescape_plain(rest);
        assert(seq![raw[0]] + rest =~= raw);
    } else {
        assert(raw =~= Seq::<u8>::empty());
    }
}

fn escape_of(b: u8) -> (r: u8)
    ensures
        r == escaped(b),
{
    if b == LOWER_N {
        LINE_FEED
    } else if b == LOWER_R {
        CARRIAGE_RETURN
    } else if b == LOWER_T {
        TAB
    } else {
        b
    }
}

/// Replaces every escape in `_bytes` by the byte it stands for.
pub fn unescape_bytes(_bytes: &[u8]) -> (output: Vec<u8>)
    ensures
        output@ == unescape(_bytes@),
{
    let mut output: Vec<u8> = Vec::with_capacity(_bytes.len());
    let mut i: usize = 0;
    proof {
        assert(_bytes@.subrange(0, _bytes@.len() as int) =~= _bytes@);
        assert(Seq::<u8>::empty() + unescape(_bytes@) =~= unescape(_bytes@));
    }
    while i < _bytes.len()
        invariant
            i <= _bytes.len(),
            unescape(_bytes@) == output@ + unescape(
                _bytes@.subrange(i as int, _bytes@.len() as int),
            ),
        decreases _bytes.len() - i,
    {
        let ghost rest = _bytes@.subrange(i as int, _bytes@.len() as int);
        let ghost done = output@;
        let c = _bytes[i];
        if c != BACKSLASH {
            output.push(c);
            i += 1;
            proof {
                assert(rest.subrange(1, rest.len() as int) =~= _bytes@.subrange(
                    i as int,
                    _bytes@.len() as int,
                ));
                let more = unescape(_bytes@.subrange(i as int, _bytes@.len() as int));
                assert(done + (seq![c] + more) =~= output@ + more);
            }
        } else if i + 1 < _bytes.len() {
            let b = _bytes[i + 1];
            output.push(escape_of(b));
            i += 2;
            proof {
                assert(rest.subrange(2, rest.len() as int) =~= _bytes@.subrange(
                    i as int,
                    _bytes@.len() as int,
                ));
                let more = unescape(_bytes@.subrange(i as int, _bytes@.len() as int));
                assert(done + (seq![escaped(b)] + more) =~= output@ + more);
            }
        } else {
            i += 1;
            proof {
                assert(rest.len() == 1);
                assert(unescape(_bytes@.subrange(i as int, _bytes@.len() as int)) =~= Seq::<
                    u8,
                >::empty());
            }
        }
    }
    proof {
        assert(_bytes@.subrange(i as int, _bytes@.len() as int).len() == 0);
        assert(output@ + Seq::<u8>::empty() =~= output@);
    }
    output
}

/// The content of a string literal whose body is `raw`.
pub fn decode_bytes(raw: &[u8]) -> (content: Vec<u8>)
    ensures
        content@ == decoded(raw@),
{
    if holds_byte(raw, BACKSLASH) {
        unescape_bytes(raw)
    } else {
        slice_to_vec(raw)
    }
}

/// Calls `String::from_utf8`. The contract says what std documents of it: the bytes become
/// a string exactly when they are valid UTF-8, and the string then holds those bytes.
#[verifier::external_body]
fn string_from_utf8(bytes: Vec<u8>) -> (r: Option<String>)
    ensures
        r is Some <==> valid_utf8(bytes@),
        r matches Some(s) ==> encode_utf8(s@) == bytes@,
{
    match String::from_utf8(bytes) {
        Ok(s) => Some(s),
        Err(_) => None,
    }
}

/// The text that `_bytes` encode, if they are valid UTF-8.
pub fn bytes_to_string(_bytes: &[u8]) -> (r: Option<String>)
    ensures
        r is Some <==> valid_utf8(_bytes@),
        r matches Some(s) ==> s@ == decode_utf8(_bytes@) && encode_utf8(s@) == _bytes@,
{
    let r = string_from_utf8(slice_to_vec(_bytes));
    proof {
        if r is Some {
            vstd::utf8::encode_utf8_decode_utf8(r->Some_0@);
        }
    }
    r
}


/// The text of a string literal whose body is `raw`, if its content is valid UTF-8.
pub fn decode_text(raw: &[u8]) -> (r: Option<String>)
    ensures
        r is Some <==> valid_utf8(decoded(raw@)),
        r matches Some(s) ==> s@ == decode_utf8(decoded(raw@)) && encode_utf8(s@) == decoded(raw@),
{
    let r = string_from_utf8(decode_bytes(raw));
    proof {
        if r is Some {
            vstd::utf8::encode_utf8_decode_utf8(r->Some_0@);
        }
    }
    r
}

} // verus!
