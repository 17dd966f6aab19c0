use crate::scan::{is_digit, is_letter, is_word};
use vstd::prelude::*;

verus! {

// The bytes that the notation gives a meaning to, by their ASCII codes.
pub const TAB: u8 = 9;
pub const LINE_FEED: u8 = 10;
pub const CARRIAGE_RETURN: u8 = 13;
pub const SPACE: u8 = 32;
pub const QUOTE: u8 = 34;
pub const APOSTROPHE: u8 = 39;
pub const STAR: u8 = 42;
pub const PLUS: u8 = 43;
pub const MINUS: u8 = 45;
pub const POINT: u8 = 46;
pub const SLASH: u8 = 47;
pub const DIGIT_0: u8 = 48;
pub const DIGIT_9: u8 = 57;
pub const UPPER_A: u8 = 65;
pub const UPPER_E: u8 = 69;
pub const UPPER_Z: u8 = 90;
pub const LIST_OPEN: u8 = 91;
pub const BACKSLASH: u8 = 92;
pub const LIST_CLOSE: u8 = 93;
pub const UNDERSCORE: u8 = 95;
pub const BACKTICK: u8 = 96;
pub const LOWER_A: u8 = 97;
pub const LOWER_E: u8 = 101;
pub const LOWER_F: u8 = 102;
pub const LOWER_L: u8 = 108;
pub const LOWER_N: u8 = 110;
pub const LOWER_R: u8 = 114;
pub const LOWER_S: u8 = 115;
pub const LOWER_T: u8 = 116;
pub const LOWER_U: u8 = 117;
pub const LOWER_Z: u8 = 122;
pub const TABLE_OPEN: u8 = 123;
pub const TABLE_CLOSE: u8 = 125;


/// Whether the byte is one of the ten digits.
pub fn byte_is_digit(b: u8) -> (r: bool)
    ensures
        r == is_digit(b),
{
    DIGIT_0 <= b && b <= DIGIT_9
}

/// Whether the byte is a letter of the Latin alphabet.
pub fn byte_is_letter(b: u8) -> (r: bool)
    ensures
        r == is_letter(b),
{
    (LOWER_A <= b && b <= LOWER_Z) || (UPPER_A <= b && b <= UPPER_Z)
}

/// Whether the byte may continue an identifier.
pub fn byte_is_word(b: u8) -> (r: bool)
    ensures
        r == is_word(b),
{
    byte_is_letter(b) || byte_is_digit(b) || b == UNDERSCORE
}

/// Whether `byte` occurs among `bytes`.
pub fn holds_byte(bytes: &[u8], byte: u8) -> (r: bool)
    ensures
        r == bytes@.contains(byte),
{
    let mut i: usize = 0;
    while i < bytes.len()
        invariant
            i <= bytes.len(),
            forall|k: int| 0 <= k < i ==> bytes@[k] != byte,
        decreases bytes.len() - i,
    {
        if bytes[i] == byte {
            return true;
        }
        i += 1;
    }
    false
}

} // verus!
