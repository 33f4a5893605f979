//! The bytes that carry meaning in the bencode wire grammar.

use vstd::prelude::*;

verus! {

/// `i`, the byte that opens an integer.
pub const INTEGER_START: u8 = 105;

/// `l`, the byte that opens a list.
pub const LIST_START: u8 = 108;

/// `d`, the byte that opens a dictionary.
pub const DICT_START: u8 = 100;

/// `e`, the byte that closes an integer, a list or a dictionary.
pub const END: u8 = 101;

/// `:`, the byte between the length of a byte string and its content.
pub const SEPARATOR: u8 = 58;

/// `-`, the sign of a negative number.
pub const MINUS: u8 = 45;

/// `0`, the first of the ten decimal digits.
pub const ZERO: u8 = 48;

/// `9`, the last of the ten decimal digits.
pub const NINE: u8 = 57;

/// Whether `b` is one of the ten ASCII decimal digits.
pub open spec fn is_digit(b: u8) -> bool {
    ZERO <= b <= NINE
}

/// Whether `b` may stand in the length prefix of a byte string: any byte but
/// `:`, `i`, `l`, `d` and `e`.
pub open spec fn is_length_byte(b: u8) -> bool {
    b != SEPARATOR && b != INTEGER_START && b != LIST_START && b != DICT_START && b != END
}

/// Executable form of [`is_length_byte`].
pub fn length_byte(b: u8) -> (r: bool)
    ensures
        r == is_length_byte(b),
{
    b != SEPARATOR && b != INTEGER_START && b != LIST_START && b != DICT_START && b != END
}

} // verus!
