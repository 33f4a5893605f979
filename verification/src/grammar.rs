//! What the parser computes, as a function on sequences of bytes.
//!
//! A value is looked for at an offset of the input, and the four productions
//! are tried there in a fixed order: dictionary, list, byte string, integer.
//! The first byte decides: `d` opens a dictionary, `l` a list, `i` an
//! integer, and any byte but those three, `:` and `e` begins the length of a
//! byte string. The first failure met, going through the input from left to
//! right, is the result of the whole parse.

use vstd::prelude::*;
use crate::bencode::BencodeParserError;
use crate::decimal::parse_decimal;
use crate::model::{collect_entries, Bencode};
use crate::token::{is_length_byte, DICT_START, END, INTEGER_START, LIST_START, SEPARATOR};

verus! {

/// The number of bytes from `from` on, up to the end of `s`, that may stand
/// in a length prefix.
pub open spec fn length_run(s: Seq<u8>, from: nat) -> nat
    decreases s.len() - from,
{
    if from < s.len() && is_length_byte(s[from as int]) {
        1 + length_run(s, from + 1)
    } else {
        0
    }
}

/// The number of bytes from `from` on, up to the end of `s`, that are not
/// `e`.
pub open spec fn integer_run(s: Seq<u8>, from: nat) -> nat
    decreases s.len() - from,
{
    if from < s.len() && s[from as int] != END {
        1 + integer_run(s, from + 1)
    } else {
        0
    }
}

/// The byte string at `pos`: a run of length bytes that reads as a number,
/// `:`, and as many bytes as the number says. Gives the bytes and the offset
/// behind them.
///
/// Where the run is empty or no `:` follows it, nothing at `pos` is a value:
/// `Unexpected(pos)`. A run that is no number is `InvalidPrefixNumber`. A
/// negative length, or one beyond what is left of `s`, is
/// `InvalidByteString`.
pub open spec fn parse_byte_string(s: Seq<u8>, pos: nat) -> Result<
    (Seq<u8>, nat),
    BencodeParserError,
> {
    let colon = pos + length_run(s, pos);
    if colon == pos || colon >= s.len() || s[colon as int] != SEPARATOR {
        Err(BencodeParserError::Unexpected(pos as usize))
    } else {
        match parse_decimal(s.subrange(pos as int, colon as int)) {
            None => Err(BencodeParserError::InvalidPrefixNumber),
            Some(length) => if length < 0 || length > s.len() - (colon + 1) {
                Err(BencodeParserError::InvalidByteString)
            } else {
                Ok((s.subrange(colon as int + 1, colon + 1 + length), (colon + 1 + length) as nat))
            },
        }
    }
}

/// The integer whose `i` stands at `pos`: the bytes up to the next `e` read
/// as a number. Gives the number and the offset behind the `e`.
///
/// Where `i` is followed at once by `e` or by the end of `s`, the failure is
/// `Unexpected` at the offset behind `i`; where no `e` follows, `Unexpected`
/// at the end of `s`. A body that is no number is `InvalidPrefixNumber`.
pub open spec fn parse_integer(s: Seq<u8>, pos: nat) -> Result<(int, nat), BencodeParserError> {
    let close = pos + 1 + integer_run(s, pos + 1);
    if close == pos + 1 {
        Err(BencodeParserError::Unexpected((pos + 1) as usize))
    } else if close >= s.len() {
        Err(BencodeParserError::Unexpected(close as usize))
    } else {
        match parse_decimal(s.subrange(pos as int + 1, close as int)) {
            None => Err(BencodeParserError::InvalidPrefixNumber),
            Some(number) => Ok((number, close + 1)),
        }
    }
}

/// The value at `pos`, with the offset behind it, where containers may nest
/// `depth` deep. A list or a dictionary met with no depth left is `TooDeep`;
/// where `s` ends at `pos`, or the byte there is `:` or `e`, no production
/// matches: `Unexpected(pos)`.
pub open spec fn parse_value(s: Seq<u8>, pos: nat, depth: nat) -> Result<
    (Bencode, nat),
    BencodeParserError,
>
    decreases s.len() - pos, 0nat,
{
    if pos < s.len() && s[pos as int] == DICT_START {
        if depth == 0 {
            Err(BencodeParserError::TooDeep)
        } else {
            match parse_pairs(s, pos + 1, (depth - 1) as nat) {
                Err(e) => Err(e),
                Ok((pairs, end)) => Ok((Bencode::Dict(collect_entries(pairs)), end)),
            }
        }
    } else if pos < s.len() && s[pos as int] == LIST_START {
        if depth == 0 {
            Err(BencodeParserError::TooDeep)
        } else {
            match parse_items(s, pos + 1, (depth - 1) as nat) {
                Err(e) => Err(e),
                Ok((items, end)) => Ok((Bencode::List(items), end)),
            }
        }
    } else if pos < s.len() && is_length_byte(s[pos as int]) {
        match parse_byte_string(s, pos) {
            Err(e) => Err(e),
            Ok((bytes, end)) => Ok((Bencode::ByteString(bytes), end)),
        }
    } else if pos < s.len() && s[pos as int] == INTEGER_START {
        match parse_integer(s, pos) {
            Err(e) => Err(e),
            Ok((number, end)) => Ok((Bencode::Integer(number), end)),
        }
    } else {
        Err(BencodeParserError::Unexpected(pos as usize))
    }
}

/// The items of a list from `pos` on, up to the `e` that closes the list,
/// with the offset behind that `e`.
///
/// Every value takes at least one byte and ends within `s`, as
/// [`crate::laws::lemma_value_advances`] shows, so the last branch is never
/// taken; it is there to show that the recursion ends.
pub open spec fn parse_items(s: Seq<u8>, pos: nat, depth: nat) -> Result<
    (Seq<Bencode>, nat),
    BencodeParserError,
>
    decreases s.len() - pos, 1nat,
{
    if pos < s.len() && s[pos as int] == END {
        Ok((Seq::empty(), pos + 1))
    } else {
        match parse_value(s, pos, depth) {
            Err(e) => Err(e),
            Ok((item, next)) => if pos < next <= s.len() {
                match parse_items(s, next, depth) {
                    Err(e) => Err(e),
                    Ok((rest, end)) => Ok((seq![item] + rest, end)),
                }
            } else {
                Err(BencodeParserError::Unexpected(pos as usize))
            },
        }
    }
}

/// The key-value pairs of a dictionary from `pos` on, as they stand in the
/// input, up to the `e` that closes the dictionary, with the offset behind
/// that `e`. A key is a byte string; whatever else stands where a key is due
/// fails as [`parse_byte_string`] says.
///
/// As in [`parse_items`], the last branch is never taken.
pub open spec fn parse_pairs(s: Seq<u8>, pos: nat, depth: nat) -> Result<
    (Seq<(Seq<u8>, Bencode)>, nat),
    BencodeParserError,
>
    decreases s.len() - pos, 1nat,
{
    if pos < s.len() && s[pos as int] == END {
        Ok((Seq::empty(), pos + 1))
    } else {
        match parse_byte_string(s, pos) {
            Err(e) => Err(e),
            Ok((key, middle)) => match parse_value(s, middle, depth) {
                Err(e) => Err(e),
                Ok((value, next)) => if pos < next <= s.len() {
                    match parse_pairs(s, next, depth) {
                        Err(e) => Err(e),
                        Ok((rest, end)) => Ok((seq![(key, value)] + rest, end)),
                    }
                } else {
                    Err(BencodeParserError::Unexpected(pos as usize))
                },
            },
        }
    }
}

/// The value that `s` begins with and the bytes of `s` behind it, where
/// containers may nest `depth` deep; or the first failure.
pub open spec fn parse(s: Seq<u8>, depth: nat) -> Result<(Bencode, Seq<u8>), BencodeParserError> {
    match parse_value(s, 0, depth) {
        Err(e) => Err(e),
        Ok((value, end)) => Ok((value, s.skip(end as int))),
    }
}

} // verus!
