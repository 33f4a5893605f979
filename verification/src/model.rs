//! The mathematical model of a bencoded value and of its canonical encoding.

use vstd::prelude::*;
use crate::decimal::format_decimal;
use crate::token::{DICT_START, END, INTEGER_START, LIST_START, SEPARATOR};

verus! {

/// A bencoded value as a mathematical tree. It is the view of
/// [`crate::bencode::BencodeValue`].
pub enum Bencode {
    /// A whole number.
    Integer(int),
    /// A sequence of arbitrary bytes.
    ByteString(Seq<u8>),
    /// Values in a meaningful order.
    List(Seq<Bencode>),
    /// Keys with their values, in the order in which they are kept.
    Dict(Seq<(Seq<u8>, Bencode)>),
}

/// Whether no key stands twice in `entries`.
pub open spec fn unique_keys(entries: Seq<(Seq<u8>, Bencode)>) -> bool {
    forall|i: int, j: int|
        0 <= i < j < entries.len() ==> (#[trigger] entries[i]).0 != (#[trigger] entries[j]).0
}

/// Whether some entry of `entries` has the key `key`.
pub open spec fn has_key(entries: Seq<(Seq<u8>, Bencode)>, key: Seq<u8>) -> bool {
    exists|i: int| 0 <= i < entries.len() && (#[trigger] entries[i]).0 == key
}

/// The place of an entry with the key `key`; where the keys are unique there
/// is at most one such place.
pub open spec fn key_index(entries: Seq<(Seq<u8>, Bencode)>, key: Seq<u8>) -> int {
    choose|i: int| 0 <= i < entries.len() && (#[trigger] entries[i]).0 == key
}

/// The value kept under `key`, if there is one.
pub open spec fn lookup(entries: Seq<(Seq<u8>, Bencode)>, key: Seq<u8>) -> Option<Bencode> {
    if has_key(entries, key) {
        Some(entries[key_index(entries, key)].1)
    } else {
        None
    }
}

/// `entries` after `key` has been bound to `value`: a key that is already
/// there keeps its place and gets the new value, a new key goes last.
pub open spec fn insert_entry(
    entries: Seq<(Seq<u8>, Bencode)>,
    key: Seq<u8>,
    value: Bencode,
) -> Seq<(Seq<u8>, Bencode)> {
    if has_key(entries, key) {
        entries.update(key_index(entries, key), (key, value))
    } else {
        entries.push((key, value))
    }
}

/// The entries that remain when `pairs` are inserted one after the other
/// into an empty dictionary: the last value of a repeated key wins, at the
/// place of the key's first occurrence.
pub open spec fn collect_entries(pairs: Seq<(Seq<u8>, Bencode)>) -> Seq<(Seq<u8>, Bencode)>
    decreases pairs.len(),
{
    if pairs.len() == 0 {
        Seq::empty()
    } else {
        insert_entry(collect_entries(pairs.drop_last()), pairs.last().0, pairs.last().1)
    }
}

/// The encoding of a byte string: its length in decimal, `:`, its bytes.
pub open spec fn encode_bytes(bytes: Seq<u8>) -> Seq<u8> {
    format_decimal(bytes.len() as int) + seq![SEPARATOR] + bytes
}

/// The canonical encoding of a value.
pub open spec fn encode(value: Bencode) -> Seq<u8>
    decreases value,
{
    match value {
        Bencode::Integer(i) => seq![INTEGER_START] + format_decimal(i) + seq![END],
        Bencode::ByteString(bytes) => encode_bytes(bytes),
        Bencode::List(items) => seq![LIST_START] + encode_items(items) + seq![END],
        Bencode::Dict(entries) => seq![DICT_START] + encode_entries(entries) + seq![END],
    }
}

/// The encodings of `items`, one after the other.
pub open spec fn encode_items(items: Seq<Bencode>) -> Seq<u8>
    decreases items,
{
    if items.len() == 0 {
        Seq::empty()
    } else {
        encode(items[0]) + encode_items(items.drop_first())
    }
}

/// The encodings of `entries`, one after the other, each key as a byte
/// string in front of its value, in the order of `entries`.
pub open spec fn encode_entries(entries: Seq<(Seq<u8>, Bencode)>) -> Seq<u8>
    decreases entries,
{
    if entries.len() == 0 {
        Seq::empty()
    } else {
        encode_bytes(entries[0].0) + encode(entries[0].1) + encode_entries(entries.drop_first())
    }
}

/// Whether `value` nests containers at most `depth` deep: an integer or a
/// byte string nests none, a list or a dictionary one more than its deepest
/// member.
pub open spec fn within_depth(value: Bencode, depth: nat) -> bool
    decreases value,
{
    match value {
        Bencode::Integer(_) => true,
        Bencode::ByteString(_) => true,
        Bencode::List(items) => depth > 0 && forall|i: int|
            0 <= i < items.len() ==> within_depth(#[trigger] items[i], (depth - 1) as nat),
        Bencode::Dict(entries) => depth > 0 && forall|i: int|
            0 <= i < entries.len() ==> within_depth((#[trigger] entries[i]).1, (depth - 1) as nat),
    }
}

/// Whether `value` can be held by the executable type on every machine and
/// read back from its encoding: each integer is an `i64`, each byte string
/// and key has a length that an `i64` can hold, and no dictionary holds a
/// key twice.
pub open spec fn well_formed(value: Bencode) -> bool
    decreases value,
{
    match value {
        Bencode::Integer(i) => i64::MIN <= i <= i64::MAX,
        Bencode::ByteString(bytes) => bytes.len() <= i64::MAX,
        Bencode::List(items) => forall|i: int|
            0 <= i < items.len() ==> well_formed(#[trigger] items[i]),
        Bencode::Dict(entries) => unique_keys(entries) && forall|i: int|
            0 <= i < entries.len() ==> (#[trigger] entries[i]).0.len() <= i64::MAX && well_formed(
                entries[i].1,
            ),
    }
}

} // verus!
