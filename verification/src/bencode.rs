//! Bencoded values, their parser and their canonical serializer.

use vstd::prelude::*;
use vstd::slice::slice_subrange;
use indexmap::IndexMap;
use crate::decimal::{parse_decimal, parse_i64, push_decimal, push_digits};
use crate::grammar;
use crate::grammar::{integer_run, length_run};
use crate::index::{index_entries, index_get, index_insert, index_key_at, index_new};
use crate::model::{
    collect_entries, encode, encode_bytes, encode_entries, encode_items, has_key, insert_entry,
    key_index, lookup, unique_keys, Bencode,
};
use crate::token::{length_byte, DICT_START, END, INTEGER_START, LIST_START, SEPARATOR};

verus! {

/// Why an input is not a bencoded value.
#[derive(Debug, Clone, Copy, PartialEq, Eq)]
pub enum BencodeParserError {
    /// A length or the body of an integer is not an optional `-` and digits,
    /// or is a number that no `i64` holds.
    InvalidPrefixNumber,
    /// A byte string declares a negative length, or more bytes than the
    /// input has left.
    InvalidByteString,
    /// At this offset of the input no value can begin, or the one that has
    /// begun cannot go on.
    Unexpected(usize),
    /// A list or a dictionary is nested deeper than the parser may go.
    TooDeep,
}

/// An ordered dictionary from byte-string keys to values. A key stands at
/// most once; entries keep the order in which their keys first came.
#[derive(Debug)]
pub struct Dict<'a> {
    index: IndexMap<&'a [u8], usize>,
    values: Vec<BencodeValue<'a>>,
}

/// A bencoded value.
#[derive(Debug)]
pub enum BencodeValue<'a> {
    /// A signed 64-bit number.
    Integer(i64),
    /// A sequence of arbitrary bytes, borrowed from the input.
    ByteString(&'a [u8]),
    /// Values in a meaningful order.
    List(Vec<BencodeValue<'a>>),
    /// Keys with their values, in insertion order.
    Dict(Dict<'a>),
}

/// The views of `values`, in the same order.
pub open spec fn views<'a>(values: Seq<BencodeValue<'a>>) -> Seq<Bencode>
    decreases values,
{
    // The bounds are spelled out so that the recursion is seen to end.
    Seq::new(
        values.len(),
        |i: int|
            if 0 <= i < values.len() {
                values[i].view()
            } else {
                arbitrary()
            },
    )
}

impl<'a> BencodeValue<'a> {
    /// The mathematical tree that this value stands for.
    pub open spec fn view(&self) -> Bencode
        decreases self,
    {
        match self {
            BencodeValue::Integer(i) => Bencode::Integer(*i as int),
            BencodeValue::ByteString(bytes) => Bencode::ByteString(bytes@),
            BencodeValue::List(items) => Bencode::List(views(items@)),
            BencodeValue::Dict(dict) => Bencode::Dict(dict.view()),
        }
    }
}

impl<'a> Dict<'a> {
    /// The index binds the key of the entry at place `i` to `i`, holds no key
    /// twice, and has one entry for each value.
    #[verifier::type_invariant]
    spec fn aligned(self) -> bool {
        aligned_parts(index_entries(self.index), self.values@)
    }

    /// The entries of this dictionary: each key with the view of its value,
    /// in order.
    pub closed spec fn view(&self) -> Seq<(Seq<u8>, Bencode)>
        decreases self,
    {
        // The bounds are spelled out so that the recursion is seen to end.
        Seq::new(
            self.values@.len(),
            |i: int|
                (
                    index_entries(self.index)[i].0,
                    if 0 <= i < self.values@.len() {
                        self.values@[i].view()
                    } else {
                        arbitrary()
                    },
                ),
        )
    }

    /// An empty dictionary.
    pub fn new() -> (dict: Dict<'a>)
        ensures
            dict@ == Seq::<(Seq<u8>, Bencode)>::empty(),
    {
        Dict { index: index_new(), values: Vec::new() }
    }

    /// The number of entries.
    pub fn len(&self) -> (n: usize)
        ensures
            n == self@.len(),
            unique_keys(self@),
    {
        proof {
            use_type_invariant(self);
        }
        self.values.len()
    }

    /// Binds `key` to `value`. A key that is already there keeps its place
    /// and gets the new value; a new key goes last.
    pub fn insert(&mut self, key: &'a [u8], value: BencodeValue<'a>)
        ensures
            final(self)@ == insert_entry(old(self)@, key@, value@),
            unique_keys(final(self)@),
    {
        let mut taken = Dict::new();
        core::mem::swap(self, &mut taken);
        proof {
            use_type_invariant(&taken);
        }
        let Dict { index, values } = taken;
        let mut index = index;
        let mut values = values;
        let ghost before = index_entries(index);
        let ghost key_view = key@;
        match index_get(&index, key) {
            Some(at) => {
                proof {
                    let i = choose|i: int|
                        0 <= i < before.len() && #[trigger] before[i] == (key_view, at);
                    assert(old(self)@[i].0 == key_view);
                    assert(key_index(old(self)@, key_view) == i);
                }
                values.set(at, value);
            },
            None => {
                proof {
                    assert forall|i: int| 0 <= i < old(self)@.len() implies (#[trigger] old(
                        self,
                    )@[i]).0 != key_view by {
                        assert(before[i].0 == old(self)@[i].0);
                    }
                }
                let previous = index_insert(&mut index, key, values.len());
                proof {
                    if let Some(number) = previous {
                        let i = choose|i: int|
                            0 <= i < before.len() && #[trigger] before[i] == (key_view, number);
                        assert(before[i].0 == key_view);
                    }
                }
                values.push(value);
            },
        }
        *self = Dict { index, values };
        assert(final(self)@ == insert_entry(old(self)@, key@, value@));
    }

    /// The value bound to `key`, if there is one.
    pub fn get(&self, key: &[u8]) -> (found: Option<&BencodeValue<'a>>)
        ensures
            match found {
                Some(value) => lookup(self@, key@) == Some(value@),
                None => lookup(self@, key@) is None,
            },
    {
        proof {
            use_type_invariant(self);
        }
        let ghost entries = index_entries(self.index);
        match index_get(&self.index, key) {
            Some(at) => {
                proof {
                    let i = choose|i: int|
                        0 <= i < entries.len() && #[trigger] entries[i] == (key@, at);
                    assert(self@[i].0 == key@);
                    assert(key_index(self@, key@) == i);
                }
                Some(&self.values[at])
            },
            None => {
                proof {
                    assert forall|i: int| 0 <= i < self@.len() implies (#[trigger] self@[i]).0
                        != key@ by {
                        assert(entries[i].0 == self@[i].0);
                    }
                }
                None
            },
        }
    }

    /// The key of the entry at place `at`.
    pub fn key_at(&self, at: usize) -> (key: &'a [u8])
        requires
            at < self@.len(),
        ensures
            key@ == self@[at as int].0,
    {
        proof {
            use_type_invariant(self);
        }
        index_key_at(&self.index, at).unwrap()
    }

    /// The value of the entry at place `at`.
    pub fn value_at(&self, at: usize) -> (value: &BencodeValue<'a>)
        requires
            at < self@.len(),
        ensures
            value@ == self@[at as int].1,
            decreases_to!(*self => *value),
    {
        proof {
            assert(decreases_to!(*self => self.values));
            assert(decreases_to!(self.values => self.values@));
            assert(decreases_to!(self.values@ => self.values@[at as int]));
        }
        &self.values[at]
    }
}

impl<'a> Clone for BencodeValue<'a> {
    /// A copy that stands for the same tree.
    fn clone(&self) -> (copy: Self)
        ensures
            copy@ == self@,
        decreases self,
    {
        match self {
            BencodeValue::Integer(number) => BencodeValue::Integer(*number),
            BencodeValue::ByteString(bytes) => BencodeValue::ByteString(*bytes),
            BencodeValue::List(items) => {
                let mut copies: Vec<BencodeValue<'a>> = Vec::new();
                let mut i: usize = 0;
                while i < items.len()
                    invariant
                        0 <= i <= items.len(),
                        *self == BencodeValue::List(*items),
                        views(copies@) == views(items@).take(i as int),
                    decreases items.len() - i,
                {
                    proof {
                        assert(decreases_to!(*self => self->List_0));
                        assert(decreases_to!(*items => items@));
                        assert(decreases_to!(items@ => items@[i as int]));
                    }
                    let copy = items[i].clone();
                    proof {
                        assert(views(copies@).len() == i);
                        assert(views(copies@.push(copy)) == views(copies@).push(copy@));
                        assert(views(items@).take(i + 1) == views(items@).take(i as int).push(
                            items@[i as int]@,
                        ));
                    }
                    copies.push(copy);
                    i += 1;
                }
                assert(views(items@).take(items.len() as int) == views(items@));
                BencodeValue::List(copies)
            },
            BencodeValue::Dict(dict) => {
                proof {
                    assert(decreases_to!(*self => self->Dict_0));
                }
                BencodeValue::Dict(dict.clone())
            },
        }
    }
}

impl<'a> Clone for Dict<'a> {
    /// A copy with the same entries in the same order.
    fn clone(&self) -> (copy: Self)
        ensures
            copy@ == self@,
        decreases self,
    {
        let n = self.len();
        let mut copy = Dict::new();
        let mut i: usize = 0;
        assert(self@.take(0) == copy@);
        while i < n
            invariant
                0 <= i <= n,
                n == self@.len(),
                unique_keys(self@),
                copy@ == self@.take(i as int),
            decreases n - i,
        {
            let key = self.key_at(i);
            let value = self.value_at(i).clone();
            proof {
                let front = self@.take(i as int);
                if has_key(front, key@) {
                    let at = key_index(front, key@);
                    assert(self@[at].0 == front[at].0);
                    assert(self@[i as int].0 == key@);
                }
                assert(front.push((key@, value@)) == self@.take(i + 1));
            }
            copy.insert(key, value);
            i += 1;
        }
        assert(self@.take(n as int) == self@);
        copy
    }
}

/// What the two parts of a dictionary owe each other.
spec fn aligned_parts<'a>(entries: Seq<(Seq<u8>, usize)>, values: Seq<BencodeValue<'a>>) -> bool {
    &&& entries.len() == values.len()
    &&& forall|i: int| 0 <= i < entries.len() ==> (#[trigger] entries[i]).1 == i
    &&& forall|i: int, j: int|
        0 <= i < j < entries.len() ==> (#[trigger] entries[i]).0 != (#[trigger] entries[j]).0
}

/// Appends the encoding of a byte string to `out`.
fn write_bytes(out: &mut Vec<u8>, bytes: &[u8])
    ensures
        final(out)@ == old(out)@ + encode_bytes(bytes@),
{
    push_digits(out, bytes.len() as u64);
    out.push(SEPARATOR);
    out.extend_from_slice(bytes);
    assert(final(out)@ == old(out)@ + encode_bytes(bytes@));
}

/// Appends the canonical encoding of `value` to `out`.
fn write_value(out: &mut Vec<u8>, value: &BencodeValue)
    ensures
        final(out)@ == old(out)@ + encode(value@),
    decreases value,
{
    match value {
        BencodeValue::Integer(number) => {
            out.push(INTEGER_START);
            push_decimal(out, *number);
            out.push(END);
            assert(final(out)@ == old(out)@ + encode(value@));
        },
        BencodeValue::ByteString(bytes) => {
            write_bytes(out, *bytes);
        },
        BencodeValue::List(items) => {
            out.push(LIST_START);
            let ghost all = views(items@);
            let mut i: usize = 0;
            assert(all.skip(0) == all);
            while i < items.len()
                invariant
                    0 <= i <= items.len(),
                    *value == BencodeValue::List(*items),
                    all == views(items@),
                    out@ + encode_items(all.skip(i as int)) == old(out)@ + seq![LIST_START]
                        + encode_items(all),
                decreases items.len() - i,
            {
                proof {
                    assert(all.skip(i as int).drop_first() == all.skip(i + 1));
                    assert(decreases_to!(*value => value->List_0));
                    assert(decreases_to!(*items => items@));
                    assert(decreases_to!(items@ => items@[i as int]));
                }
                write_value(out, &items[i]);
                i += 1;
            }
            out.push(END);
            assert(final(out)@ == old(out)@ + encode(value@));
        },
        BencodeValue::Dict(dict) => {
            out.push(DICT_START);
            let ghost all = dict@;
            let n = dict.len();
            let mut i: usize = 0;
            assert(all.skip(0) == all);
            while i < n
                invariant
                    0 <= i <= n,
                    n == dict@.len(),
                    *value == BencodeValue::Dict(*dict),
                    all == dict@,
                    out@ + encode_entries(all.skip(i as int)) == old(out)@ + seq![DICT_START]
                        + encode_entries(all),
                decreases n - i,
            {
                proof {
                    assert(all.skip(i as int).drop_first() == all.skip(i + 1));
                    assert(decreases_to!(*value => value->Dict_0));
                }
                write_bytes(out, dict.key_at(i));
                write_value(out, dict.value_at(i));
                i += 1;
            }
            out.push(END);
            assert(final(out)@ == old(out)@ + encode(value@));
        },
    }
}

/// Serializes `value` into its canonical encoding: an integer as `i`, its
/// minimal decimal form and `e`; a byte string as its length in decimal, `:`
/// and its bytes; a list as `l`, its items and `e`; a dictionary as `d`, its
/// entries in their stored order, each key as a byte string in front of its
/// value, and `e`.
pub fn to_bytes(value: &BencodeValue) -> (bytes: Vec<u8>)
    ensures
        bytes@ == encode(value@),
{
    let mut out = Vec::new();
    write_value(&mut out, value);
    out
}

/// How deep [`from_bytes`] lets lists and dictionaries nest.
pub const MAX_DEPTH: usize = 256;

/// The items `front` in front of what `rest` gives.
spec fn prepend_items(
    front: Seq<Bencode>,
    rest: Result<(Seq<Bencode>, nat), BencodeParserError>,
) -> Result<(Seq<Bencode>, nat), BencodeParserError> {
    match rest {
        Ok((items, end)) => Ok((front + items, end)),
        Err(e) => Err(e),
    }
}

/// The pairs `front` in front of what `rest` gives.
spec fn prepend_pairs(
    front: Seq<(Seq<u8>, Bencode)>,
    rest: Result<(Seq<(Seq<u8>, Bencode)>, nat), BencodeParserError>,
) -> Result<(Seq<(Seq<u8>, Bencode)>, nat), BencodeParserError> {
    match rest {
        Ok((pairs, end)) => Ok((front + pairs, end)),
        Err(e) => Err(e),
    }
}

/// The offset behind the run of length bytes that starts at `from`.
fn scan_length(input: &[u8], from: usize) -> (end: usize)
    requires
        from <= input.len(),
    ensures
        end == from + length_run(input@, from as nat),
        end <= input.len(),
{
    let mut i = from;
    while i < input.len() && length_byte(input[i])
        invariant
            from <= i <= input.len(),
            from + length_run(input@, from as nat) == i + length_run(input@, i as nat),
        decreases input.len() - i,
    {
        i += 1;
    }
    i
}

/// The offset behind the run of bytes other than `e` that starts at `from`.
fn scan_integer(input: &[u8], from: usize) -> (end: usize)
    requires
        from <= input.len(),
    ensures
        end == from + integer_run(input@, from as nat),
        end <= input.len(),
{
    let mut i = from;
    while i < input.len() && input[i] != END
        invariant
            from <= i <= input.len(),
            from + integer_run(input@, from as nat) == i + integer_run(input@, i as nat),
        decreases input.len() - i,
    {
        i += 1;
    }
    i
}

/// Reads a numeric token as an `i64`; a token that is no such number is an
/// `InvalidPrefixNumber`.
pub fn bytes_to_i64(bytes: &[u8]) -> (r: Result<i64, BencodeParserError>)
    ensures
        match r {
            Ok(number) => parse_decimal(bytes@) == Some(number as int),
            Err(e) => parse_decimal(bytes@) is None && e == BencodeParserError::InvalidPrefixNumber,
        },
{
    match parse_i64(bytes) {
        Some(number) => Ok(number),
        None => Err(BencodeParserError::InvalidPrefixNumber),
    }
}

/// Parses the integer whose `i` stands at `pos`, and gives the offset
/// behind it.
pub fn parse_integer(input: &[u8], pos: usize) -> (r: Result<(i64, usize), BencodeParserError>)
    requires
        pos < input.len(),
    ensures
        match r {
            Ok((number, end)) => grammar::parse_integer(input@, pos as nat) == Ok::<
                (int, nat),
                BencodeParserError,
            >((number as int, end as nat)) && pos < end <= input.len(),
            Err(e) => grammar::parse_integer(input@, pos as nat) == Err::<
                (int, nat),
                BencodeParserError,
            >(e),
        },
{
    let close = scan_integer(input, pos + 1);
    if close == pos + 1 {
        return Err(BencodeParserError::Unexpected(pos + 1));
    }
    if close >= input.len() {
        return Err(BencodeParserError::Unexpected(close));
    }
    match bytes_to_i64(slice_subrange(input, pos + 1, close)) {
        Ok(number) => Ok((number, close + 1)),
        Err(e) => Err(e),
    }
}

/// Parses the byte string at `pos`, and gives the offset behind it.
pub fn parse_byte_string<'a>(input: &'a [u8], pos: usize) -> (r: Result<
    (&'a [u8], usize),
    BencodeParserError,
>)
    requires
        pos <= input.len(),
    ensures
        match r {
            Ok((bytes, end)) => grammar::parse_byte_string(input@, pos as nat) == Ok::<
                (Seq<u8>, nat),
                BencodeParserError,
            >((bytes@, end as nat)) && pos < end <= input.len(),
            Err(e) => grammar::parse_byte_string(input@, pos as nat) == Err::<
                (Seq<u8>, nat),
                BencodeParserError,
            >(e),
        },
{
    let colon = scan_length(input, pos);
    if colon == pos || colon >= input.len() || input[colon] != SEPARATOR {
        return Err(BencodeParserError::Unexpected(pos));
    }
    let length = match bytes_to_i64(slice_subrange(input, pos, colon)) {
        Ok(length) => length,
        Err(e) => {
            return Err(e);
        },
    };
    if length < 0 {
        return Err(BencodeParserError::InvalidByteString);
    }
    let start = colon + 1;
    let left = input.len() - start;
    if length as u64 > left as u64 {
        return Err(BencodeParserError::InvalidByteString);
    }
    let end = start + length as usize;
    Ok((slice_subrange(input, start, end), end))
}

/// Parses the value at `pos`, and gives the offset behind it. Lists and
/// dictionaries may nest `depth` deep.
pub fn parse<'a>(input: &'a [u8], pos: usize, depth: usize) -> (r: Result<
    (BencodeValue<'a>, usize),
    BencodeParserError,
>)
    requires
        pos <= input.len(),
    ensures
        match r {
            Ok((value, end)) => grammar::parse_value(input@, pos as nat, depth as nat) == Ok::<
                (Bencode, nat),
                BencodeParserError,
            >((value@, end as nat)) && pos < end <= input.len(),
            Err(e) => grammar::parse_value(input@, pos as nat, depth as nat) == Err::<
                (Bencode, nat),
                BencodeParserError,
            >(e),
        },
    decreases depth, 1nat,
{
    if pos < input.len() && input[pos] == DICT_START {
        if depth == 0 {
            return Err(BencodeParserError::TooDeep);
        }
        match parse_dict(input, pos + 1, depth) {
            Ok((dict, end)) => Ok((BencodeValue::Dict(dict), end)),
            Err(e) => Err(e),
        }
    } else if pos < input.len() && input[pos] == LIST_START {
        if depth == 0 {
            return Err(BencodeParserError::TooDeep);
        }
        match parse_list(input, pos + 1, depth) {
            Ok((items, end)) => Ok((BencodeValue::List(items), end)),
            Err(e) => Err(e),
        }
    } else if pos < input.len() && length_byte(input[pos]) {
        match parse_byte_string(input, pos) {
            Ok((bytes, end)) => Ok((BencodeValue::ByteString(bytes), end)),
            Err(e) => Err(e),
        }
    } else if pos < input.len() && input[pos] == INTEGER_START {
        match parse_integer(input, pos) {
            Ok((number, end)) => Ok((BencodeValue::Integer(number), end)),
            Err(e) => Err(e),
        }
    } else {
        Err(BencodeParserError::Unexpected(pos))
    }
}

/// Parses the items of a list whose `l` stands just before `pos`, up to the
/// closing `e`, and gives the offset behind that `e`. The list itself is at
/// depth `depth`, which is not zero; its items may nest one less.
pub fn parse_list<'a>(input: &'a [u8], pos: usize, depth: usize) -> (r: Result<
    (Vec<BencodeValue<'a>>, usize),
    BencodeParserError,
>)
    requires
        pos <= input.len(),
        depth > 0,
    ensures
        match r {
            Ok((items, end)) => grammar::parse_items(input@, pos as nat, (depth - 1) as nat)
                == Ok::<(Seq<Bencode>, nat), BencodeParserError>((views(items@), end as nat))
                && pos < end <= input.len(),
            Err(e) => grammar::parse_items(input@, pos as nat, (depth - 1) as nat) == Err::<
                (Seq<Bencode>, nat),
                BencodeParserError,
            >(e),
        },
    decreases depth, 0nat,
{
    let mut items: Vec<BencodeValue<'a>> = Vec::new();
    let mut cur = pos;
    let ghost whole = grammar::parse_items(input@, pos as nat, (depth - 1) as nat);
    assert(prepend_items(views(items@), whole) == whole) by {
        if let Ok((rest, end)) = whole {
            assert(views(items@) + rest == rest);
        }
    }
    loop
        invariant
            pos <= cur <= input.len(),
            depth > 0,
            whole == grammar::parse_items(input@, pos as nat, (depth - 1) as nat),
            whole == prepend_items(
                views(items@),
                grammar::parse_items(input@, cur as nat, (depth - 1) as nat),
            ),
        decreases input.len() - cur,
    {
        if cur < input.len() && input[cur] == END {
            assert(views(items@) + Seq::<Bencode>::empty() == views(items@));
            return Ok((items, cur + 1));
        }
        match parse(input, cur, depth - 1) {
            Err(e) => {
                return Err(e);
            },
            Ok((item, next)) => {
                proof {
                    let front = views(items@);
                    let after = grammar::parse_items(input@, next as nat, (depth - 1) as nat);
                    assert(views(items@.push(item)) == front.push(item@));
                    if let Ok((rest, end)) = after {
                        assert(front + (seq![item@] + rest) == front.push(item@) + rest);
                    }
                }
                items.push(item);
                cur = next;
            },
        }
    }
}

/// Parses the entries of a dictionary whose `d` stands just before `pos`, up
/// to the closing `e`, and gives the offset behind that `e`. Of a key that
/// stands more than once the last value is kept, at the place of the first.
/// The dictionary itself is at depth `depth`, which is not zero.
pub fn parse_dict<'a>(input: &'a [u8], pos: usize, depth: usize) -> (r: Result<
    (Dict<'a>, usize),
    BencodeParserError,
>)
    requires
        pos <= input.len(),
        depth > 0,
    ensures
        match r {
            Ok((dict, end)) => {
                &&& pos < end <= input.len()
                &&& grammar::parse_pairs(input@, pos as nat, (depth - 1) as nat) matches Ok(
                    (pairs, stop),
                )
                &&& dict@ == collect_entries(pairs)
                &&& stop == end
            },
            Err(e) => grammar::parse_pairs(input@, pos as nat, (depth - 1) as nat) == Err::<
                (Seq<(Seq<u8>, Bencode)>, nat),
                BencodeParserError,
            >(e),
        },
    decreases depth, 0nat,
{
    let mut dict = Dict::new();
    let mut cur = pos;
    let ghost whole = grammar::parse_pairs(input@, pos as nat, (depth - 1) as nat);
    let ghost mut seen: Seq<(Seq<u8>, Bencode)> = Seq::empty();
    assert(prepend_pairs(seen, whole) == whole) by {
        if let Ok((rest, end)) = whole {
            assert(seen + rest == rest);
        }
    }
    loop
        invariant
            pos <= cur <= input.len(),
            depth > 0,
            whole == grammar::parse_pairs(input@, pos as nat, (depth - 1) as nat),
            whole == prepend_pairs(
                seen,
                grammar::parse_pairs(input@, cur as nat, (depth - 1) as nat),
            ),
            dict@ == collect_entries(seen),
        decreases input.len() - cur,
    {
        if cur < input.len() && input[cur] == END {
            assert(seen + Seq::<(Seq<u8>, Bencode)>::empty() == seen);
            return Ok((dict, cur + 1));
        }
        let (key, middle) = match parse_byte_string(input, cur) {
            Ok(found) => found,
            Err(e) => {
                return Err(e);
            },
        };
        match parse(input, middle, depth - 1) {
            Err(e) => {
                return Err(e);
            },
            Ok((value, next)) => {
                proof {
                    let pair = (key@, value@);
                    let after = grammar::parse_pairs(input@, next as nat, (depth - 1) as nat);
                    assert(seen.push(pair).drop_last() == seen);
                    if let Ok((rest, end)) = after {
                        assert(seen + (seq![pair] + rest) == seen.push(pair) + rest);
                    }
                    seen = seen.push(pair);
                }
                dict.insert(key, value);
                cur = next;
            },
        }
    }
}

/// Parses the value that `input` begins with, letting lists and
/// dictionaries nest `max_depth` deep, and gives it with the bytes that
/// follow it. On failure gives the first error met from left to right.
pub fn from_bytes_with_depth<'a>(input: &'a [u8], max_depth: usize) -> (r: Result<
    (&'a [u8], BencodeValue<'a>),
    BencodeParserError,
>)
    ensures
        match r {
            Ok((rest, value)) => grammar::parse(input@, max_depth as nat) == Ok::<
                (Bencode, Seq<u8>),
                BencodeParserError,
            >((value@, rest@)),
            Err(e) => grammar::parse(input@, max_depth as nat) == Err::<
                (Bencode, Seq<u8>),
                BencodeParserError,
            >(e),
        },
{
    match parse(input, 0, max_depth) {
        Ok((value, end)) => Ok((slice_subrange(input, end, input.len()), value)),
        Err(e) => Err(e),
    }
}

/// Parses the value that `input` begins with, and gives it with the bytes
/// that follow it. Lists and dictionaries may nest [`MAX_DEPTH`] deep.
///
/// An integer is `i`, an optional `-`, digits and `e`; a byte string is its
/// length in digits, `:` and that many bytes; a list is `l`, values and `e`;
/// a dictionary is `d`, byte-string keys each with its value, and `e`.
/// Leading zeros are read, a `+` is not. Of a key that stands more than
/// once the last value is kept, at the place of the first. The first
/// failure from the left is the result: see [`BencodeParserError`].
pub fn from_bytes(input: &[u8]) -> (r: Result<(&[u8], BencodeValue), BencodeParserError>)
    ensures
        match r {
            Ok((rest, value)) => grammar::parse(input@, MAX_DEPTH as nat) == Ok::<
                (Bencode, Seq<u8>),
                BencodeParserError,
            >((value@, rest@)),
            Err(e) => grammar::parse(input@, MAX_DEPTH as nat) == Err::<
                (Bencode, Seq<u8>),
                BencodeParserError,
            >(e),
        },
{
    from_bytes_with_depth(input, MAX_DEPTH)
}

} // verus!
