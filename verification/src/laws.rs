//! What holds of the parser and the serializer together: parsing undoes
//! serializing, a parsed value survives another round, and the bytes behind
//! a value have no part in it. The laws stand at the end of the file, behind
//! the lemmas they rest on.

use vstd::prelude::*;
use crate::bencode::{BencodeParserError, BencodeValue};
use crate::decimal::{
    format_decimal, lemma_format_decimal_bytes, lemma_parse_format_decimal, parse_decimal,
};
use crate::grammar::{
    integer_run, length_run, parse, parse_byte_string, parse_integer, parse_items, parse_pairs,
    parse_value,
};
use crate::model::{
    collect_entries, encode, encode_bytes, encode_entries, encode_items, has_key, insert_entry,
    key_index, unique_keys, well_formed, within_depth, Bencode,
};
use crate::token::{
    is_digit, is_length_byte, DICT_START, END, INTEGER_START, LIST_START, MINUS, SEPARATOR,
};

verus! {

/// Whether `s` holds the bytes `part` from offset `pos` on.
pub open spec fn holds_at(s: Seq<u8>, pos: nat, part: Seq<u8>) -> bool {
    pos + part.len() <= s.len() && s.subrange(pos as int, pos as int + part.len()) == part
}

/// Where `s` holds `a + b`, it holds `a` and, behind it, `b`.
pub proof fn lemma_holds_at_split(s: Seq<u8>, pos: nat, a: Seq<u8>, b: Seq<u8>)
    requires
        holds_at(s, pos, a + b),
    ensures
        holds_at(s, pos, a),
        holds_at(s, pos + a.len(), b),
{
    let whole = s.subrange(pos as int, pos as int + (a + b).len());
    assert forall|k: int| 0 <= k < a.len() implies s[pos + k] == a[k] by {
        assert(whole[k] == (a + b)[k]);
    }
    assert forall|k: int| 0 <= k < b.len() implies s[pos + a.len() + k] == b[k] by {
        assert(whole[a.len() + k] == (a + b)[a.len() + k]);
    }
    assert(s.subrange(pos as int, pos as int + a.len()) =~= a);
    assert(s.subrange(pos as int + a.len(), pos as int + a.len() + b.len()) =~= b);
}

/// A run of length bytes ends within the input.
pub proof fn lemma_length_run_bound(s: Seq<u8>, from: nat)
    ensures
        from <= s.len() ==> from + length_run(s, from) <= s.len(),
    decreases s.len() - from,
{
    if from < s.len() && is_length_byte(s[from as int]) {
        lemma_length_run_bound(s, from + 1);
    }
}

/// A run of bytes other than `e` ends within the input.
pub proof fn lemma_integer_run_bound(s: Seq<u8>, from: nat)
    ensures
        from <= s.len() ==> from + integer_run(s, from) <= s.len(),
    decreases s.len() - from,
{
    if from < s.len() && s[from as int] != END {
        lemma_integer_run_bound(s, from + 1);
    }
}

/// `count` length bytes with a byte of another kind behind them are a run
/// of `count`.
pub proof fn lemma_length_run_exact(s: Seq<u8>, from: nat, count: nat)
    requires
        from + count < s.len(),
        forall|k: int| from <= k < from + count ==> is_length_byte(#[trigger] s[k]),
        !is_length_byte(s[from as int + count]),
    ensures
        length_run(s, from) == count,
    decreases count,
{
    if count > 0 {
        assert(is_length_byte(s[from as int]));
        lemma_length_run_exact(s, from + 1, (count - 1) as nat);
    }
}

/// `count` bytes other than `e` with an `e` behind them are a run of
/// `count`.
pub proof fn lemma_integer_run_exact(s: Seq<u8>, from: nat, count: nat)
    requires
        from + count < s.len(),
        forall|k: int| from <= k < from + count ==> #[trigger] s[k] != END,
        s[from as int + count] == END,
    ensures
        integer_run(s, from) == count,
    decreases count,
{
    if count > 0 {
        assert(s[from as int] != END);
        lemma_integer_run_exact(s, from + 1, (count - 1) as nat);
    }
}

/// Inserting every entry of a dictionary without repeated keys into an
/// empty one builds the same dictionary.
pub proof fn lemma_collect_unique(entries: Seq<(Seq<u8>, Bencode)>)
    requires
        unique_keys(entries),
    ensures
        collect_entries(entries) == entries,
    decreases entries.len(),
{
    if entries.len() > 0 {
        let front = entries.drop_last();
        let last = entries.last();
        lemma_collect_unique(front);
        if has_key(front, last.0) {
            let i = key_index(front, last.0);
            assert(entries[i].0 == front[i].0);
            assert(entries[entries.len() - 1].0 == last.0);
        }
        assert(front.push((last.0, last.1)) == entries);
    }
}

/// Entries that were collected one by one hold no key twice.
pub proof fn lemma_collect_has_unique_keys(pairs: Seq<(Seq<u8>, Bencode)>)
    ensures
        unique_keys(collect_entries(pairs)),
    decreases pairs.len(),
{
    if pairs.len() > 0 {
        let front = collect_entries(pairs.drop_last());
        let key = pairs.last().0;
        lemma_collect_has_unique_keys(pairs.drop_last());
        let after = insert_entry(front, key, pairs.last().1);
        if has_key(front, key) {
            let at = key_index(front, key);
            assert forall|i: int, j: int| 0 <= i < j < after.len() implies (#[trigger] after[i]).0
                != (#[trigger] after[j]).0 by {
                assert(after[i].0 == front[i].0);
                assert(after[j].0 == front[j].0);
            }
        } else {
            assert forall|i: int, j: int| 0 <= i < j < after.len() implies (#[trigger] after[i]).0
                != (#[trigger] after[j]).0 by {
                if j < front.len() {
                    assert(after[i].0 == front[i].0);
                    assert(after[j].0 == front[j].0);
                } else {
                    assert(after[i].0 == front[i].0);
                }
            }
        }
    }
}

/// Each entry that was collected came from one of the pairs.
pub proof fn lemma_collect_members(pairs: Seq<(Seq<u8>, Bencode)>)
    ensures
        forall|i: int|
            0 <= i < collect_entries(pairs).len() ==> pairs.contains(
                #[trigger] collect_entries(pairs)[i],
            ),
    decreases pairs.len(),
{
    if pairs.len() > 0 {
        let shorter = pairs.drop_last();
        let front = collect_entries(shorter);
        let last = pairs.last();
        lemma_collect_members(shorter);
        let after = collect_entries(pairs);
        assert(pairs[pairs.len() - 1] == last);
        assert forall|i: int| 0 <= i < after.len() implies pairs.contains(#[trigger] after[i]) by {
            if after[i] == (last.0, last.1) {
                assert(after[i] == pairs[pairs.len() - 1]);
            } else {
                assert(after[i] == front[i]);
                assert(shorter.contains(front[i]));
                let j = choose|j: int| 0 <= j < shorter.len() && shorter[j] == front[i];
                assert(pairs[j] == shorter[j]);
            }
        }
    }
}

/// Whatever value the parser finds takes at least one byte, ends within the
/// input, is well formed, and nests no deeper than the parser was allowed
/// to go.
pub proof fn lemma_value_advances(s: Seq<u8>, pos: nat, depth: nat)
    ensures
        parse_value(s, pos, depth) matches Ok((value, end)) ==> pos < end <= s.len()
            && well_formed(value) && within_depth(value, depth),
    decreases s.len() - pos, 0nat,
{
    if pos < s.len() && s[pos as int] == DICT_START {
        if depth > 0 {
            lemma_pairs_advance(s, pos + 1, (depth - 1) as nat);
            if let Ok((pairs, end)) = parse_pairs(s, pos + 1, (depth - 1) as nat) {
                let entries = collect_entries(pairs);
                lemma_collect_has_unique_keys(pairs);
                lemma_collect_members(pairs);
                assert forall|i: int| 0 <= i < entries.len() implies (#[trigger] entries[i]).0.len()
                    <= i64::MAX && well_formed(entries[i].1) && within_depth(
                    entries[i].1,
                    (depth - 1) as nat,
                ) by {
                    let j = choose|j: int| 0 <= j < pairs.len() && pairs[j] == entries[i];
                    assert(pairs[j].0.len() <= i64::MAX);
                }
            }
        }
    } else if pos < s.len() && s[pos as int] == LIST_START {
        if depth > 0 {
            lemma_items_advance(s, pos + 1, (depth - 1) as nat);
        }
    } else if pos < s.len() && is_length_byte(s[pos as int]) {
        lemma_length_run_bound(s, pos);
    } else if pos < s.len() && s[pos as int] == INTEGER_START {
        lemma_integer_run_bound(s, pos + 1);
    }
}

/// Whatever items the list production finds end within the input, behind
/// at least the closing `e`, and each is as [`lemma_value_advances`] says.
pub proof fn lemma_items_advance(s: Seq<u8>, pos: nat, depth: nat)
    ensures
        parse_items(s, pos, depth) matches Ok((items, end)) ==> pos < end <= s.len() && forall|
            i: int,
        |
            0 <= i < items.len() ==> well_formed(#[trigger] items[i]) && within_depth(
                items[i],
                depth,
            ),
    decreases s.len() - pos, 1nat,
{
    if pos < s.len() && s[pos as int] == END {
    } else {
        lemma_value_advances(s, pos, depth);
        if let Ok((item, next)) = parse_value(s, pos, depth) {
            if pos < next <= s.len() {
                lemma_items_advance(s, next, depth);
                if let Ok((rest, end)) = parse_items(s, next, depth) {
                    let items = seq![item] + rest;
                    assert forall|i: int| 0 <= i < items.len() implies well_formed(
                        #[trigger] items[i],
                    ) && within_depth(items[i], depth) by {
                        if i > 0 {
                            assert(items[i] == rest[i - 1]);
                        }
                    }
                }
            }
        }
    }
}

/// Whatever pairs the dictionary production finds end within the input,
/// behind at least the closing `e`; each key has a length that an `i64`
/// holds, and each value is as [`lemma_value_advances`] says.
pub proof fn lemma_pairs_advance(s: Seq<u8>, pos: nat, depth: nat)
    ensures
        parse_pairs(s, pos, depth) matches Ok((pairs, end)) ==> pos < end <= s.len() && forall|
            i: int,
        |
            0 <= i < pairs.len() ==> (#[trigger] pairs[i]).0.len() <= i64::MAX && well_formed(
                pairs[i].1,
            ) && within_depth(pairs[i].1, depth),
    decreases s.len() - pos, 1nat,
{
    if pos < s.len() && s[pos as int] == END {
    } else {
        lemma_length_run_bound(s, pos);
        if let Ok((key, middle)) = parse_byte_string(s, pos) {
            lemma_value_advances(s, middle, depth);
            if let Ok((value, next)) = parse_value(s, middle, depth) {
                if pos < next <= s.len() {
                    lemma_pairs_advance(s, next, depth);
                    if let Ok((rest, end)) = parse_pairs(s, next, depth) {
                        let pairs = seq![(key, value)] + rest;
                        assert forall|i: int| 0 <= i < pairs.len() implies (#[trigger] pairs[i]).0.len()
                            <= i64::MAX && well_formed(pairs[i].1) && within_depth(
                            pairs[i].1,
                            depth,
                        ) by {
                            if i > 0 {
                                assert(pairs[i] == rest[i - 1]);
                            }
                        }
                    }
                }
            }
        }
    }
}

/// The encoding of a byte string begins with a digit.
pub proof fn lemma_encode_bytes_start(bytes: Seq<u8>)
    ensures
        encode_bytes(bytes).len() >= 2,
        is_digit(encode_bytes(bytes)[0]),
{
    lemma_format_decimal_bytes(bytes.len() as int);
    let number = format_decimal(bytes.len() as int);
    assert(is_digit(number[0]));
    assert(encode_bytes(bytes)[0] == number[0]);
}

/// No encoding is empty, and none begins with `e`.
pub proof fn lemma_encode_start(value: Bencode)
    requires
        well_formed(value),
    ensures
        encode(value).len() >= 2,
        encode(value)[0] != END,
{
    match value {
        Bencode::Integer(i) => {
            assert(encode(value)[0] == INTEGER_START);
        },
        Bencode::ByteString(bytes) => {
            lemma_encode_bytes_start(bytes);
        },
        Bencode::List(items) => {
            assert(encode(value)[0] == LIST_START);
        },
        Bencode::Dict(entries) => {
            assert(encode(value)[0] == DICT_START);
        },
    }
}

/// Where the input holds the encoding of a byte string, the byte-string
/// production reads those bytes back and stops behind them.
pub proof fn lemma_parse_encoded_bytes(s: Seq<u8>, pos: nat, bytes: Seq<u8>)
    requires
        bytes.len() <= i64::MAX,
        holds_at(s, pos, encode_bytes(bytes)),
    ensures
        parse_byte_string(s, pos) == Ok::<(Seq<u8>, nat), BencodeParserError>(
            (bytes, pos + encode_bytes(bytes).len()),
        ),
        pos < s.len(),
        is_digit(s[pos as int]),
{
    let number = format_decimal(bytes.len() as int);
    let tail = seq![SEPARATOR] + bytes;
    assert(encode_bytes(bytes) == number + tail);
    lemma_holds_at_split(s, pos, number, tail);
    lemma_holds_at_split(s, pos + number.len(), seq![SEPARATOR], bytes);
    lemma_format_decimal_bytes(bytes.len() as int);
    lemma_parse_format_decimal(bytes.len() as int);
    let colon = pos + number.len();
    assert forall|k: int| pos <= k < colon implies is_length_byte(#[trigger] s[k]) by {
        assert(s.subrange(pos as int, colon as int)[k - pos] == number[k - pos]);
        assert(is_digit(number[k - pos]));
    }
    assert(s[colon as int] == SEPARATOR) by {
        assert(s.subrange(colon as int, colon as int + 1)[0] == seq![SEPARATOR][0]);
    }
    lemma_length_run_exact(s, pos, number.len());
    assert(s[pos as int] == number[0]) by {
        assert(s.subrange(pos as int, colon as int)[0] == number[0]);
    }
}

/// Where the input holds the encoding of an integer, the integer
/// production reads the number back and stops behind the encoding.
pub proof fn lemma_parse_encoded_integer(s: Seq<u8>, pos: nat, number: int)
    requires
        i64::MIN <= number <= i64::MAX,
        holds_at(s, pos, encode(Bencode::Integer(number))),
    ensures
        parse_integer(s, pos) == Ok::<(int, nat), BencodeParserError>(
            (number, pos + encode(Bencode::Integer(number)).len()),
        ),
        pos < s.len(),
        s[pos as int] == INTEGER_START,
{
    let body = format_decimal(number);
    let tail = body + seq![END];
    assert(encode(Bencode::Integer(number)) == seq![INTEGER_START] + tail);
    lemma_holds_at_split(s, pos, seq![INTEGER_START], tail);
    lemma_holds_at_split(s, pos + 1, body, seq![END]);
    lemma_format_decimal_bytes(number);
    lemma_parse_format_decimal(number);
    let close = pos + 1 + body.len();
    assert forall|k: int| pos + 1 <= k < close implies #[trigger] s[k] != END by {
        assert(s.subrange(pos as int + 1, close as int)[k - pos - 1] == body[k - pos - 1]);
        assert(is_digit(body[k - pos - 1]) || body[k - pos - 1] == MINUS);
    }
    assert(s[close as int] == END) by {
        assert(s.subrange(close as int, close as int + 1)[0] == seq![END][0]);
    }
    lemma_integer_run_exact(s, pos + 1, body.len());
    assert(s[pos as int] == INTEGER_START) by {
        assert(s.subrange(pos as int, pos as int + 1)[0] == seq![INTEGER_START][0]);
    }
}

/// Where the input holds the encoding of a well-formed value that nests no
/// deeper than `depth`, the parser reads that value back and stops behind
/// the encoding.
pub proof fn lemma_parse_encoded(s: Seq<u8>, pos: nat, value: Bencode, depth: nat)
    requires
        well_formed(value),
        within_depth(value, depth),
        holds_at(s, pos, encode(value)),
    ensures
        parse_value(s, pos, depth) == Ok::<(Bencode, nat), BencodeParserError>(
            (value, pos + encode(value).len()),
        ),
    decreases value,
{
    match value {
        Bencode::Integer(number) => {
            lemma_parse_encoded_integer(s, pos, number);
        },
        Bencode::ByteString(bytes) => {
            lemma_parse_encoded_bytes(s, pos, bytes);
        },
        Bencode::List(items) => {
            let tail = encode_items(items) + seq![END];
            assert(encode(value) == seq![LIST_START] + tail);
            lemma_holds_at_split(s, pos, seq![LIST_START], tail);
            assert(s[pos as int] == LIST_START) by {
                assert(s.subrange(pos as int, pos as int + 1)[0] == seq![LIST_START][0]);
            }
            lemma_parse_encoded_items(s, pos + 1, items, (depth - 1) as nat);
        },
        Bencode::Dict(entries) => {
            let tail = encode_entries(entries) + seq![END];
            assert(encode(value) == seq![DICT_START] + tail);
            lemma_holds_at_split(s, pos, seq![DICT_START], tail);
            assert(s[pos as int] == DICT_START) by {
                assert(s.subrange(pos as int, pos as int + 1)[0] == seq![DICT_START][0]);
            }
            lemma_parse_encoded_entries(s, pos + 1, entries, (depth - 1) as nat);
            lemma_collect_unique(entries);
        },
    }
}

/// Where the input holds the encodings of `items` and an `e` behind them,
/// the list production reads the items back and stops behind the `e`.
pub proof fn lemma_parse_encoded_items(s: Seq<u8>, pos: nat, items: Seq<Bencode>, depth: nat)
    requires
        forall|i: int| 0 <= i < items.len() ==> well_formed(#[trigger] items[i]),
        forall|i: int| 0 <= i < items.len() ==> within_depth(#[trigger] items[i], depth),
        holds_at(s, pos, encode_items(items) + seq![END]),
    ensures
        parse_items(s, pos, depth) == Ok::<(Seq<Bencode>, nat), BencodeParserError>(
            (items, pos + encode_items(items).len() + 1),
        ),
    decreases items,
{
    if items.len() == 0 {
        assert(s[pos as int] == END) by {
            assert(s.subrange(pos as int, pos as int + 1)[0] == seq![END][0]);
        }
        assert(items == Seq::<Bencode>::empty());
    } else {
        let first = items[0];
        let rest = items.drop_first();
        let head = encode(first);
        let tail = encode_items(rest) + seq![END];
        assert(encode_items(items) + seq![END] == head + tail);
        lemma_holds_at_split(s, pos, head, tail);
        lemma_encode_start(first);
        assert(s[pos as int] == head[0]) by {
            assert(s.subrange(pos as int, pos as int + head.len())[0] == head[0]);
        }
        lemma_parse_encoded(s, pos, first, depth);
        assert forall|i: int| 0 <= i < rest.len() implies well_formed(#[trigger] rest[i]) by {
            assert(rest[i] == items[i + 1]);
        }
        assert forall|i: int| 0 <= i < rest.len() implies within_depth(
            #[trigger] rest[i],
            depth,
        ) by {
            assert(rest[i] == items[i + 1]);
        }
        lemma_parse_encoded_items(s, pos + head.len(), rest, depth);
        assert(seq![first] + rest == items);
    }
}

/// Where the input holds the encodings of `entries` and an `e` behind them,
/// the dictionary production reads the entries back, in their order, and
/// stops behind the `e`.
pub proof fn lemma_parse_encoded_entries(
    s: Seq<u8>,
    pos: nat,
    entries: Seq<(Seq<u8>, Bencode)>,
    depth: nat,
)
    requires
        forall|i: int|
            0 <= i < entries.len() ==> (#[trigger] entries[i]).0.len() <= i64::MAX && well_formed(
                entries[i].1,
            ),
        forall|i: int| 0 <= i < entries.len() ==> within_depth((#[trigger] entries[i]).1, depth),
        holds_at(s, pos, encode_entries(entries) + seq![END]),
    ensures
        parse_pairs(s, pos, depth) == Ok::<(Seq<(Seq<u8>, Bencode)>, nat), BencodeParserError>(
            (entries, pos + encode_entries(entries).len() + 1),
        ),
    decreases entries,
{
    if entries.len() == 0 {
        assert(s[pos as int] == END) by {
            assert(s.subrange(pos as int, pos as int + 1)[0] == seq![END][0]);
        }
        assert(entries == Seq::<(Seq<u8>, Bencode)>::empty());
    } else {
        let first = entries[0];
        let rest = entries.drop_first();
        let key = encode_bytes(first.0);
        let head = encode(first.1);
        let tail = encode_entries(rest) + seq![END];
        assert(encode_entries(entries) + seq![END] == key + (head + tail));
        lemma_holds_at_split(s, pos, key, head + tail);
        lemma_holds_at_split(s, pos + key.len(), head, tail);
        lemma_parse_encoded_bytes(s, pos, first.0);
        lemma_encode_start(first.1);
        lemma_parse_encoded(s, pos + key.len(), first.1, depth);
        assert forall|i: int| 0 <= i < rest.len() implies (#[trigger] rest[i]).0.len()
            <= i64::MAX && well_formed(rest[i].1) by {
            assert(rest[i] == entries[i + 1]);
        }
        assert forall|i: int| 0 <= i < rest.len() implies within_depth(
            (#[trigger] rest[i]).1,
            depth,
        ) by {
            assert(rest[i] == entries[i + 1]);
        }
        lemma_parse_encoded_entries(s, pos + key.len() + head.len(), rest, depth);
        assert(seq![(first.0, first.1)] + rest == entries);
    }
}

/// A run of length bytes that ends within `s` is the same run in `s` with
/// more bytes behind it.
pub proof fn lemma_length_run_extend(s: Seq<u8>, tail: Seq<u8>, from: nat)
    requires
        from + length_run(s, from) < s.len(),
    ensures
        length_run(s + tail, from) == length_run(s, from),
    decreases s.len() - from,
{
    assert((s + tail)[from as int] == s[from as int]);
    if is_length_byte(s[from as int]) {
        lemma_length_run_extend(s, tail, from + 1);
    }
}

/// A run of bytes other than `e` that ends within `s` is the same run in
/// `s` with more bytes behind it.
pub proof fn lemma_integer_run_extend(s: Seq<u8>, tail: Seq<u8>, from: nat)
    requires
        from + integer_run(s, from) < s.len(),
    ensures
        integer_run(s + tail, from) == integer_run(s, from),
    decreases s.len() - from,
{
    assert((s + tail)[from as int] == s[from as int]);
    if s[from as int] != END {
        lemma_integer_run_extend(s, tail, from + 1);
    }
}

/// A byte string that was found in `s` is found in `s` with more bytes
/// behind it.
pub proof fn lemma_byte_string_extend(s: Seq<u8>, tail: Seq<u8>, pos: nat)
    requires
        parse_byte_string(s, pos) is Ok,
    ensures
        parse_byte_string(s + tail, pos) == parse_byte_string(s, pos),
{
    let colon = pos + length_run(s, pos);
    lemma_length_run_extend(s, tail, pos);
    assert((s + tail)[colon as int] == s[colon as int]);
    assert((s + tail).subrange(pos as int, colon as int) == s.subrange(pos as int, colon as int));
    let length = parse_decimal(s.subrange(pos as int, colon as int))->0;
    assert((s + tail).subrange(colon as int + 1, colon + 1 + length) == s.subrange(
        colon as int + 1,
        colon + 1 + length,
    ));
}

/// An integer that was found in `s` is found in `s` with more bytes behind
/// it.
pub proof fn lemma_integer_extend(s: Seq<u8>, tail: Seq<u8>, pos: nat)
    requires
        parse_integer(s, pos) is Ok,
    ensures
        parse_integer(s + tail, pos) == parse_integer(s, pos),
{
    let close = pos + 1 + integer_run(s, pos + 1);
    lemma_integer_run_extend(s, tail, pos + 1);
    assert((s + tail).subrange(pos as int + 1, close as int) == s.subrange(
        pos as int + 1,
        close as int,
    ));
}

/// A value that was found in `s` is found in `s` with more bytes behind it,
/// and ends at the same offset.
pub proof fn lemma_value_extend(s: Seq<u8>, tail: Seq<u8>, pos: nat, depth: nat)
    requires
        parse_value(s, pos, depth) is Ok,
    ensures
        parse_value(s + tail, pos, depth) == parse_value(s, pos, depth),
    decreases s.len() - pos, 0nat,
{
    assert(pos < s.len());
    assert((s + tail)[pos as int] == s[pos as int]);
    if s[pos as int] == DICT_START {
        lemma_pairs_extend(s, tail, pos + 1, (depth - 1) as nat);
    } else if s[pos as int] == LIST_START {
        lemma_items_extend(s, tail, pos + 1, (depth - 1) as nat);
    } else if is_length_byte(s[pos as int]) {
        lemma_byte_string_extend(s, tail, pos);
    } else {
        lemma_integer_extend(s, tail, pos);
    }
}

/// The items of a list that was found in `s` are found in `s` with more
/// bytes behind it.
pub proof fn lemma_items_extend(s: Seq<u8>, tail: Seq<u8>, pos: nat, depth: nat)
    requires
        parse_items(s, pos, depth) is Ok,
    ensures
        parse_items(s + tail, pos, depth) == parse_items(s, pos, depth),
    decreases s.len() - pos, 1nat,
{
    if pos < s.len() && s[pos as int] == END {
        assert((s + tail)[pos as int] == s[pos as int]);
    } else {
        lemma_value_advances(s, pos, depth);
        assert((s + tail)[pos as int] == s[pos as int]);
        lemma_value_extend(s, tail, pos, depth);
        let next = parse_value(s, pos, depth)->Ok_0.1;
        lemma_items_extend(s, tail, next, depth);
    }
}

/// The pairs of a dictionary that was found in `s` are found in `s` with
/// more bytes behind it.
pub proof fn lemma_pairs_extend(s: Seq<u8>, tail: Seq<u8>, pos: nat, depth: nat)
    requires
        parse_pairs(s, pos, depth) is Ok,
    ensures
        parse_pairs(s + tail, pos, depth) == parse_pairs(s, pos, depth),
    decreases s.len() - pos, 1nat,
{
    if pos < s.len() && s[pos as int] == END {
        assert((s + tail)[pos as int] == s[pos as int]);
    } else {
        lemma_length_run_bound(s, pos);
        assert((s + tail)[pos as int] == s[pos as int]);
        lemma_byte_string_extend(s, tail, pos);
        let middle = parse_byte_string(s, pos)->Ok_0.1;
        lemma_value_extend(s, tail, middle, depth);
        let next = parse_value(s, middle, depth)->Ok_0.1;
        lemma_pairs_extend(s, tail, next, depth);
    }
}

/// Round trip. Parsing the canonical encoding of a well-formed value gives
/// the value back, and leaves over exactly the bytes that stood behind the
/// encoding. A value nested deeper than the parser may go is left out: it
/// is refused as too deep.
pub proof fn law_parse_serialized(value: Bencode, rest: Seq<u8>, depth: nat)
    requires
        well_formed(value),
        within_depth(value, depth),
    ensures
        parse(encode(value) + rest, depth) == Ok::<(Bencode, Seq<u8>), BencodeParserError>(
            (value, rest),
        ),
{
    let s = encode(value) + rest;
    assert(s.subrange(0, encode(value).len() as int) == encode(value));
    lemma_parse_encoded(s, 0, value, depth);
    assert(s.skip(encode(value).len() as int) == rest);
}

/// Byte identity. Bytes that are the canonical encoding of a well-formed
/// value parse completely, and serializing what was parsed gives the same
/// bytes again.
pub proof fn law_reserialize_identity(bytes: Seq<u8>, value: Bencode, depth: nat)
    requires
        well_formed(value),
        within_depth(value, depth),
        bytes == encode(value),
    ensures
        parse(bytes, depth) matches Ok((parsed, rest)) && encode(parsed) == bytes && rest.len()
            == 0,
{
    law_parse_serialized(value, Seq::empty(), depth);
    assert(encode(value) + Seq::<u8>::empty() == encode(value));
}

/// Serializing is a function of the value alone: two values with the same
/// view have the same encoding, so two calls on one value give the same
/// bytes.
pub proof fn law_serialize_deterministic(first: BencodeValue, second: BencodeValue)
    requires
        first@ == second@,
    ensures
        encode(first@) == encode(second@),
{
}

/// Stability. A value that was parsed from any input is well formed, so its
/// canonical encoding parses back to the same value, whatever bytes follow
/// the encoding.
pub proof fn law_reparse_stable(s: Seq<u8>, depth: nat, tail: Seq<u8>)
    requires
        parse(s, depth) is Ok,
    ensures
        parse(s, depth) matches Ok((value, rest)) && well_formed(value) && parse(
            encode(value) + tail,
            depth,
        ) == Ok::<(Bencode, Seq<u8>), BencodeParserError>((value, tail)),
{
    lemma_value_advances(s, 0, depth);
    if let Ok((value, end)) = parse_value(s, 0, depth) {
        law_parse_serialized(value, tail, depth);
    }
}

/// Trailing bytes. The parser reads no further than the value it finds:
/// with more bytes behind the input it finds the same value, and leaves
/// over what it left over before and the new bytes behind that.
pub proof fn law_trailing_bytes_are_left(s: Seq<u8>, tail: Seq<u8>, depth: nat)
    requires
        parse(s, depth) is Ok,
    ensures
        parse(s, depth) matches Ok((value, rest)) && parse(s + tail, depth) == Ok::<
            (Bencode, Seq<u8>),
            BencodeParserError,
        >((value, rest + tail)),
{
    lemma_value_extend(s, tail, 0, depth);
    lemma_value_advances(s, 0, depth);
    let end = parse_value(s, 0, depth)->Ok_0.1;
    assert((s + tail).skip(end as int) == s.skip(end as int) + tail);
}

} // verus!
