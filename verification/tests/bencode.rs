use bencode_torrent::bencode;
use bencode_torrent::bencode::{
    bytes_to_i64, from_bytes, from_bytes_with_depth, to_bytes, BencodeParserError, BencodeValue,
    Dict, MAX_DEPTH,
};

fn piece_hashes() -> Vec<u8> {
    (0..1324usize * 20).map(|i| ((i * 7 + 3) % 251) as u8).collect()
}

fn info_bytes() -> Vec<u8> {
    let pieces = piece_hashes();
    let mut info = Vec::new();
    info.extend_from_slice(b"d6:lengthi694157312e");
    info.extend_from_slice(b"4:name31:archlinux-2020.06.01-x86_64.iso");
    info.extend_from_slice(b"12:piece lengthi524288e");
    info.extend_from_slice(b"6:pieces26480:");
    info.extend_from_slice(&pieces);
    info.extend_from_slice(b"e");
    info
}

fn document() -> Vec<u8> {
    let mut doc = Vec::new();
    doc.extend_from_slice(b"d8:announce42:http://tracker.archlinux.org:6969/announce");
    doc.extend_from_slice(b"7:comment10:Arch Linux");
    doc.extend_from_slice(b"10:created by13:mktorrent 1.1");
    doc.extend_from_slice(b"13:creation datei1591025125e");
    doc.extend_from_slice(b"4:info");
    doc.extend_from_slice(&info_bytes());
    doc.extend_from_slice(b"8:url-listl5:a.iso5:b.isoee");
    doc
}

fn bytes(text: &'static str) -> BencodeValue<'static> {
    BencodeValue::ByteString(text.as_bytes())
}

fn sample() -> BencodeValue<'static> {
    let mut inner = Dict::new();
    inner.insert(b"zeta", BencodeValue::Integer(-7));
    inner.insert(b"alpha", BencodeValue::List(vec![]));
    inner.insert(b"", bytes(""));
    let mut outer = Dict::new();
    outer.insert(
        b"list",
        BencodeValue::List(vec![
            BencodeValue::Integer(i64::MIN),
            BencodeValue::Integer(i64::MAX),
            BencodeValue::Integer(0),
            bytes("e:il d"),
            BencodeValue::ByteString(&[0, 255, 58, 101]),
        ]),
    );
    outer.insert(b"dict", BencodeValue::Dict(inner));
    outer.insert(b"empty", BencodeValue::Dict(Dict::new()));
    BencodeValue::Dict(outer)
}

#[test]
fn parse_integer() {
    //given
    let input = "i42e".as_bytes();

    //when
    let result = from_bytes(input);

    //then
    assert_eq!(result, Ok(("".as_bytes(), BencodeValue::Integer(42i64))))
}

#[test]
fn parse_string() {
    //given
    let input = "4:spam".as_bytes();

    //when
    let result = from_bytes(input);

    //then
    assert_eq!(result, Ok(("".as_bytes(), BencodeValue::ByteString("spam".as_bytes()))))
}

#[test]
fn parse_negative_string() {
    //given
    let input = "-1:spam".as_bytes();

    //when
    let result = from_bytes(input);

    //then
    assert_eq!(result, Err(BencodeParserError::InvalidByteString))
}

#[test]
fn parse_list() {
    //given
    let input = "l4:spami42ee".as_bytes();

    //when
    let result = from_bytes(input);

    //then
    let elem1 = BencodeValue::ByteString("spam".as_bytes());
    let elem2 = BencodeValue::Integer(42i64);
    assert_eq!(result, Ok(("".as_bytes(), BencodeValue::List(vec![elem1, elem2]))))
}

#[test]
fn parse_dict() {
    //given
    let input = "d3:bar4:spam3:fooi42ee".as_bytes();

    //when
    let result = from_bytes(input);

    //then
    let key1 = "bar".as_bytes();
    let val1 = BencodeValue::ByteString("spam".as_bytes());

    let key2 = "foo".as_bytes();
    let val2 = BencodeValue::Integer(42i64);

    let mut map = Dict::new();
    map.insert(key1, val1);
    map.insert(key2, val2);

    assert_eq!(result, Ok(("".as_bytes(), BencodeValue::Dict(map))))
}

#[test]
fn parse_complex() {
    //given
    let input = document();

    //when
    let result = from_bytes(&input);

    //then
    match result {
        Ok(_) => assert!(true, "correctly parsed"),
        Err(err) => assert!(false, "error: {:?}", err),
    }
}

#[test]
fn serialize_integer() {
    //given
    let input = BencodeValue::Integer(10);

    //when
    let result = to_bytes(&input);

    //then
    assert_eq!(result, "i10e".as_bytes().to_vec())
}

#[test]
fn serialize_byte_string() {
    //given
    let input = BencodeValue::ByteString("spam".as_bytes());

    //when
    let result = to_bytes(&input);

    //then
    assert_eq!(result, "4:spam".as_bytes().to_vec())
}

#[test]
fn serialize_list() {
    //given
    let input = BencodeValue::List(vec![
        BencodeValue::ByteString("spam".as_bytes()),
        BencodeValue::ByteString("foo".as_bytes()),
    ]);

    //when
    let result = to_bytes(&input);

    //then
    assert_eq!(result, "l4:spam3:fooe".as_bytes().to_vec())
}

#[test]
fn serialize_dict() {
    //given
    let key1 = "bar".as_bytes();
    let val1 = BencodeValue::ByteString("spam".as_bytes());

    let key2 = "foo".as_bytes();
    let val2 = BencodeValue::Integer(42i64);

    let mut map = Dict::new();
    map.insert(key1, val1);
    map.insert(key2, val2);

    let input = BencodeValue::Dict(map);

    //when
    let result = to_bytes(&input);

    //then
    assert_eq!(result, "d3:bar4:spam3:fooi42ee".as_bytes().to_vec())
}

#[test]
fn serialize_complex() {
    //given
    let bytes = document();
    let (_, input) = from_bytes(&bytes).unwrap();

    //when
    let result = to_bytes(&input);

    //then
    assert_eq!(bytes, result);
}

#[test]
fn empty_list_is_parsed() {
    assert_eq!(from_bytes(b"le"), Ok((&b""[..], BencodeValue::List(vec![]))));
}

#[test]
fn empty_dict_is_parsed() {
    assert_eq!(from_bytes(b"de"), Ok((&b""[..], BencodeValue::Dict(Dict::new()))));
}

#[test]
fn empty_byte_string_is_parsed() {
    assert_eq!(from_bytes(b"0:"), Ok((&b""[..], BencodeValue::ByteString(b""))));
}

#[test]
fn trailing_bytes_are_returned() {
    assert_eq!(from_bytes(b"i42e4:spam"), Ok((&b"4:spam"[..], BencodeValue::Integer(42))));
    assert_eq!(from_bytes(b"2:abcd"), Ok((&b"cd"[..], bytes("ab"))));
    assert_eq!(from_bytes(b"leeee"), Ok((&b"eee"[..], BencodeValue::List(vec![]))));
}

#[test]
fn negative_integer_and_bounds() {
    assert_eq!(from_bytes(b"i-42e"), Ok((&b""[..], BencodeValue::Integer(-42))));
    assert_eq!(
        from_bytes(b"i9223372036854775807e"),
        Ok((&b""[..], BencodeValue::Integer(i64::MAX)))
    );
    assert_eq!(
        from_bytes(b"i-9223372036854775808e"),
        Ok((&b""[..], BencodeValue::Integer(i64::MIN)))
    );
    assert_eq!(from_bytes(b"i9223372036854775808e"), Err(BencodeParserError::InvalidPrefixNumber));
    assert_eq!(from_bytes(b"i-9223372036854775809e"), Err(BencodeParserError::InvalidPrefixNumber));
    assert_eq!(
        from_bytes(b"i99999999999999999999999999e"),
        Err(BencodeParserError::InvalidPrefixNumber)
    );
}

#[test]
fn leading_zeros_and_minus_zero_are_read() {
    assert_eq!(from_bytes(b"i007e"), Ok((&b""[..], BencodeValue::Integer(7))));
    assert_eq!(from_bytes(b"i-0e"), Ok((&b""[..], BencodeValue::Integer(0))));
    assert_eq!(from_bytes(b"03:abc"), Ok((&b""[..], bytes("abc"))));
    assert_eq!(from_bytes(b"-0:"), Ok((&b""[..], bytes(""))));
    assert_eq!(
        from_bytes(b"i0000000000000000000000000000000000000012e"),
        Ok((&b""[..], BencodeValue::Integer(12)))
    );
}

#[test]
fn invalid_prefix_number() {
    assert_eq!(from_bytes(b"i+5e"), Err(BencodeParserError::InvalidPrefixNumber));
    assert_eq!(from_bytes(b"i-e"), Err(BencodeParserError::InvalidPrefixNumber));
    assert_eq!(from_bytes(b"i4 2e"), Err(BencodeParserError::InvalidPrefixNumber));
    assert_eq!(from_bytes(b"i1-2e"), Err(BencodeParserError::InvalidPrefixNumber));
    assert_eq!(from_bytes(b"abc:"), Err(BencodeParserError::InvalidPrefixNumber));
    assert_eq!(from_bytes(b"+3:abc"), Err(BencodeParserError::InvalidPrefixNumber));
    assert_eq!(from_bytes(b"99999999999999999999:a"), Err(BencodeParserError::InvalidPrefixNumber));
    assert_eq!(from_bytes(b"li1ei--1ee"), Err(BencodeParserError::InvalidPrefixNumber));
}

#[test]
fn invalid_byte_string() {
    assert_eq!(from_bytes(b"5:abc"), Err(BencodeParserError::InvalidByteString));
    assert_eq!(from_bytes(b"1:"), Err(BencodeParserError::InvalidByteString));
    assert_eq!(from_bytes(b"-5:abcdefg"), Err(BencodeParserError::InvalidByteString));
    assert_eq!(from_bytes(b"9223372036854775807:a"), Err(BencodeParserError::InvalidByteString));
    assert_eq!(from_bytes(b"l1:a5:abe"), Err(BencodeParserError::InvalidByteString));
    assert_eq!(from_bytes(b"d3:ab"), Err(BencodeParserError::InvalidByteString));
}

#[test]
fn unexpected_token_carries_its_offset() {
    assert_eq!(from_bytes(b""), Err(BencodeParserError::Unexpected(0)));
    assert_eq!(from_bytes(b"e"), Err(BencodeParserError::Unexpected(0)));
    assert_eq!(from_bytes(b":"), Err(BencodeParserError::Unexpected(0)));
    assert_eq!(from_bytes(b"x"), Err(BencodeParserError::Unexpected(0)));
    assert_eq!(from_bytes(b"12"), Err(BencodeParserError::Unexpected(0)));
    assert_eq!(from_bytes(b"12i3e"), Err(BencodeParserError::Unexpected(0)));
    assert_eq!(from_bytes(b"ie"), Err(BencodeParserError::Unexpected(1)));
    assert_eq!(from_bytes(b"i"), Err(BencodeParserError::Unexpected(1)));
    assert_eq!(from_bytes(b"i12"), Err(BencodeParserError::Unexpected(3)));
    assert_eq!(from_bytes(b"l"), Err(BencodeParserError::Unexpected(1)));
    assert_eq!(from_bytes(b"li1e"), Err(BencodeParserError::Unexpected(4)));
    assert_eq!(from_bytes(b"li1e:"), Err(BencodeParserError::Unexpected(4)));
    assert_eq!(from_bytes(b"d"), Err(BencodeParserError::Unexpected(1)));
    assert_eq!(from_bytes(b"d3:fooe"), Err(BencodeParserError::Unexpected(6)));
    assert_eq!(from_bytes(b"di1e1:ae"), Err(BencodeParserError::Unexpected(1)));
    assert_eq!(from_bytes(b"dl1:ae1:ae"), Err(BencodeParserError::Unexpected(1)));
    assert_eq!(from_bytes(b"d1:ad1:be"), Err(BencodeParserError::Unexpected(8)));
    assert_eq!(from_bytes(b"lli5"), Err(BencodeParserError::Unexpected(4)));
}

#[test]
fn first_error_from_the_left_wins() {
    assert_eq!(from_bytes(b"l9:abi-e"), Err(BencodeParserError::InvalidByteString));
    assert_eq!(from_bytes(b"li-e5:ab"), Err(BencodeParserError::InvalidPrefixNumber));
    assert_eq!(from_bytes(b"lxi-ee"), Err(BencodeParserError::Unexpected(1)));
}

#[test]
fn nesting_is_bounded() {
    assert_eq!(MAX_DEPTH, 256);
    let mut deep = vec![b'l'; 256];
    deep.extend(vec![b'e'; 256]);
    assert!(from_bytes(&deep).is_ok());
    let mut deeper = vec![b'l'; 257];
    deeper.extend(vec![b'e'; 257]);
    assert_eq!(from_bytes(&deeper), Err(BencodeParserError::TooDeep));
    let mut dicts = Vec::new();
    for _ in 0..257 {
        dicts.extend_from_slice(b"d1:a");
    }
    dicts.extend_from_slice(b"i0e");
    dicts.extend(vec![b'e'; 257]);
    assert_eq!(from_bytes(&dicts), Err(BencodeParserError::TooDeep));
    assert_eq!(from_bytes_with_depth(b"i1e", 0), Ok((&b""[..], BencodeValue::Integer(1))));
    assert_eq!(from_bytes_with_depth(b"le", 0), Err(BencodeParserError::TooDeep));
    assert_eq!(from_bytes_with_depth(b"llee", 1), Err(BencodeParserError::TooDeep));
    assert_eq!(from_bytes_with_depth(b"lxlee", 1), Err(BencodeParserError::Unexpected(1)));
    assert!(from_bytes_with_depth(b"llee", 2).is_ok());
    assert!(from_bytes_with_depth(&deeper, 257).is_ok());
}

#[test]
fn repeated_key_keeps_its_place_and_takes_the_last_value() {
    let (rest, value) = from_bytes(b"d1:ai1e1:bi2e1:ai3ee").unwrap();
    assert_eq!(rest, b"");
    let mut expected = Dict::new();
    expected.insert(b"a", BencodeValue::Integer(3));
    expected.insert(b"b", BencodeValue::Integer(2));
    assert_eq!(value, BencodeValue::Dict(expected));
    assert_eq!(to_bytes(&value), b"d1:ai3e1:bi2ee".to_vec());
}

#[test]
fn dict_keeps_insertion_order_and_finds_keys() {
    let mut dict = Dict::new();
    assert_eq!(dict.len(), 0);
    dict.insert(b"zz", BencodeValue::Integer(1));
    dict.insert(b"aa", BencodeValue::Integer(2));
    dict.insert(b"mm", BencodeValue::Integer(3));
    dict.insert(b"aa", BencodeValue::Integer(4));
    assert_eq!(dict.len(), 3);
    assert_eq!(dict.key_at(0), b"zz");
    assert_eq!(dict.key_at(1), b"aa");
    assert_eq!(dict.key_at(2), b"mm");
    assert_eq!(dict.value_at(1), &BencodeValue::Integer(4));
    assert_eq!(dict.get(b"mm"), Some(&BencodeValue::Integer(3)));
    assert_eq!(dict.get(b"aa"), Some(&BencodeValue::Integer(4)));
    assert_eq!(dict.get(b"a"), None);
    assert_eq!(dict.get(b""), None);
}

#[test]
fn equality_is_structural_and_minds_the_order() {
    let mut first = Dict::new();
    first.insert(b"a", BencodeValue::Integer(1));
    first.insert(b"b", BencodeValue::Integer(2));
    let mut second = Dict::new();
    second.insert(b"b", BencodeValue::Integer(2));
    second.insert(b"a", BencodeValue::Integer(1));
    let mut third = Dict::new();
    third.insert(b"a", BencodeValue::Integer(1));
    third.insert(b"b", BencodeValue::Integer(2));
    assert_ne!(first, second);
    assert_eq!(first, third);
    assert_ne!(BencodeValue::Integer(1), bytes("1"));
    assert_ne!(BencodeValue::List(vec![]), BencodeValue::Dict(Dict::new()));
    assert_ne!(
        BencodeValue::List(vec![BencodeValue::Integer(1)]),
        BencodeValue::List(vec![BencodeValue::Integer(1), BencodeValue::Integer(1)])
    );
    assert_ne!(bytes("ab"), bytes("ac"));
    assert_eq!(sample(), sample());
}

#[test]
fn clone_is_equal() {
    let value = sample();
    let copy = value.clone();
    assert_eq!(copy, value);
    assert_eq!(to_bytes(&copy), to_bytes(&value));
}

#[test]
fn round_trip_gives_the_value_back() {
    let value = sample();
    let encoded = to_bytes(&value);
    assert_eq!(from_bytes(&encoded), Ok((&b""[..], value)));
    let mut followed = encoded.clone();
    followed.extend_from_slice(b"i1e");
    assert_eq!(from_bytes(&followed), Ok((&b"i1e"[..], sample())));
}

#[test]
fn canonical_bytes_are_reproduced() {
    let canonical: Vec<&[u8]> = vec![
        b"i0e",
        b"i-1e",
        b"0:",
        b"le",
        b"de",
        b"l4:spami42ee",
        b"d3:bar4:spam3:fooi42ee",
        b"d1:zi1e1:ad1:bleee",
        b"ll0:ed0:0:ee",
    ];
    for bytes in canonical {
        let (rest, value) = from_bytes(bytes).unwrap();
        assert_eq!(rest, b"");
        assert_eq!(to_bytes(&value), bytes.to_vec());
    }
}

#[test]
fn serialize_twice_gives_the_same_bytes() {
    let value = sample();
    assert_eq!(to_bytes(&value), to_bytes(&value));
    assert_eq!(to_bytes(&value), to_bytes(&sample()));
}

#[test]
fn sample_serializes_as_written() {
    let mut expected: Vec<u8> = Vec::new();
    expected.extend_from_slice(b"d4:listl");
    expected.extend_from_slice(b"i-9223372036854775808ei9223372036854775807ei0e");
    expected.extend_from_slice(b"6:e:il d4:");
    expected.extend_from_slice(&[0, 255, 58, 101]);
    expected.extend_from_slice(b"e4:dictd4:zetai-7e5:alphale0:0:e5:emptydee");
    assert_eq!(to_bytes(&sample()), expected);
}

#[test]
fn numbers_and_tokens() {
    assert_eq!(bytes_to_i64(b"42"), Ok(42));
    assert_eq!(bytes_to_i64(b"-42"), Ok(-42));
    assert_eq!(bytes_to_i64(b""), Err(BencodeParserError::InvalidPrefixNumber));
    assert_eq!(bytes_to_i64(b"-"), Err(BencodeParserError::InvalidPrefixNumber));
    assert_eq!(bytes_to_i64(b"4a"), Err(BencodeParserError::InvalidPrefixNumber));
    assert_eq!(bencode::parse_integer(b"xxi15eyy", 2), Ok((15, 6)));
    assert_eq!(bencode::parse_byte_string(b"xx3:abcyy", 2), Ok((&b"abc"[..], 7)));
    assert_eq!(bencode::parse_byte_string(b"xx", 2), Err(BencodeParserError::Unexpected(2)));
}

#[test]
fn long_byte_string_length_is_written_in_full() {
    let content = vec![7u8; 1234];
    let value = BencodeValue::ByteString(&content);
    let encoded = to_bytes(&value);
    assert_eq!(&encoded[..5], b"1234:");
    assert_eq!(encoded.len(), 1239);
    assert_eq!(from_bytes(&encoded), Ok((&b""[..], value)));
}
