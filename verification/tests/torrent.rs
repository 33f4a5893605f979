use bencode_torrent::bencode::{from_bytes, to_bytes, BencodeValue};
use bencode_torrent::torrent::{AnnounceUrl, InfoHash, Torrent, TorrentError};

fn piece_hashes() -> Vec<u8> {
    (0..1324usize * 20).map(|i| ((i * 7 + 3) % 251) as u8).collect()
}

fn info_bytes() -> Vec<u8> {
    let pieces = piece_hashes();
    let mut info = Vec::new();
    info.extend_from_slice(b"d6:lengthi694157312e");
    info.extend_from_slice(b"4:name31:archlinux-2020.06.01-x86_64.iso");
    info.extend_from_slice(b"12:piece lengthi524288e");
    info.extend_from_slice(b"6:pieces26480:");
    info.extend_from_slice(&pieces);
    info.extend_from_slice(b"e");
    info
}

fn document() -> Vec<u8> {
    let mut doc = Vec::new();
    doc.extend_from_slice(b"d8:announce42:http://tracker.archlinux.org:6969/announce");
    doc.extend_from_slice(b"7:comment10:Arch Linux");
    doc.extend_from_slice(b"10:created by13:mktorrent 1.1");
    doc.extend_from_slice(b"13:creation datei1591025125e");
    doc.extend_from_slice(b"4:info");
    doc.extend_from_slice(&info_bytes());
    doc.extend_from_slice(b"8:url-listl5:a.iso5:b.isoee");
    doc
}

fn small(announce: &[u8], info: &[u8]) -> Vec<u8> {
    let mut doc = Vec::new();
    doc.extend_from_slice(b"d8:announce");
    doc.extend_from_slice(format!("{}:", announce.len()).as_bytes());
    doc.extend_from_slice(announce);
    doc.extend_from_slice(b"4:info");
    doc.extend_from_slice(info);
    doc.extend_from_slice(b"e");
    doc
}

fn small_info() -> Vec<u8> {
    let mut info = Vec::new();
    info.extend_from_slice(b"d6:lengthi40e4:name1:a12:piece lengthi20e6:pieces40:");
    info.extend((0..40u8).collect::<Vec<u8>>());
    info.extend_from_slice(b"e");
    info
}

#[test]
fn parse_torrent() -> Result<(), TorrentError> {
    //given
    let input = document();

    //when
    let torrent = Torrent::from_bytes(&input)?;

    //then
    assert_eq!(
        torrent.announce,
        AnnounceUrl("http://tracker.archlinux.org:6969/announce".to_string())
    );
    assert_eq!(torrent.name, "archlinux-2020.06.01-x86_64.iso".to_string());
    assert_eq!(torrent.length, 694157312);
    assert_eq!(torrent.piece_length, 524288);
    assert_eq!(torrent.pieces().len(), (torrent.length / torrent.piece_length) as usize);
    assert_eq!(
        torrent.info_hash,
        InfoHash(hex::decode("ac4cd9fff65c911d4b6f98a5460ed5397ca8f522").unwrap())
    );
    Ok(())
}

#[test]
fn info_hash_to_string() {
    //given+
    let hash = "e79d1fac0e60598bf0f1133487852d81cf716ced";
    let info_hash = InfoHash(hex::decode(hash).unwrap());

    //when
    let result = info_hash.to_hex();

    //then
    assert_eq!(result, hash);
}

#[test]
fn hex_of_every_nibble() {
    assert_eq!(InfoHash(vec![]).to_hex(), "");
    assert_eq!(InfoHash(vec![0x00, 0x09, 0x0a, 0x0f, 0x10, 0x9a, 0xf0, 0xff]).to_hex(), "00090a0f109af0ff");
}

#[test]
fn info_hash_is_the_digest_of_the_info_sub_tree() {
    let doc = small(b"http://t/a", &small_info());
    let torrent = Torrent::from_bytes(&doc).unwrap();
    assert_eq!(torrent.info_hash.to_hex(), "f72ea1d725172198dea4e8e46b9b1f52e4ac8b38");
    assert_eq!(torrent.info_hash.0.len(), 20);
    let (_, value) = from_bytes(&doc).unwrap();
    match value {
        BencodeValue::Dict(top) => assert_eq!(to_bytes(top.get(b"info").unwrap()), small_info()),
        _ => panic!("not a dictionary"),
    }
}

#[test]
fn pieces_are_twenty_byte_chunks_in_order() {
    let torrent = Torrent::from_bytes(&small(b"http://t/a", &small_info())).unwrap();
    let pieces = torrent.pieces();
    assert_eq!(pieces.len(), 2);
    assert_eq!(pieces[0].to_vec(), (0..20u8).collect::<Vec<u8>>());
    assert_eq!(pieces[1].to_vec(), (20..40u8).collect::<Vec<u8>>());
    assert_eq!(torrent.pieces(), pieces);
    assert_eq!(torrent.pieces, (0..40u8).collect::<Vec<u8>>());
}

#[test]
fn pieces_of_a_ragged_field_end_with_a_short_chunk() {
    let mut torrent = Torrent::from_bytes(&small(b"http://t/a", &small_info())).unwrap();
    torrent.pieces = (0..45u8).collect();
    let pieces = torrent.pieces();
    assert_eq!(pieces.len(), 3);
    assert_eq!(pieces[2].to_vec(), vec![40, 41, 42, 43, 44]);
    torrent.pieces = Vec::new();
    assert_eq!(torrent.pieces().len(), 0);
}

#[test]
fn trailing_bytes_behind_the_document_are_ignored() {
    let mut doc = small(b"http://t/a", &small_info());
    doc.extend_from_slice(b"garbage");
    assert!(Torrent::from_bytes(&doc).is_ok());
}

#[test]
fn from_value_reads_what_from_bytes_reads() {
    let doc = small(b"http://t/a", &small_info());
    let (_, value) = from_bytes(&doc).unwrap();
    assert_eq!(Torrent::from_value(&value), Torrent::from_bytes(&doc));
    assert_eq!(Torrent::from_value(&BencodeValue::Integer(1)), Err(TorrentError::InvalidInput));
}

#[test]
fn invalid_input() {
    let invalid = Err(TorrentError::InvalidInput);
    // not bencode at all
    assert_eq!(Torrent::from_bytes(b""), invalid);
    assert_eq!(Torrent::from_bytes(b"d8:announce"), invalid);
    // not a dictionary
    assert_eq!(Torrent::from_bytes(b"i1e"), invalid);
    assert_eq!(Torrent::from_bytes(b"le"), invalid);
    // no announce, or announce of the wrong kind
    let mut doc = Vec::new();
    doc.extend_from_slice(b"d4:info");
    doc.extend_from_slice(&small_info());
    doc.extend_from_slice(b"e");
    assert_eq!(Torrent::from_bytes(&doc), invalid);
    let mut doc = Vec::new();
    doc.extend_from_slice(b"d8:announcei1e4:info");
    doc.extend_from_slice(&small_info());
    doc.extend_from_slice(b"e");
    assert_eq!(Torrent::from_bytes(&doc), invalid);
    // announce is not valid text
    assert_eq!(Torrent::from_bytes(&small(&[0xff, 0xfe], &small_info())), invalid);
    assert_eq!(Torrent::from_bytes(&small(&[0xc3], &small_info())), invalid);
    // no info, or info of the wrong kind
    assert_eq!(Torrent::from_bytes(b"d8:announce1:ae"), invalid);
    assert_eq!(Torrent::from_bytes(&small(b"a", b"le")), invalid);
    assert_eq!(Torrent::from_bytes(&small(b"a", b"4:info")), invalid);
    // fields of info missing or of the wrong kind
    assert_eq!(Torrent::from_bytes(&small(b"a", b"de")), invalid);
    assert_eq!(
        Torrent::from_bytes(&small(b"a", b"d6:lengthi1e12:piece lengthi1e6:pieces0:e")),
        invalid
    );
    assert_eq!(
        Torrent::from_bytes(&small(b"a", b"d4:name1:a12:piece lengthi1e6:pieces0:e")),
        invalid
    );
    assert_eq!(
        Torrent::from_bytes(&small(b"a", b"d6:lengthi1e4:name1:a6:pieces0:e")),
        invalid
    );
    assert_eq!(
        Torrent::from_bytes(&small(b"a", b"d6:lengthi1e4:name1:a12:piece lengthi1ee")),
        invalid
    );
    assert_eq!(
        Torrent::from_bytes(&small(b"a", b"d6:length1:14:name1:a12:piece lengthi1e6:pieces0:e")),
        invalid
    );
    assert_eq!(
        Torrent::from_bytes(&small(b"a", b"d6:lengthi1e4:namei1e12:piece lengthi1e6:pieces0:e")),
        invalid
    );
    assert_eq!(
        Torrent::from_bytes(&small(b"a", b"d6:lengthi1e4:name1:a12:piece length1:16:pieces0:e")),
        invalid
    );
    assert_eq!(
        Torrent::from_bytes(&small(b"a", b"d6:lengthi1e4:name1:a12:piece lengthi1e6:piecesi0ee")),
        invalid
    );
    // name is not valid text
    let mut info = Vec::new();
    info.extend_from_slice(b"d6:lengthi1e4:name1:");
    info.push(0x80);
    info.extend_from_slice(b"12:piece lengthi1e6:pieces0:e");
    assert_eq!(Torrent::from_bytes(&small(b"a", &info)), invalid);
    // piece hashes that are not whole
    assert_eq!(
        Torrent::from_bytes(&small(b"a", b"d6:lengthi1e4:name1:a12:piece lengthi1e6:pieces3:abce")),
        invalid
    );
}

#[test]
fn smallest_document() {
    let torrent =
        Torrent::from_bytes(&small(b"", b"d6:lengthi-1e4:name0:12:piece lengthi0e6:pieces0:e"))
            .unwrap();
    assert_eq!(torrent.announce, AnnounceUrl(String::new()));
    assert_eq!(torrent.name, "");
    assert_eq!(torrent.length, -1);
    assert_eq!(torrent.piece_length, 0);
    assert_eq!(torrent.pieces().len(), 0);
}

#[test]
fn text_fields_may_hold_any_valid_text() {
    let announce = "http://tr\u{e4}cker/\u{1f980}".as_bytes();
    let torrent = Torrent::from_bytes(&small(announce, &small_info())).unwrap();
    assert_eq!(torrent.announce.0, "http://tr\u{e4}cker/\u{1f980}");
}

#[test]
fn error_message() {
    assert_eq!(TorrentError::InvalidInput.message(), "invalid input");
}

#[test]
fn from_fields_checks_text_and_piece_hashes() {
    let hash = vec![9u8; 20];
    let torrent =
        Torrent::from_fields(b"http://t/a", b"name", 5, 2, &[1u8; 60], hash.clone()).unwrap();
    assert_eq!(torrent.announce, AnnounceUrl("http://t/a".to_string()));
    assert_eq!(torrent.name, "name");
    assert_eq!(torrent.length, 5);
    assert_eq!(torrent.piece_length, 2);
    assert_eq!(torrent.info_hash, InfoHash(hash.clone()));
    assert_eq!(torrent.pieces, vec![1u8; 60]);
    assert_eq!(torrent.pieces().len(), 3);
    let invalid = Err(TorrentError::InvalidInput);
    assert_eq!(Torrent::from_fields(&[0xff], b"name", 5, 2, &[1u8; 60], hash.clone()), invalid);
    assert_eq!(Torrent::from_fields(b"a", &[0xff], 5, 2, &[1u8; 60], hash.clone()), invalid);
    assert_eq!(Torrent::from_fields(b"a", b"name", 5, 2, &[1u8; 59], hash.clone()), invalid);
    assert_eq!(Torrent::from_fields(b"a", b"name", 5, 2, &[1u8; 1], hash.clone()), invalid);
    assert!(Torrent::from_fields(b"", b"", 0, 0, &[], Vec::new()).is_ok());
}

#[test]
fn info_hash_does_not_depend_on_how_the_document_was_written() {
    let canonical = small(b"http://t/a", &small_info());
    let mut spelled = Vec::new();
    spelled.extend_from_slice(b"d08:announce010:http://t/a0004:infod06:lengthi0040e");
    spelled.extend_from_slice(b"4:name01:a12:piece lengthi-0e012:piece lengthi020e6:pieces040:");
    spelled.extend((0..40u8).collect::<Vec<u8>>());
    spelled.extend_from_slice(b"ee");
    assert_ne!(canonical, spelled);
    assert_eq!(Torrent::from_bytes(&spelled), Torrent::from_bytes(&canonical));
    let (_, document) = from_bytes(&spelled).unwrap();
    assert_eq!(to_bytes(&document), canonical);
    assert_eq!(Torrent::from_bytes(&to_bytes(&document)), Torrent::from_bytes(&spelled));
}

