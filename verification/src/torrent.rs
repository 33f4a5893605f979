//! Torrent metadata: the typed fields of a metadata document and the hash
//! of its `info` dictionary.

use vstd::prelude::*;
use vstd::slice::{slice_subrange, slice_to_vec};
use vstd::utf8::{decode_utf8, valid_utf8};
use sha1::{Digest, Sha1};
use crate::bencode::{from_bytes, to_bytes, BencodeValue, MAX_DEPTH};
use crate::grammar;
use crate::laws::{law_parse_serialized, law_reparse_stable};
use crate::model::{encode, lookup, well_formed, within_depth, Bencode};
use crate::text::{decode_text, hex_encode, hex_lower};

verus! {

/// The number of bytes in a SHA-1 hash, and so in the hash of one piece.
pub const HASH_LENGTH: usize = 20;

/// The key `announce`.
pub const ANNOUNCE_KEY: [u8; 8] = [97, 110, 110, 111, 117, 110, 99, 101];

/// The key `info`.
pub const INFO_KEY: [u8; 4] = [105, 110, 102, 111];

/// The key `name`.
pub const NAME_KEY: [u8; 4] = [110, 97, 109, 101];

/// The key `length`.
pub const LENGTH_KEY: [u8; 6] = [108, 101, 110, 103, 116, 104];

/// The key `piece length`.
pub const PIECE_LENGTH_KEY: [u8; 12] = [112, 105, 101, 99, 101, 32, 108, 101, 110, 103, 116, 104];

/// The key `pieces`.
pub const PIECES_KEY: [u8; 6] = [112, 105, 101, 99, 101, 115];

/// The SHA-1 digest of `data`.
pub uninterp spec fn sha1_digest(data: Seq<u8>) -> Seq<u8>;

/// `Sha1::digest`: the SHA-1 digest of the bytes, which is twenty bytes
/// long.
#[verifier::external_body]
fn build_info_hash(info_dict: &[u8]) -> (hash: Vec<u8>)
    ensures
        hash@ == sha1_digest(info_dict@),
        hash@.len() == HASH_LENGTH,
{
    Sha1::digest(info_dict).to_vec()
}

/// Why bytes are not a metadata document.
#[derive(Debug, PartialEq)]
pub enum TorrentError {
    /// The bytes are no bencoded dictionary, a field is missing or of the
    /// wrong kind, a text field is not valid UTF-8, or the piece hashes do
    /// not divide into whole hashes.
    InvalidInput,
}

impl TorrentError {
    /// The error in words.
    pub fn message(&self) -> (text: &'static str)
        ensures
            text@ == "invalid input"@,
    {
        "invalid input"
    }
}

/// The address of the tracker.
#[derive(Debug, PartialEq)]
pub struct AnnounceUrl(pub String);

/// The SHA-1 hash of the canonical encoding of the `info` dictionary.
#[derive(Debug, PartialEq)]
pub struct InfoHash(pub Vec<u8>);

impl InfoHash {
    /// The hash in lower-case hexadecimal.
    pub fn to_hex(&self) -> (text: String)
        ensures
            text@ == hex_lower(self.0@),
    {
        hex_encode(self.0.as_slice())
    }
}

/// What a metadata document says, as mathematical values.
pub struct Metadata {
    /// The tracker's address.
    pub announce: Seq<char>,
    /// The suggested name of the content.
    pub name: Seq<char>,
    /// The length of the content in bytes.
    pub length: int,
    /// The number of bytes in each piece.
    pub piece_length: int,
    /// The SHA-1 hash of the canonical encoding of the `info` dictionary.
    pub info_hash: Seq<u8>,
    /// The hashes of the pieces, one after the other.
    pub pieces: Seq<u8>,
}

/// The fields of a metadata document.
#[derive(Debug, PartialEq)]
pub struct Torrent {
    /// The tracker's address.
    pub announce: AnnounceUrl,
    /// The suggested name of the content.
    pub name: String,
    /// The length of the content in bytes.
    pub length: i64,
    /// The number of bytes in each piece.
    pub piece_length: i64,
    /// The SHA-1 hash of the canonical encoding of the `info` dictionary.
    pub info_hash: InfoHash,
    /// The hashes of the pieces, one after the other.
    pub pieces: Vec<u8>,
}

/// The metadata made of the fields of a document and of the hash of its
/// `info` dictionary: `None` unless `announce` and `name` are valid UTF-8
/// and `pieces` is made of whole twenty-byte hashes.
pub open spec fn metadata(
    announce: Seq<u8>,
    name: Seq<u8>,
    length: int,
    piece_length: int,
    pieces: Seq<u8>,
    info_hash: Seq<u8>,
) -> Option<Metadata> {
    if valid_utf8(announce) && valid_utf8(name) && pieces.len() % (HASH_LENGTH as nat) == 0 {
        Some(
            Metadata {
                announce: decode_utf8(announce),
                name: decode_utf8(name),
                length,
                piece_length,
                info_hash,
                pieces,
            },
        )
    } else {
        None
    }
}

/// What the extractor reads from a parsed document: `None` unless the
/// document is a dictionary that binds `announce` to a byte string and
/// `info` to a dictionary, which in turn binds `name` and `pieces` to byte
/// strings and `length` and `piece length` to integers; then the
/// [`metadata`] of these fields and of the SHA-1 digest of the canonical
/// encoding of the `info` dictionary.
pub open spec fn extract(document: Bencode) -> Option<Metadata> {
    match document {
        Bencode::Dict(top) => match (lookup(top, ANNOUNCE_KEY@), lookup(top, INFO_KEY@)) {
            (Some(Bencode::ByteString(announce)), Some(Bencode::Dict(info))) => match (
                lookup(info, NAME_KEY@),
                lookup(info, LENGTH_KEY@),
                lookup(info, PIECE_LENGTH_KEY@),
                lookup(info, PIECES_KEY@),
            ) {
                (
                    Some(Bencode::ByteString(name)),
                    Some(Bencode::Integer(length)),
                    Some(Bencode::Integer(piece_length)),
                    Some(Bencode::ByteString(pieces)),
                ) => metadata(
                    announce,
                    name,
                    length,
                    piece_length,
                    pieces,
                    sha1_digest(encode(Bencode::Dict(info))),
                ),
                _ => None,
            },
            _ => None,
        },
        _ => None,
    }
}

/// What the extractor reads from the bytes of a document: what [`extract`]
/// reads from the value that the bytes begin with, `None` where the bytes
/// do not parse.
pub open spec fn extract_bytes(bytes: Seq<u8>) -> Option<Metadata> {
    match grammar::parse(bytes, MAX_DEPTH as nat) {
        Ok((document, _)) => extract(document),
        Err(_) => None,
    }
}

/// The number of pieces whose hashes `hashes` holds: one for every twenty
/// bytes, and one more for what is left over.
pub open spec fn piece_count(hashes: Seq<u8>) -> nat {
    ((hashes.len() + HASH_LENGTH - 1) / HASH_LENGTH as int) as nat
}

/// The hash of the piece at place `at`: the twenty bytes from `20 * at` on,
/// or as many as there are.
pub open spec fn piece_hash(hashes: Seq<u8>, at: int) -> Seq<u8> {
    hashes.subrange(
        at * HASH_LENGTH,
        if (at + 1) * HASH_LENGTH <= hashes.len() {
            (at + 1) * HASH_LENGTH
        } else {
            hashes.len() as int
        },
    )
}

impl Torrent {
    /// The fields as mathematical values.
    pub open spec fn view(&self) -> Metadata {
        Metadata {
            announce: self.announce.0@,
            name: self.name@,
            length: self.length as int,
            piece_length: self.piece_length as int,
            info_hash: self.info_hash.0@,
            pieces: self.pieces@,
        }
    }

    /// Reads the fields of a parsed metadata document and hashes the
    /// canonical encoding of its `info` dictionary.
    pub fn from_value(document: &BencodeValue) -> (r: Result<Torrent, TorrentError>)
        ensures
            match r {
                Ok(torrent) => extract(document@) == Some(torrent@) && torrent.info_hash.0@.len()
                    == HASH_LENGTH,
                Err(e) => extract(document@) is None && e == TorrentError::InvalidInput,
            },
    {
        let top = match document {
            BencodeValue::Dict(top) => top,
            _ => {
                return Err(TorrentError::InvalidInput);
            },
        };
        let announce = match top.get(ANNOUNCE_KEY.as_slice()) {
            Some(BencodeValue::ByteString(bytes)) => bytes,
            _ => {
                return Err(TorrentError::InvalidInput);
            },
        };
        let wrapped_info = match top.get(INFO_KEY.as_slice()) {
            Some(value) => value,
            None => {
                return Err(TorrentError::InvalidInput);
            },
        };
        let info = match wrapped_info {
            BencodeValue::Dict(info) => info,
            _ => {
                return Err(TorrentError::InvalidInput);
            },
        };
        let name = match info.get(NAME_KEY.as_slice()) {
            Some(BencodeValue::ByteString(bytes)) => bytes,
            _ => {
                return Err(TorrentError::InvalidInput);
            },
        };
        let length = match info.get(LENGTH_KEY.as_slice()) {
            Some(BencodeValue::Integer(number)) => *number,
            _ => {
                return Err(TorrentError::InvalidInput);
            },
        };
        let piece_length = match info.get(PIECE_LENGTH_KEY.as_slice()) {
            Some(BencodeValue::Integer(number)) => *number,
            _ => {
                return Err(TorrentError::InvalidInput);
            },
        };
        let pieces = match info.get(PIECES_KEY.as_slice()) {
            Some(BencodeValue::ByteString(bytes)) => bytes,
            _ => {
                return Err(TorrentError::InvalidInput);
            },
        };
        let encoded = to_bytes(wrapped_info);
        let info_hash = build_info_hash(encoded.as_slice());
        Torrent::from_fields(*announce, *name, length, piece_length, *pieces, info_hash)
    }

    /// Builds the metadata out of the fields of a document and the hash of
    /// its `info` dictionary. Fails unless `announce` and `name` are valid
    /// UTF-8 and `pieces` is made of whole twenty-byte hashes.
    pub fn from_fields(
        announce: &[u8],
        name: &[u8],
        length: i64,
        piece_length: i64,
        pieces: &[u8],
        info_hash: Vec<u8>,
    ) -> (r: Result<Torrent, TorrentError>)
        ensures
            match r {
                Ok(torrent) => metadata(
                    announce@,
                    name@,
                    length as int,
                    piece_length as int,
                    pieces@,
                    info_hash@,
                ) == Some(torrent@),
                Err(e) => metadata(
                    announce@,
                    name@,
                    length as int,
                    piece_length as int,
                    pieces@,
                    info_hash@,
                ) is None && e == TorrentError::InvalidInput,
            },
    {
        let announce_text = match decode_text(announce) {
            Some(text) => text,
            None => {
                return Err(TorrentError::InvalidInput);
            },
        };
        let name_text = match decode_text(name) {
            Some(text) => text,
            None => {
                return Err(TorrentError::InvalidInput);
            },
        };
        if pieces.len() % HASH_LENGTH != 0 {
            return Err(TorrentError::InvalidInput);
        }
        Ok(
            Torrent {
                announce: AnnounceUrl(announce_text),
                name: name_text,
                length,
                piece_length,
                info_hash: InfoHash(info_hash),
                pieces: slice_to_vec(pieces),
            },
        )
    }

    /// The hashes of the pieces, each on its own, in their order: the piece
    /// field cut into chunks of twenty bytes, with a last shorter one where
    /// the field does not divide.
    pub fn pieces(&self) -> (hashes: Vec<&[u8]>)
        ensures
            hashes@.len() == piece_count(self.pieces@),
            forall|i: int|
                0 <= i < hashes@.len() ==> (#[trigger] hashes@[i])@ == piece_hash(self.pieces@, i),
    {
        let all = self.pieces.as_slice();
        let n = all.len();
        let mut hashes: Vec<&[u8]> = Vec::new();
        let mut start: usize = 0;
        while start < n
            invariant
                start <= n,
                n == self.pieces@.len(),
                all@ == self.pieces@,
                start < n ==> start == hashes@.len() * HASH_LENGTH,
                hashes@.len() == (start + HASH_LENGTH - 1) / HASH_LENGTH as int,
                forall|i: int|
                    0 <= i < hashes@.len() ==> (#[trigger] hashes@[i])@ == piece_hash(
                        self.pieces@,
                        i,
                    ),
            decreases n - start,
        {
            let end = if n - start >= HASH_LENGTH {
                start + HASH_LENGTH
            } else {
                n
            };
            hashes.push(slice_subrange(all, start, end));
            start = end;
        }
        hashes
    }

    /// Reads a metadata document from its bytes. Bytes behind the document
    /// are ignored.
    pub fn from_bytes(bytes: &[u8]) -> (r: Result<Torrent, TorrentError>)
        ensures
            match r {
                Ok(torrent) => extract_bytes(bytes@) == Some(torrent@) && torrent.info_hash.0@.len()
                    == HASH_LENGTH,
                Err(e) => extract_bytes(bytes@) is None && e == TorrentError::InvalidInput,
            },
    {
        match from_bytes(bytes) {
            Ok((_, document)) => Torrent::from_value(&document),
            Err(_) => Err(TorrentError::InvalidInput),
        }
    }
}

/// Reading a document from its canonical encoding gives what the document
/// says, whatever bytes follow the encoding.
pub proof fn law_extract_serialized(document: Bencode, rest: Seq<u8>)
    requires
        well_formed(document),
        within_depth(document, MAX_DEPTH as nat),
    ensures
        extract_bytes(encode(document) + rest) == extract(document),
{
    law_parse_serialized(document, rest, MAX_DEPTH as nat);
}

/// The hash does not depend on how the document was written: what is read
/// from any bytes that parse is read again from the canonical encoding of
/// the parsed document.
pub proof fn law_extract_is_stable(bytes: Seq<u8>)
    requires
        grammar::parse(bytes, MAX_DEPTH as nat) is Ok,
    ensures
        grammar::parse(bytes, MAX_DEPTH as nat) matches Ok((document, _)) && extract_bytes(
            encode(document),
        ) == extract_bytes(bytes),
{
    law_reparse_stable(bytes, MAX_DEPTH as nat, Seq::empty());
    let document = grammar::parse(bytes, MAX_DEPTH as nat)->Ok_0.0;
    assert(encode(document) + Seq::<u8>::empty() == encode(document));
}

} // verus!
