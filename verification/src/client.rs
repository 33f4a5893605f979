//! What a tracker is asked and what it answers: the announce request as a
//! URL, and the peers of a tracker's response.

use vstd::prelude::*;
use vstd::string::StringExecFns;
use vstd::utf8::encode_utf8;
use url::form_urlencoded::byte_serialize;
use url::Url;
use crate::bencode::{from_bytes, BencodeValue, MAX_DEPTH};
use crate::decimal::{format_decimal, push_decimal};
use crate::grammar;
use crate::model::{lookup, Bencode};
use crate::torrent::Torrent;

verus! {

/// The number of bytes that stand for one peer: four of its address and
/// two of its port.
pub const PEER_LENGTH: usize = 6;

/// The most bytes that an announce address, or the query put behind it,
/// may have.
pub const URL_LIMIT: usize = 16777216;

/// The key `interval`.
pub const INTERVAL_KEY: [u8; 8] = [105, 110, 116, 101, 114, 118, 97, 108];

/// The key `peers`.
pub const PEERS_KEY: [u8; 5] = [112, 101, 101, 114, 115];

/// Why a tracker could not be asked, or its answer not be read.
#[derive(Debug, PartialEq)]
pub enum ClientError {
    /// The announce address is no URL or is too long, or the response is
    /// not the dictionary that a tracker sends.
    TrackerError,
}

impl ClientError {
    /// The error in words.
    pub fn message(&self) -> (text: &'static str)
        ensures
            text@ == "tracker error"@,
    {
        "tracker error"
    }
}

/// The name under which this client announces itself.
#[derive(Debug, PartialEq)]
pub struct PeerId(pub String);

impl PeerId {
    /// The name that this client uses unless told otherwise.
    pub fn default() -> (id: PeerId)
        ensures
            id.0@ == "-TR2940-k8hj0wgej6ch"@,
    {
        PeerId(String::from_str("-TR2940-k8hj0wgej6ch"))
    }
}

/// The URL of an announce request.
#[derive(Debug, PartialEq)]
pub struct TrackerUrl(pub String);

/// A peer: the four bytes of its IPv4 address and its port.
#[derive(Debug, PartialEq)]
pub struct Peer {
    /// The address, first byte first.
    pub ip: [u8; 4],
    /// The port.
    pub port: u16,
}

/// What a tracker answers.
#[derive(Debug, PartialEq)]
pub struct TrackerResponse {
    /// The number of seconds to wait before the next request.
    pub interval: u64,
    /// The peers that the tracker knows of.
    pub peers: Vec<Peer>,
}

/// Each byte as the character with that number.
pub open spec fn byte_text(bytes: Seq<u8>) -> Seq<char> {
    Seq::new(bytes.len(), |i: int| bytes[i] as char)
}

/// Whether the form encoding leaves `b` as it is: `*`, `-`, `.`, `_`, a
/// digit or an ASCII letter.
pub open spec fn form_unchanged(b: u8) -> bool {
    b == 42 || b == 45 || b == 46 || b == 95 || (48 <= b <= 57) || (65 <= b <= 90) || (97 <= b
        <= 122)
}

/// The upper-case hexadecimal digit of a number below sixteen.
pub open spec fn upper_hex_digit(nibble: int) -> char {
    if nibble < 10 {
        (48 + nibble) as char
    } else {
        (55 + nibble) as char
    }
}

/// One byte in `application/x-www-form-urlencoded` form: itself where
/// [`form_unchanged`], `+` for a space, else `%` and two upper-case
/// hexadecimal digits.
pub open spec fn form_encode_byte(b: u8) -> Seq<char> {
    if form_unchanged(b) {
        seq![b as char]
    } else if b == 32 {
        seq!['+']
    } else {
        seq!['%', upper_hex_digit(b as int / 16), upper_hex_digit(b as int % 16)]
    }
}

/// Bytes in `application/x-www-form-urlencoded` form, byte by byte.
pub open spec fn form_encode(bytes: Seq<u8>) -> Seq<char>
    decreases bytes.len(),
{
    if bytes.len() == 0 {
        Seq::empty()
    } else {
        form_encode(bytes.drop_last()) + form_encode_byte(bytes.last())
    }
}

/// The query of an announce request.
pub open spec fn tracker_query(peer_id: Seq<char>, port: u32, left: i64, info_hash: Seq<u8>) -> Seq<
    char,
> {
    "peer_id="@ + peer_id + "&port="@ + byte_text(format_decimal(port as int))
        + "&uploaded=0&downloaded=0&compact=1&left="@ + byte_text(format_decimal(left as int))
        + "&info_hash="@ + form_encode(info_hash)
}

/// The URL `base` with `query` as its query, as the `url` crate writes it;
/// `None` where `base` is no absolute URL.
pub uninterp spec fn url_with_query(base: Seq<char>, query: Seq<char>) -> Option<Seq<char>>;

/// `Url::parse`, `Url::set_query` and the conversion of a `Url` into a
/// `String`: parses `base`, replaces its query by `query`, and gives the
/// URL's serialization; `None` where `base` does not parse. `set_query`
/// panics where a URL with a fragment grows beyond `u32::MAX` bytes, which
/// inputs of at most [`URL_LIMIT`] bytes each stay far below.
#[verifier::external_body]
fn url_set_query(base: &str, query: &str) -> (url: Option<String>)
    requires
        encode_utf8(base@).len() <= URL_LIMIT,
        encode_utf8(query@).len() <= URL_LIMIT,
    ensures
        match url {
            Some(text) => url_with_query(base@, query@) == Some(text@),
            None => url_with_query(base@, query@) is None,
        },
{
    match Url::parse(base) {
        Ok(mut url) => {
            url.set_query(Some(query));
            Some(url.into())
        },
        Err(_) => None,
    }
}

/// `url::form_urlencoded::byte_serialize`, its pieces joined: the bytes in
/// `application/x-www-form-urlencoded` form.
#[verifier::external_body]
fn form_urlencode(bytes: &[u8]) -> (text: String)
    ensures
        text@ == form_encode(bytes@),
{
    byte_serialize(bytes).collect()
}

/// `String::push`, with the byte taken as the character of that number.
#[verifier::external_body]
fn push_byte(text: &mut String, byte: u8)
    ensures
        final(text)@ == old(text)@.push(byte as char),
{
    text.push(byte as char)
}

/// Appends each byte of `bytes` to `text` as the character of that number.
fn push_bytes(text: &mut String, bytes: &[u8])
    ensures
        final(text)@ == old(text)@ + byte_text(bytes@),
{
    let mut i: usize = 0;
    while i < bytes.len()
        invariant
            0 <= i <= bytes.len(),
            text@ == old(text)@ + byte_text(bytes@.take(i as int)),
        decreases bytes.len() - i,
    {
        push_byte(text, bytes[i]);
        i += 1;
        assert(byte_text(bytes@.take(i as int)) == byte_text(bytes@.take(i - 1)).push(
            bytes@[i - 1] as char,
        ));
    }
    assert(bytes@.take(bytes.len() as int) == bytes@);
}

/// Appends the decimal form of `number` to `text`.
fn push_number(text: &mut String, number: i64)
    ensures
        final(text)@ == old(text)@ + byte_text(format_decimal(number as int)),
{
    let mut digits: Vec<u8> = Vec::new();
    push_decimal(&mut digits, number);
    push_bytes(text, digits.as_slice());
}

impl TrackerUrl {
    /// The query of the announce request for `torrent`: who asks, on which
    /// port, how much is left to fetch, and for which content.
    pub fn query(torrent: &Torrent, peer_id: &PeerId, port: u32) -> (query: String)
        ensures
            query@ == tracker_query(peer_id.0@, port, torrent.length, torrent.info_hash.0@),
    {
        let mut query = String::from_str("peer_id=");
        query.append(peer_id.0.as_str());
        query.append("&port=");
        push_number(&mut query, port as i64);
        query.append("&uploaded=0&downloaded=0&compact=1&left=");
        push_number(&mut query, torrent.length);
        query.append("&info_hash=");
        query.append(form_urlencode(torrent.info_hash.0.as_slice()).as_str());
        query
    }

    /// The URL of the announce request for `torrent`: its announce address
    /// with [`TrackerUrl::query`] as the query. Fails where the address or
    /// the query has more than [`URL_LIMIT`] bytes, and where the address
    /// is no absolute URL.
    pub fn from(torrent: &Torrent, peer_id: &PeerId, port: u32) -> (r: Result<
        TrackerUrl,
        ClientError,
    >)
        ensures
            match r {
                Ok(url) => {
                    &&& encode_utf8(torrent.announce.0@).len() <= URL_LIMIT
                    &&& encode_utf8(
                        tracker_query(peer_id.0@, port, torrent.length, torrent.info_hash.0@),
                    ).len() <= URL_LIMIT
                    &&& url_with_query(
                        torrent.announce.0@,
                        tracker_query(peer_id.0@, port, torrent.length, torrent.info_hash.0@),
                    ) == Some(url.0@)
                },
                Err(e) => {
                    &&& e == ClientError::TrackerError
                    &&& encode_utf8(torrent.announce.0@).len() > URL_LIMIT || encode_utf8(
                        tracker_query(peer_id.0@, port, torrent.length, torrent.info_hash.0@),
                    ).len() > URL_LIMIT || url_with_query(
                        torrent.announce.0@,
                        tracker_query(peer_id.0@, port, torrent.length, torrent.info_hash.0@),
                    ) is None
                },
            },
    {
        let query = TrackerUrl::query(torrent, peer_id, port);
        let base = torrent.announce.0.as_str();
        if base.as_bytes().len() > URL_LIMIT || query.as_str().as_bytes().len() > URL_LIMIT {
            return Err(ClientError::TrackerError);
        }
        TrackerUrl::from_serialization(url_set_query(base, query.as_str()))
    }

    /// The request URL out of what became of the announce address with the
    /// query put behind it: the URL as it was written, or a failure where
    /// the address was no absolute URL.
    pub fn from_serialization(serialization: Option<String>) -> (r: Result<
        TrackerUrl,
        ClientError,
    >)
        ensures
            match serialization {
                Some(text) => r == Ok::<TrackerUrl, ClientError>(TrackerUrl(text)),
                None => r == Err::<TrackerUrl, ClientError>(ClientError::TrackerError),
            },
    {
        match serialization {
            Some(text) => Ok(TrackerUrl(text)),
            None => Err(ClientError::TrackerError),
        }
    }
}

/// Whether `peer` is what the six bytes `bytes` stand for: the first four
/// are the address, the last two the port, high byte first.
pub open spec fn is_peer(peer: Peer, bytes: Seq<u8>) -> bool {
    &&& peer.ip@ == bytes.subrange(0, 4)
    &&& peer.port == bytes[4] * 256 + bytes[5]
}

impl Peer {
    /// The peer that the first six bytes of `bs` stand for.
    pub fn from_bytes(bs: &[u8]) -> (peer: Peer)
        requires
            bs@.len() >= PEER_LENGTH,
        ensures
            is_peer(peer, bs@.subrange(0, PEER_LENGTH as int)),
    {
        let peer = Peer {
            ip: [bs[0], bs[1], bs[2], bs[3]],
            port: (bs[4] as u16) * 256 + (bs[5] as u16),
        };
        assert(peer.ip@ == bs@.subrange(0, PEER_LENGTH as int).subrange(0, 4));
        peer
    }
}

/// The peers that `bs` stands for, six bytes each, in their order.
pub fn build_peers(bs: &[u8]) -> (peers: Vec<Peer>)
    requires
        bs@.len() % (PEER_LENGTH as nat) == 0,
    ensures
        peers@.len() * PEER_LENGTH == bs@.len(),
        forall|i: int|
            0 <= i < peers@.len() ==> is_peer(
                #[trigger] peers@[i],
                bs@.subrange(i * PEER_LENGTH, (i + 1) * PEER_LENGTH),
            ),
{
    let mut peers: Vec<Peer> = Vec::new();
    let mut start: usize = 0;
    while start < bs.len()
        invariant
            start <= bs@.len(),
            bs@.len() % (PEER_LENGTH as nat) == 0,
            start == peers@.len() * PEER_LENGTH,
            forall|i: int|
                0 <= i < peers@.len() ==> is_peer(
                    #[trigger] peers@[i],
                    bs@.subrange(i * PEER_LENGTH, (i + 1) * PEER_LENGTH),
                ),
        decreases bs@.len() - start,
    {
        let six = vstd::slice::slice_subrange(bs, start, start + PEER_LENGTH);
        let peer = Peer::from_bytes(six);
        assert(six@.subrange(0, PEER_LENGTH as int) == six@);
        peers.push(peer);
        start += PEER_LENGTH;
    }
    peers
}

/// What a tracker's response says: the interval and the bytes of the peers.
/// `None` unless the response is a dictionary that binds `interval` to an
/// integer and `peers` to a byte string of whole six-byte peers.
pub open spec fn tracker_response(bytes: Seq<u8>) -> Option<(int, Seq<u8>)> {
    match grammar::parse(bytes, MAX_DEPTH as nat) {
        Ok((Bencode::Dict(top), _)) => match (lookup(top, INTERVAL_KEY@), lookup(top, PEERS_KEY@)) {
            (Some(Bencode::Integer(interval)), Some(Bencode::ByteString(peers))) => if peers.len()
                % (PEER_LENGTH as nat) == 0 {
                Some((interval, peers))
            } else {
                None
            },
            _ => None,
        },
        _ => None,
    }
}

impl TrackerResponse {
    /// Reads a tracker's response from its bytes. The interval is taken as
    /// an unsigned number as it stands in its 64 bits.
    pub fn from_bytes(response: &[u8]) -> (r: Result<TrackerResponse, ClientError>)
        ensures
            match r {
                Ok(answer) => {
                    &&& tracker_response(response@) matches Some((interval, peers))
                    &&& answer.interval == (interval as i64) as u64
                    &&& answer.peers@.len() * PEER_LENGTH == peers.len()
                    &&& forall|i: int|
                        0 <= i < answer.peers@.len() ==> is_peer(
                            #[trigger] answer.peers@[i],
                            peers.subrange(i * PEER_LENGTH, (i + 1) * PEER_LENGTH),
                        )
                },
                Err(e) => tracker_response(response@) is None && e == ClientError::TrackerError,
            },
    {
        let parsed = match from_bytes(response) {
            Ok((_, parsed)) => parsed,
            Err(_) => {
                return Err(ClientError::TrackerError);
            },
        };
        let top = match &parsed {
            BencodeValue::Dict(top) => top,
            _ => {
                return Err(ClientError::TrackerError);
            },
        };
        let interval = match top.get(INTERVAL_KEY.as_slice()) {
            Some(BencodeValue::Integer(number)) => *number,
            _ => {
                return Err(ClientError::TrackerError);
            },
        };
        let peers = match top.get(PEERS_KEY.as_slice()) {
            Some(BencodeValue::ByteString(bytes)) => bytes,
            _ => {
                return Err(ClientError::TrackerError);
            },
        };
        if peers.len() % PEER_LENGTH != 0 {
            return Err(ClientError::TrackerError);
        }
        Ok(TrackerResponse { interval: interval as u64, peers: build_peers(*peers) })
    }
}

} // verus!
