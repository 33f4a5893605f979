//! A bencode codec with torrent metadata extraction and the data side of a
//! tracker client, verified with Verus.
//!
//! - [`model`] is the mathematical tree of a bencoded value and its
//!   canonical encoding; [`grammar`] is what parsing means on bytes, and
//!   [`decimal`] what a number means in ASCII.
//! - [`bencode`] holds the executable values with their parser
//!   ([`bencode::from_bytes`]) and serializer ([`bencode::to_bytes`]);
//!   [`equality`] compares them, [`index`] is the ordered key index under
//!   their dictionaries.
//! - [`laws`] proves that parsing undoes serializing.
//! - [`torrent`] reads a metadata document and hashes its `info`
//!   dictionary; [`client`] writes the announce request and reads a
//!   tracker's response; [`text`] reads text out of bytes and shows bytes
//!   as text.

pub mod token;
pub mod decimal;
pub mod model;
pub mod grammar;
pub mod index;
pub mod bencode;
pub mod equality;
pub mod laws;
pub mod text;
pub mod torrent;
pub mod client;
