//! A small BitTorrent client library: URL escaping, magnet links, bencode
//! decoding, torrent metadata, tracker requests and the peer wire protocol.
//!
//! The library's own functions are verified. Calls into std and outside
//! crates (UTF-8 decoding, hex decoding, reading and writing bencode, SHA-1,
//! byte buffers)
//! go through a few trusted wrappers, each with the contract that its
//! source or documentation gives; network and file I/O live in the
//! application that drives this library.
pub mod common;
pub mod decoder;
pub mod magnet;
pub mod peer;
pub mod torrent;
pub mod tracker;
