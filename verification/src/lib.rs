//! Core of a BitTorrent client: bencode metadata decoding, canonical info
//! re-encoding and hashing, piece-hash splitting, compact peer-list decoding,
//! and tracker announce-URL construction.

pub mod bencode;
pub mod metadata;
pub mod peers;
pub mod popup;
pub mod text;
pub mod torrent;
pub mod ui;

pub use bencode::DecodeError;
