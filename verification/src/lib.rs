//! Decoding of BitTorrent ".torrent" metainfo files.
//!
//! The crate decodes a bencoded byte buffer into a [`bencoding::Value`]
//! tree and assembles that tree into a validated [`torrent::Torrent`]
//! with its files, pieces and blocks.

pub mod bencoding;
pub mod client;
pub mod piece;
pub mod torrent;
