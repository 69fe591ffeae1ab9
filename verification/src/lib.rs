//! Reading BitTorrent metainfo documents, deriving the canonical info-hash
//! that identifies a torrent, and decoding tracker announce responses.
//!
//! The crate is organised around one generic bencoded value tree (`value`,
//! `bencode`), the typed metainfo model built from such a tree (`metainfo`),
//! the tracker response model with its compact peer-list formats (`tracker`,
//! `ip`), and the torrent session value that derives runtime identifiers
//! (`torrent`).

pub mod bencode;
pub mod error;
pub mod ip;
pub mod keys;
pub mod metainfo;
pub mod torrent;
pub mod tracker;
pub mod util;
pub mod value;
