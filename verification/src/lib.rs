//! Core of a BitTorrent client that talks to one peer at a time: the
//! bencode codec, the metainfo and magnet models, the tracker request and
//! response, the peer wire codec, and the state machines that fetch an
//! info dictionary and collect a piece from a peer.
//!
//! The library reads and writes no socket and no file. What must be sent
//! is handed back as values, and what arrives is handed in as values.

// Numbers and byte strings.
pub mod be_bytes;
pub mod byte_order;
pub mod decimal;
pub mod text;

// What outside crates compute.
pub mod base64_text;
pub mod hex_text;
pub mod sha1;
pub mod url_text;

// The bencode codec.
pub mod bedecode;
pub mod bencode_encode;
pub mod bencode_item;
pub mod bencode_laws;
pub mod bencode_order;
pub mod bencode_render;
pub mod bencode_spec;
pub mod bencode_tokens;

// The metainfo and the magnet link.
pub mod geometry;
pub mod hashes;
pub mod info_laws;
pub mod magnet_links;
pub mod metainfo;
pub mod torrent;
pub mod torrent_info;

// The tracker.
pub mod tracker;
pub mod tracker_info;

// The peer.
pub mod bt_client;
pub mod metadata_session;
pub mod peer_extension;
pub mod peer_messages;
