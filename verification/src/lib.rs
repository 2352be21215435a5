//! Core of a leech-only BitTorrent v1 client: a bencode codec that preserves
//! the raw bytes of every node, a metainfo model with info-hash computation,
//! an HTTP-tracker request builder and response parser, the peer wire-message
//! codec and session state, a piece assembler with SHA-1 verification, and
//! the download scheduler's piece-selection logic.

pub mod bencode;
pub mod bits;
pub mod client;
pub mod input;
pub mod digest;
pub mod file;
pub mod metainfo;
pub mod peer;
pub mod torrent;
pub mod tracker;
