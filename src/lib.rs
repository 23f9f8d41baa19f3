//! A decoder for the bencode format: a tokenizer, lazy list and dictionary
//! cursors over one shared read position, the steps of a type-directed
//! decoder, and the torrent records and tracker requests built on them.
pub mod de;
pub mod error;
pub mod grammar;
pub mod laws;
pub mod meta;
pub mod object;
pub mod parser;
mod text;
pub mod token;
pub mod tracker;

pub use de::{EnumStart, Shape};
pub use error::{Cause, Error, Expected, Found, Result};
pub use meta::{info_hash, FileInfo, FileMode, Info, MetaInfo, Node, PieceList, Sha1Digest, Torrent};
pub use object::{DictDecoder, ListDecoder, Object};
pub use parser::BencodeParser;
pub use token::Token;
pub use tracker::{
    announce_url, scrape_url, Client, CompactPeers, Peer, ScrapeFile, ScrapeResponse, TrackerResponseCompat,
};
