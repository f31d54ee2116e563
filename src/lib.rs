//! A bencode decoder and encoder with proved contracts, and torrent metadata
//! read from decoded values.
pub mod commands;
pub mod decode;
pub mod dict;
pub mod digits;
pub mod encode;
pub mod error;
pub mod grammar;
pub mod laws;
pub mod order;
pub mod torrent;
pub mod value;

pub use decode::decode_bencoded_value;
pub use error::BencodeError;
pub use value::Value;
