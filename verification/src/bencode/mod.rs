//! Bencode: the wire format of a torrent.

pub mod decode;
pub mod digits;
pub mod encode;
pub mod grammar;
pub mod laws;
pub mod value;

pub use decode::{parse, Error};
pub use value::Bencode;
