//! Bencode: the canonical, self-delimiting encoding of integers, byte
//! strings, lists and key-sorted dictionaries, with a strict decoder that
//! accepts only canonical input and an encoder that always produces it.
pub mod decode;
pub mod encode;
pub mod laws;
pub mod order;
pub mod text;
pub mod value;

pub use decode::{bdecode, bdecode_as_tuple, bdecode_utf8, DecodeError, Decoder};
pub use encode::{bencode, bencode_utf8, EncodeError, Encoder};
pub use value::{Bencached, Dict, Integer, Value};
