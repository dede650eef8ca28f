//! Unpadded base-32 encoding and decoding over interchangeable 32-symbol
//! alphabets: zbase32 (least significant bit first), RFC 4648 and Bech32
//! (most significant bit first).
pub mod alphabet;
pub mod encode;
pub mod decode;
pub mod laws;
pub mod text;

pub use crate::decode::{decode, decode_alphabet, decode_alphabet_vec};
pub use crate::encode::{encode, encode_alphabet, encode_alphabet_slice};
