//! Encoding and decoding of the Bencode format.
use vstd::prelude::*;

pub mod cursor;
pub mod value;
pub mod number;
pub mod grammar;
pub mod libdecode;
pub mod libencode;
pub mod laws;
pub mod wire;

pub use cursor::ByteIter;
pub use libdecode::{
    decode, decode_byte_string_len, decode_number_unmarked, extract_byte_string_length, iter_print, try_decode,
};
pub use libencode::{encode, run};
pub use value::{Bencoding, DecodeError};

verus! {

/// First byte of a dictionary (`d`).
pub const DICTIONARY_START: u8 = 100;
/// Last byte of a dictionary (`e`).
pub const DICTIONARY_END: u8 = 101;
/// First byte of a list (`l`).
pub const LIST_START: u8 = 108;
/// Last byte of a list (`e`).
pub const LIST_END: u8 = 101;
/// First byte of an integer (`i`).
pub const NUMBER_START: u8 = 105;
/// Last byte of an integer (`e`).
pub const NUMBER_END: u8 = 101;
/// Separator between a byte string's length and its bytes (`:`).
pub const BYTE_ARRAY_DIVIDER: u8 = 58;

} // verus!
