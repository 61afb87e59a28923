//! Conversion between little-endian binary buffers and vectors of real or
//! complex numbers, each number carried as the bit pattern of its IEEE-754
//! representation (`u32` for single precision, `u64` for double precision).

pub mod binary;
pub mod laws;
pub mod word;

pub use binary::{
    decode_complex_vector, decode_real_vector, encode_complex_vector, encode_real_vector, Complex,
    ExtractError,
};
pub use word::LeWord;
