//! Cryptanalysis of repeating-key XOR: key-length estimation by Hamming
//! distance, column transposition, single-byte solving and reassembly.

pub mod breaker;
pub mod byte_matrix;
pub mod cipher;
pub mod codec;
pub mod hamming;
pub mod key_size;
pub mod single_key;
