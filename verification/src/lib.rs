//! Classic symmetric-cipher cryptanalysis primitives and block-cipher chaining
//! modes: XOR primitives, an English plausibility scorer, single-byte and
//! repeating-key XOR breakers, PKCS#7 padding, and AES-128 in ECB and CBC mode.

pub mod error;
pub mod ratio;
pub mod arrays;
pub mod cipher;
pub mod english;
pub mod text;
pub mod crypto;
pub mod detect;
