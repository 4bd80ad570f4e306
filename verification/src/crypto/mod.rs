//! Cryptographic building blocks: hashing, authenticated encryption and
//! password-based key derivation.

pub mod hash;
pub mod aead;
pub mod kdf;
