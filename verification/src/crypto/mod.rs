//! Digests, authentication codes, key derivation and text armour for binary data.
pub mod base64;
pub mod hmac;
pub mod sha256;
