//! A local secrets vault: name/value pairs kept under authenticated
//! encryption with a key derived from a master password.
//!
//! `crypto` turns a password into a key and frames payloads as hex blobs
//! (nonce followed by ciphertext and tag); `order` is the byte order in which
//! names are listed; `storage` holds the sorted collection of secrets and
//! decides what is loaded and what must be written back.
pub mod crypto;
pub mod error;
pub mod order;
pub mod storage;
