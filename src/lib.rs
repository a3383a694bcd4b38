//! Cryptographic core of a digital legacy vault: a two-level secret-sharing
//! scheme over circles of trusted contacts, an authenticated-encryption
//! envelope bound to public metadata, and the framing of the sealed container.
pub mod aead;
mod bytes;
pub mod shamir;
pub mod container;
pub mod crypto;
pub mod error;
pub mod meta;
pub mod notice;
pub mod recovery;
pub mod util;
pub mod vault;
