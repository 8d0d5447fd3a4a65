//! The encrypted secret vault.
//!
//! Entries are ids mapped to opaque secret bytes plus a [`Meta`] record. The file is
//! a self-describing binary header followed by an XChaCha20-Poly1305 ciphertext whose
//! associated data is the whole header; the key comes from Argon2id over the password
//! and an optional BLAKE2b-256 keyfile pepper.
pub mod error;
pub mod crypto;
pub mod format;
pub mod secret;
pub mod strength;
pub mod vault;

pub use error::Error;
pub use format::{KdfParams, FORMAT_VERSION};
pub use secret::SecretBytes;
pub use vault::{Entry, Meta, Vault};
