//! Vault error type.
//!
//! The crypto failures all collapse into [`Error::Auth`], so a wrong password, a
//! wrong keyfile and a tampered file cannot be told apart.
use vstd::prelude::*;

verus! {

/// The standard library's IO error, carried opaquely in [`Error::Io`].
#[verifier::external_type_specification]
#[verifier::external_body]
pub struct ExIoError(std::io::Error);

/// Errors returned by vault operations.
#[derive(Debug)]
#[non_exhaustive]
pub enum Error {
    /// Filesystem or other IO failure.
    Io(std::io::Error),
    /// The file does not start with the expected magic bytes.
    BadMagic,
    /// The on-disk format version is not the one this build understands.
    UnsupportedVersion(u16),
    /// The stored KDF identifier is not one this build implements.
    UnsupportedKdf(u8),
    /// The stored AEAD identifier is not one this build implements.
    UnsupportedAead(u8),
    /// The header is truncated or otherwise not parseable.
    MalformedHeader,
    /// Decryption or tag verification failed: wrong password, wrong or missing
    /// keyfile, or any tampering with header or ciphertext.
    Auth,
    /// The vault was created with a keyfile but none was supplied.
    KeyfileRequired,
    /// A keyfile was supplied for a vault that was created without one.
    UnexpectedKeyfile,
    /// Key derivation failed inside Argon2.
    Kdf,
    /// The supplied Argon2 parameters are below the algorithm minimums.
    InvalidParams,
    /// The stored Argon2 parameters exceed the read-path safety ceiling.
    ParamsOutOfRange,
    /// The plaintext entry map could not be encoded.
    Serialize,
    /// The decrypted bytes were not a valid entry map.
    Deserialize,
    /// The system secure random source was unavailable.
    Random,
    /// No entry exists for the given id.
    NotFound,
}

/// Result alias used across the vault.
pub type Result<T> = core::result::Result<T, Error>;

} // verus!
