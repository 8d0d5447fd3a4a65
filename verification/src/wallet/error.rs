//! Error type for the chain-agnostic wallet.
//!
//! Vault failures are wrapped verbatim so a caller can still tell a wrong password
//! apart from a missing object. Chain-specific failures surface as the neutral
//! [`Error::Derivation`], [`Error::Signing`] or [`Error::AddressParse`].
use vstd::prelude::*;

use crate::wallet::chain::ChainKind;
use crate::wallet::id::{AccountId, GroupId, KeyId, SeedId};

verus! {

/// Errors returned by wallet operations.
#[derive(Debug)]
#[non_exhaustive]
pub enum Error {
    /// A failure originating in the underlying encrypted vault.
    Vault(crate::vault::Error),
    /// No group exists for the given id.
    GroupNotFound(GroupId),
    /// No seed source exists for the given id.
    SeedNotFound(SeedId),
    /// No imported key exists for the given id.
    KeyNotFound(KeyId),
    /// No account exists for the given id.
    AccountNotFound(AccountId),
    /// A group move would place a node inside its own subtree.
    GroupCycle,
    /// The root group cannot be removed, moved, or reparented.
    RootImmutable,
    /// A group still holds children or accounts and the policy forbids removal.
    GroupNotEmpty,
    /// The manifest bytes read from the vault could not be decoded.
    ManifestDecode,
    /// The in-memory manifest could not be encoded for storage.
    ManifestEncode,
    /// The stored manifest schema version is newer than this build understands.
    ManifestVersion(u16),
    /// Re-authentication did not match the vault's password.
    Reauth,
    /// No chain implementation is registered for the family an operation needs.
    ChainNotRegistered(ChainKind),
    /// A signing payload's chain tag disagreed with the account's chain family.
    ChainMismatch,
    /// A chain implementation could not parse or canonicalise an address.
    AddressParse,
    /// A chain implementation failed to derive an address or signing key.
    Derivation,
    /// A chain implementation failed to produce a signature.
    Signing,
}

/// Result alias used across the wallet.
pub type Result<T> = core::result::Result<T, Error>;

} // verus!
