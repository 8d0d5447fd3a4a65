//! Imported keys: metadata for a standalone private key held in the vault.
//!
//! The secret scalar lives in a dedicated vault entry addressed by the key's id;
//! this records the public metadata only.
use vstd::prelude::*;

use crate::wallet::chain::{ChainAddress, ChainKind};
use crate::wallet::id::KeyId;

verus! {

/// The metadata describing one imported private key. Exactly one account is
/// backed by each imported key.
#[derive(Clone, Debug)]
pub struct ImportedKey {
    /// Stable id; also the routing key to this key's vault entry.
    pub id: KeyId,
    /// The chain family this key controls an address on.
    pub chain: ChainKind,
    /// Human-facing label.
    pub label: String,
    /// Free-form notes.
    pub notes: String,
    /// Arbitrary user tags.
    pub tags: Vec<String>,
    /// The address this key controls, cached at import time.
    pub address: ChainAddress,
}

} // verus!
