//! Accounts: an address the wallet can sign for, plus how it was obtained.
//!
//! An account is either derived from a seed at some index or backed by a
//! standalone imported key, and records the group it is filed under, so the group
//! tree stays a pure folder structure.
use vstd::prelude::*;

use crate::wallet::chain::{ChainAddress, ChainKind};
use crate::wallet::id::{AccountId, GroupId, KeyId, SeedId};
use crate::wallet::seed::DerivationPath;

verus! {

/// Where an account's signing key comes from.
#[derive(Clone, Debug, PartialEq, Eq)]
pub enum AccountSource {
    /// Derived from a seed at a fixed index; the resolved path is stored so the
    /// account still resolves if the seed's scheme later changes.
    Derived {
        /// The seed this account was derived from.
        seed: SeedId,
        /// The account index used against that seed.
        index: u32,
        /// The fully resolved derivation path.
        path: DerivationPath,
    },
    /// Backed by a standalone imported private key.
    Imported {
        /// The imported key that controls this address.
        key: KeyId,
    },
}

/// One signable address together with its provenance and display state.
#[derive(Clone, Debug)]
pub struct Account {
    /// Stable id.
    pub id: AccountId,
    /// The chain family this account belongs to.
    pub chain: ChainKind,
    /// The chain-neutral address, cached so it can be shown without unlocking.
    pub address: ChainAddress,
    /// Whether the account is derived or imported.
    pub source: AccountSource,
    /// The group this account is filed under.
    pub group: GroupId,
    /// Human-facing label.
    pub label: String,
    /// Hidden from normal listings but still fully functional.
    pub hidden: bool,
    /// A forgotten derived account: never handed back out by derivation. Always
    /// `false` for imported accounts, which are deleted outright instead.
    pub do_not_rederive: bool,
    /// Free-form notes.
    pub notes: String,
    /// Arbitrary user tags.
    pub tags: Vec<String>,
}

} // verus!
