//! The chain-agnostic wallet organisation model, built on the encrypted vault.
//!
//! It holds the nested group tree, seed and imported-key metadata, accounts, and
//! the manifest that persists them into the vault. Everything chain-specific
//! (deriving an address, forming a signature, parsing an address) goes through the
//! narrow [`chain::Chain`] trait.
pub mod id;
pub mod chain;
pub mod error;
pub mod seed;
pub mod group;
pub mod account;
pub mod key;
pub mod manifest;
pub mod wallet;
