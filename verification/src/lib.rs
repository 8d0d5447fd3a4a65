//! A native encrypted secret vault and the chain-agnostic wallet model built on it.
//!
//! - [`vault`]: the byte-generic encrypted store: on-disk header format, key derivation
//!   and authenticated encryption, the in-memory entry map, and password scoring.
//! - [`wallet`]: the wallet organisation model (group tree, seeds, keys, accounts,
//!   manifest) and the narrow chain abstraction it routes through.
//! - [`evm`]: the EVM chain family: chain-info registry with a validated merge, payload
//!   builders, signatures, and address conversions.
//! - [`protocol`]: the versioned wire contract between the wallet daemon and its clients.
pub mod vault;
pub mod text;
pub mod keyed;
pub mod wallet;
pub mod evm;
pub mod protocol;
