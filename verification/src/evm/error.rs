//! EVM-specific error type.
//!
//! These are the failures the EVM layer can hit on its own terms. At the
//! [`crate::evm::evm_chain::EvmChain`] boundary they fold into the wallet's neutral
//! [`crate::wallet::error::Error`] through the [`From`] impl below, so the
//! chain-agnostic wallet never sees an EVM-shaped error.
use vstd::prelude::*;

use crate::wallet::error::Error as WalletError;

verus! {

/// Errors produced by the EVM implementation.
#[derive(Debug, PartialEq, Eq, Structural)]
#[non_exhaustive]
pub enum Error {
    /// An address string was not valid EVM hex.
    InvalidAddress,
    /// A private key was not a valid secp256k1 scalar.
    InvalidPrivateKey,
    /// Raw signature bytes were not a well-formed secp256k1 signature.
    InvalidSignature,
    /// A signing payload could not be encoded or decoded.
    InvalidPayload,
    /// The underlying signer backend refused or failed.
    Signer,
}

/// Result alias for the EVM layer.
pub type Result<T> = core::result::Result<T, Error>;

/// The neutral wallet error an EVM error folds into.
pub open spec fn folded(e: Error) -> WalletError {
    match e {
        Error::InvalidAddress => WalletError::AddressParse,
        Error::InvalidPrivateKey => WalletError::Derivation,
        Error::InvalidSignature => WalletError::Signing,
        Error::InvalidPayload => WalletError::Signing,
        Error::Signer => WalletError::Signing,
    }
}

impl From<Error> for WalletError {
    /// Fold an EVM error into the neutral wallet error at the chain boundary.
    fn from(value: Error) -> (r: Self) {
        match value {
            Error::InvalidAddress => WalletError::AddressParse,
            Error::InvalidPrivateKey => WalletError::Derivation,
            Error::InvalidSignature => WalletError::Signing,
            Error::InvalidPayload => WalletError::Signing,
            Error::Signer => WalletError::Signing,
        }
    }
}

impl vstd::std_specs::convert::FromSpecImpl<Error> for WalletError {
    open spec fn obeys_from_spec() -> bool {
        true
    }

    open spec fn from_spec(v: Error) -> Self {
        folded(v)
    }
}

} // verus!
