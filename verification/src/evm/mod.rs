//! The EVM chain family.
//!
//! It hosts a pinned EVM chain-info registry with a safe external merge, the payload
//! builders and signature encoding the wallet's chain-neutral signing path uses, and
//! the EVM error type that folds into the wallet's neutral one.
pub mod chains;
pub mod error;
pub mod signer;
pub mod evm_chain;

pub use chains::{ChainInfo, ChainInfoRegistry, MergeReport, BUILTIN_CHAIN_IDS};
pub use error::{Error, Result};
pub use evm_chain::{message_payload, typed_data_payload, EvmChain};
pub use signer::{parse_signature, Signature, TypedDataRequest};
