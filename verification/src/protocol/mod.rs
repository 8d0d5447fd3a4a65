//! The daemon-wallet wire contract.
//!
//! It defines what may cross the wire between the wallet daemon and its clients (a
//! browser extension, a CLI, an app), and nothing about how the bytes travel. Every
//! message is framed with the [`PROTOCOL_VERSION`] it was built against and a
//! [`RequestId`] that correlates a response, or a later approval, to its request. A
//! peer that receives a version it does not support answers with
//! [`Error::UnsupportedVersion`] rather than guessing (see [`check_version`]).
use vstd::prelude::*;

pub mod dto;

pub use dto::{
    AccountDto, AccountRef, AccountSourceKind, ApprovalDto, ApprovalKind, GroupDto, Origin,
    SignatureDto, StatusDto, TypedDataDto,
};

verus! {

/// The wire-contract version this build speaks.
pub const PROTOCOL_VERSION: u32 = 1;

/// Correlation id linking a response, and any later approval, to its request.
#[derive(Clone, Copy, Debug, PartialEq, Eq, PartialOrd, Ord, Hash, Structural)]
pub struct RequestId(pub u64);

/// A protocol-level error, which travels on the wire.
#[derive(Clone, Debug, PartialEq, Eq)]
#[non_exhaustive]
pub enum Error {
    /// The peer's protocol version is not one this side can handle.
    UnsupportedVersion {
        /// The version the peer sent.
        got: u32,
        /// The version this side speaks.
        expected: u32,
    },
    /// The wallet is locked and the request needs it unlocked.
    Locked,
    /// The origin is not connected and the request requires a connection.
    NotConnected,
    /// The user rejected the request.
    Rejected,
    /// No account matches the supplied account reference.
    UnknownAccount,
    /// No parked request matches the supplied request id.
    UnknownRequest,
    /// The request parameters were malformed or inconsistent.
    InvalidParams(String),
    /// An unexpected internal failure the client cannot act on.
    Internal,
}

/// Accept an incoming envelope's protocol version, or answer with
/// [`Error::UnsupportedVersion`] naming both versions when it is not the one this
/// build speaks.
pub fn check_version(got: u32) -> (r: Result<(), Error>)
    ensures
        r is Ok <==> got == PROTOCOL_VERSION,
        r matches Err(e) ==> e == (Error::UnsupportedVersion { got, expected: PROTOCOL_VERSION }),
{
    if got == PROTOCOL_VERSION {
        Ok(())
    } else {
        Err(Error::UnsupportedVersion { got, expected: PROTOCOL_VERSION })
    }
}

} // verus!
