//! The EVM signing surface: the typed-data request and the signature type.
//!
//! A signature is held in structured `(r, s, y_parity)` form, `r` and `s` as 32
//! big-endian bytes each. [`Signature::to_rsv`] renders the 65-byte `r ‖ s ‖ v`
//! layout most EVM tooling expects, and [`parse_signature`] reads it back.
use vstd::prelude::*;

use crate::evm::error::{Error, Result};

verus! {

/// An EIP-712 typed-data request, carried as the raw JSON a dapp supplies.
#[derive(Clone, Debug, PartialEq, Eq)]
pub struct TypedDataRequest {
    /// The canonical EIP-712 JSON document (`types`, `domain`, `primaryType`,
    /// `message`).
    pub raw_json: String,
}

/// A secp256k1 signature over an EVM payload.
#[derive(Clone, Copy, Debug, PartialEq, Eq)]
pub struct Signature {
    /// The `r` component, big-endian.
    pub r: [u8; 32],
    /// The `s` component, big-endian.
    pub s: [u8; 32],
    /// The recovery bit (`v = 27 + y_parity` in legacy encodings).
    pub y_parity: bool,
}

/// The `v` byte of a recovery bit.
pub open spec fn v_byte(y_parity: bool) -> u8 {
    if y_parity {
        28
    } else {
        27
    }
}

/// The 65-byte `r ‖ s ‖ v` encoding of a signature.
pub open spec fn rsv_bytes(r: Seq<u8>, s: Seq<u8>, y_parity: bool) -> Seq<u8> {
    r + s + seq![v_byte(y_parity)]
}

/// Whether a `v` byte is one a well-formed signature carries: `27`/`28`, or the
/// bare parity `0`/`1`.
pub open spec fn valid_v(v: u8) -> bool {
    v == 27 || v == 28 || v == 0 || v == 1
}

/// The recovery bit a valid `v` byte stands for.
pub open spec fn parity_of(v: u8) -> bool {
    v == 28 || v == 1
}

impl Signature {
    /// Render the signature as 65 bytes: `r` (32) ‖ `s` (32) ‖ `v` (1), where `v`
    /// is `27` or `28`.
    pub fn to_rsv(&self) -> (out: [u8; 65])
        ensures
            out@ == rsv_bytes(self.r@, self.s@, self.y_parity),
    {
        let mut out: [u8; 65] = [0u8; 65];
        let mut i: usize = 0;
        while i < 32
            invariant
                i <= 32,
                out@.len() == 65,
                forall|j: int| 0 <= j < i ==> out@[j] == self.r@[j],
                forall|j: int| 0 <= j < i ==> out@[32 + j] == self.s@[j],
            decreases 32 - i,
        {
            out[i] = self.r[i];
            out[32 + i] = self.s[i];
            i = i + 1;
        }
        out[64] = if self.y_parity {
            28
        } else {
            27
        };
        assert(out@ =~= rsv_bytes(self.r@, self.s@, self.y_parity));
        out
    }
}

/// Reconstruct a typed [`Signature`] from raw `r ‖ s ‖ v` bytes.
///
/// Fails with [`Error::InvalidSignature`] unless the input is exactly 65 bytes whose
/// last byte is `27`, `28`, `0` or `1`.
pub fn parse_signature(bytes: &[u8]) -> (res: Result<Signature>)
    ensures
        match res {
            Ok(sig) => {
                &&& bytes@.len() == 65
                &&& valid_v(bytes@[64])
                &&& sig.r@ == bytes@.subrange(0, 32)
                &&& sig.s@ == bytes@.subrange(32, 64)
                &&& sig.y_parity == parity_of(bytes@[64])
            },
            Err(e) => e == Error::InvalidSignature && !(bytes@.len() == 65 && valid_v(bytes@[64])),
        },
{
    if bytes.len() != 65 {
        return Err(Error::InvalidSignature);
    }
    let v = bytes[64];
    if !(v == 27 || v == 28 || v == 0 || v == 1) {
        return Err(Error::InvalidSignature);
    }
    let mut r: [u8; 32] = [0u8; 32];
    let mut s: [u8; 32] = [0u8; 32];
    let mut i: usize = 0;
    while i < 32
        invariant
            i <= 32,
            bytes@.len() == 65,
            r@.len() == 32,
            s@.len() == 32,
            forall|j: int| 0 <= j < i ==> r@[j] == bytes@[j],
            forall|j: int| 0 <= j < i ==> s@[j] == bytes@[32 + j],
        decreases 32 - i,
    {
        r[i] = bytes[i];
        s[i] = bytes[32 + i];
        i = i + 1;
    }
    assert(r@ =~= bytes@.subrange(0, 32));
    assert(s@ =~= bytes@.subrange(32, 64));
    Ok(Signature { r, s, y_parity: v == 28 || v == 1 })
}

/// Parsing the 65-byte rendering of a signature gives the signature back.
pub proof fn lemma_rsv_round_trip(r: Seq<u8>, s: Seq<u8>, y_parity: bool)
    requires
        r.len() == 32,
        s.len() == 32,
    ensures
        rsv_bytes(r, s, y_parity).len() == 65,
        valid_v(rsv_bytes(r, s, y_parity)[64]),
        rsv_bytes(r, s, y_parity).subrange(0, 32) == r,
        rsv_bytes(r, s, y_parity).subrange(32, 64) == s,
        parity_of(rsv_bytes(r, s, y_parity)[64]) == y_parity,
{
    assert(rsv_bytes(r, s, y_parity).subrange(0, 32) =~= r);
    assert(rsv_bytes(r, s, y_parity).subrange(32, 64) =~= s);
}

/// Rendering a parsed signature gives back the input bytes whenever `v` was given in
/// the `27`/`28` form.
pub proof fn lemma_rsv_canonical(b: Seq<u8>)
    requires
        b.len() == 65,
        b[64] == 27 || b[64] == 28,
    ensures
        rsv_bytes(b.subrange(0, 32), b.subrange(32, 64), parity_of(b[64])) == b,
{
    assert(rsv_bytes(b.subrange(0, 32), b.subrange(32, 64), parity_of(b[64])) =~= b);
}

} // verus!
