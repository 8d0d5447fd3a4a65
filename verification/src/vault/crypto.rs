//! Key derivation and authenticated encryption.
//!
//! Argon2id turns a password (and an optional keyfile pepper) into a 32-byte key.
//! XChaCha20-Poly1305 seals the plaintext under that key with the file header as
//! associated data. The keyfile bytes are hashed with BLAKE2b-256 and the digest is
//! passed to Argon2id as its optional secret input; it is never stored.
//!
//! The primitives themselves come from the `argon2`, `blake2`, `chacha20poly1305`
//! and `getrandom` crates. Their outputs are named below and not restated; what is
//! proved here is the wiring: which inputs reach which primitive, the checks made
//! before each call, and how each failure is reported.
use vstd::prelude::*;

use crate::vault::error::{Error, Result};
use crate::vault::format::{KdfParams, KEY_LEN, NONCE_LEN};
use crate::vault::secret::SecretBytes;

use blake2::Digest;
use chacha20poly1305::aead::{Aead, KeyInit, Payload};

verus! {

/// Poly1305 tag length in bytes.
pub const TAG_LEN: usize = 16;

/// The BLAKE2b digest with a 32-byte output of `data`.
pub uninterp spec fn blake2b_256(data: Seq<u8>) -> Seq<u8>;

/// The 32-byte Argon2id (version 0x13) output for the given memory, time and
/// lane costs, optional secret input, password and salt.
pub uninterp spec fn argon2id_32(
    m_cost: u32,
    t_cost: u32,
    p_cost: u32,
    secret: Option<Seq<u8>>,
    password: Seq<u8>,
    salt: Seq<u8>,
) -> Seq<u8>;

/// The XChaCha20-Poly1305 ciphertext (with the 16-byte tag appended) of `msg`
/// under `key` and `nonce` with associated data `aad`.
pub uninterp spec fn xchacha20poly1305_seal(
    key: Seq<u8>,
    nonce: Seq<u8>,
    aad: Seq<u8>,
    msg: Seq<u8>,
) -> Seq<u8>;

/// The plaintext XChaCha20-Poly1305 recovers from `ct` under `key`, `nonce` and
/// `aad`, or `None` when the tag does not verify.
pub uninterp spec fn xchacha20poly1305_open(
    key: Seq<u8>,
    nonce: Seq<u8>,
    aad: Seq<u8>,
    ct: Seq<u8>,
) -> Option<Seq<u8>>;

/// Whether `argon2::Params::new` accepts these costs with a 32-byte output:
/// memory of at least 8 KiB and at least 8 KiB per lane, at least one pass, and
/// between 1 and `0xFF_FFFF` lanes.
pub open spec fn argon2_accepts_costs(m_cost: u32, t_cost: u32, p_cost: u32) -> bool {
    &&& m_cost >= 8
    &&& m_cost >= p_cost * 8
    &&& t_cost >= 1
    &&& 1 <= p_cost <= 0xFF_FFFF
}

/// Whether `Argon2::hash_password_into` accepts these inputs: a password of at most
/// `u32::MAX` bytes, a salt of 8 to `u32::MAX` bytes, and a secret, when there is
/// one, of at most `u32::MAX` bytes.
pub open spec fn argon2_accepts_inputs(
    secret: Option<Seq<u8>>,
    password: Seq<u8>,
    salt: Seq<u8>,
) -> bool {
    &&& password.len() <= u32::MAX
    &&& 8 <= salt.len() <= u32::MAX
    &&& (secret matches Some(s) ==> s.len() <= u32::MAX)
}

/// The largest plaintext XChaCha20-Poly1305 seals: fewer than `u32::MAX` 64-byte
/// blocks.
pub open spec fn aead_accepts_len(len: nat) -> bool {
    len / 64 < u32::MAX
}

/// `blake2::Blake2b::<U32>` over `data`: the 32-byte digest.
#[verifier::external_body]
fn blake2b_256_digest(data: &[u8]) -> (r: Vec<u8>)
    ensures
        r@ == blake2b_256(data@),
        r@.len() == 32,
{
    let mut hasher = blake2::Blake2b::<blake2::digest::consts::U32>::new();
    hasher.update(data);
    hasher.finalize().to_vec()
}

/// `argon2::Params::new(m, t, p, Some(32))`: whether it succeeds. The costs it
/// accepts are stated in [`argon2_accepts_costs`]. The crate computes `p_cost * 8`
/// in `u32`, so lane counts whose product overflows are not passed in.
#[verifier::external_body]
fn argon2_costs_ok(m_cost: u32, t_cost: u32, p_cost: u32) -> (r: bool)
    requires
        p_cost * 8 <= u32::MAX,
    ensures
        r == argon2_accepts_costs(m_cost, t_cost, p_cost),
{
    argon2::Params::new(m_cost, t_cost, p_cost, Some(32)).is_ok()
}

/// Argon2id, version 0x13, with `argon2::Params::new(m, t, p, Some(32))`, keyed with
/// `secret` through `Argon2::new_with_secret` when there is one, hashing `password`
/// and `salt` with `hash_password_into` into 32 bytes. It fails exactly when the
/// crate's input checks fail. Allocating `m_cost` KiB of working memory can abort
/// the process when the machine has less; that is not stated.
#[verifier::external_body]
fn argon2id_hash(
    m_cost: u32,
    t_cost: u32,
    p_cost: u32,
    secret: Option<&[u8]>,
    password: &[u8],
    salt: &[u8],
) -> (r: core::result::Result<Vec<u8>, ()>)
    requires
        argon2_accepts_costs(m_cost, t_cost, p_cost),
    ensures
        r is Ok <==> argon2_accepts_inputs(
            match secret {
                Some(s) => Some(s@),
                None => None,
            },
            password@,
            salt@,
        ),
        r matches Ok(k) ==> k@ == argon2id_32(
            m_cost,
            t_cost,
            p_cost,
            match secret {
                Some(s) => Some(s@),
                None => None,
            },
            password@,
            salt@,
        ) && k@.len() == 32,
{
    let params = argon2::Params::new(m_cost, t_cost, p_cost, Some(32)).map_err(|_| ())?;
    let argon = match secret {
        Some(s) => argon2::Argon2::new_with_secret(
            s,
            argon2::Algorithm::Argon2id,
            argon2::Version::V0x13,
            params,
        ).map_err(|_| ())?,
        None => argon2::Argon2::new(argon2::Algorithm::Argon2id, argon2::Version::V0x13, params),
    };
    let mut key = vec![0u8; 32];
    argon.hash_password_into(password, salt, &mut key).map_err(|_| ())?;
    Ok(key)
}

/// `XChaCha20Poly1305::new(key).encrypt(nonce, Payload { msg, aad })`. It fails only
/// when the plaintext reaches `u32::MAX` 64-byte blocks; the ciphertext is the
/// plaintext's length plus the 16-byte tag.
#[verifier::external_body]
fn xchacha_encrypt(key: &[u8], nonce: &[u8], aad: &[u8], msg: &[u8]) -> (r: core::result::Result<Vec<u8>, ()>)
    requires
        key@.len() == 32,
        nonce@.len() == 24,
    ensures
        r is Ok <==> aead_accepts_len(msg@.len()),
        r matches Ok(c) ==> c@ == xchacha20poly1305_seal(key@, nonce@, aad@, msg@) && c@.len()
            == msg@.len() + 16,
{
    let cipher = chacha20poly1305::XChaCha20Poly1305::new(chacha20poly1305::Key::from_slice(key));
    cipher.encrypt(chacha20poly1305::XNonce::from_slice(nonce), Payload { msg, aad }).map_err(
        |_| (),
    )
}

/// `XChaCha20Poly1305::new(key).decrypt(nonce, Payload { msg: ct, aad })`. A
/// ciphertext shorter than the tag is refused; what succeeds is what
/// [`xchacha20poly1305_open`] recovers, and a ciphertext that sealing produced
/// under the same key, nonce and associated data opens to its plaintext.
#[verifier::external_body]
fn xchacha_decrypt(key: &[u8], nonce: &[u8], aad: &[u8], ct: &[u8]) -> (r: core::result::Result<Vec<u8>, ()>)
    requires
        key@.len() == 32,
        nonce@.len() == 24,
    ensures
        ct@.len() < 16 ==> r is Err,
        r matches Ok(p) ==> xchacha20poly1305_open(key@, nonce@, aad@, ct@) == Some(p@)
            && p@.len() + 16 == ct@.len(),
        r is Err ==> xchacha20poly1305_open(key@, nonce@, aad@, ct@) is None,
        r is Err ==> forall|m: Seq<u8>|
            #[trigger] xchacha20poly1305_seal(key@, nonce@, aad@, m) != ct@ || !aead_accepts_len(
                m.len(),
            ),
        r matches Ok(p) ==> forall|m: Seq<u8>|
            #[trigger] xchacha20poly1305_seal(key@, nonce@, aad@, m) == ct@ && aead_accepts_len(
                m.len(),
            ) ==> p@ == m,
{
    let cipher = chacha20poly1305::XChaCha20Poly1305::new(chacha20poly1305::Key::from_slice(key));
    cipher.decrypt(chacha20poly1305::XNonce::from_slice(nonce), Payload { msg: ct, aad }).map_err(
        |_| (),
    )
}

/// `getrandom::getrandom` over the buffer: on success every byte has been
/// overwritten from the operating system's CSPRNG. Nothing is stated of the values.
#[verifier::external_body]
fn os_random_fill(buf: &mut Vec<u8>) -> (r: core::result::Result<(), ()>)
    ensures
        final(buf)@.len() == old(buf)@.len(),
{
    getrandom::getrandom(buf.as_mut_slice()).map_err(|_| ())
}

/// Fill a buffer from the operating system CSPRNG.
pub fn fill_random(buf: &mut Vec<u8>) -> (r: Result<()>)
    ensures
        final(buf)@.len() == old(buf)@.len(),
        r matches Err(e) ==> e is Random,
{
    match os_random_fill(buf) {
        Ok(()) => Ok(()),
        Err(()) => Err(Error::Random),
    }
}

/// Hash keyfile bytes into the 32-byte Argon2id secret.
pub fn keyfile_secret(keyfile: &[u8]) -> (r: SecretBytes)
    ensures
        r@ == blake2b_256(keyfile@),
        r@.len() == 32,
{
    let digest = blake2b_256_digest(keyfile);
    SecretBytes::from_vec(digest)
}

/// What [`derive_key`] returns: the key, or the error for parameters below the
/// minimums, parameters Argon2 refuses, or inputs Argon2 refuses, in that order.
pub open spec fn derive_key_result(
    params: KdfParams,
    salt: Seq<u8>,
    password: Seq<u8>,
    secret: Option<Seq<u8>>,
) -> core::result::Result<Seq<u8>, Error> {
    if !params.meets_minimums() {
        Err(Error::InvalidParams)
    } else if !argon2_accepts_costs(params.m_cost, params.t_cost, params.p_cost) {
        Err(Error::InvalidParams)
    } else if !argon2_accepts_inputs(secret, password, salt) {
        Err(Error::Kdf)
    } else {
        Ok(argon2id_32(params.m_cost, params.t_cost, params.p_cost, secret, password, salt))
    }
}

/// The view of an optional byte slice.
pub open spec fn opt_bytes(s: Option<&[u8]>) -> Option<Seq<u8>> {
    match s {
        Some(b) => Some(b@),
        None => None,
    }
}

/// Derive the 32-byte key with Argon2id, honoring the supplied parameters.
pub fn derive_key(params: &KdfParams, salt: &[u8], password: &[u8], secret: Option<&[u8]>) -> (r:
    Result<SecretBytes>)
    ensures
        match (r, derive_key_result(*params, salt@, password@, opt_bytes(secret))) {
            (Ok(k), Ok(v)) => k@ == v && k@.len() == KEY_LEN,
            (Err(e), Err(f)) => e == f,
            _ => false,
        },
{
    params.validate()?;
    // Argon2 refuses more than 0xFF_FFFF lanes; answering for it here also keeps
    // its `p_cost * 8` from overflowing.
    if params.p_cost > 0xFF_FFFF {
        return Err(Error::InvalidParams);
    }
    if !argon2_costs_ok(params.m_cost, params.t_cost, params.p_cost) {
        return Err(Error::InvalidParams);
    }
    match argon2id_hash(params.m_cost, params.t_cost, params.p_cost, secret, password, salt) {
        Ok(key) => Ok(SecretBytes::from_vec(key)),
        Err(()) => Err(Error::Kdf),
    }
}

/// What [`seal`] returns.
pub open spec fn seal_result(key: Seq<u8>, nonce: Seq<u8>, aad: Seq<u8>, plaintext: Seq<u8>) -> core::result::Result<
    Seq<u8>,
    Error,
> {
    if nonce.len() != NONCE_LEN {
        Err(Error::MalformedHeader)
    } else if !aead_accepts_len(plaintext.len()) {
        Err(Error::Auth)
    } else {
        Ok(xchacha20poly1305_seal(key, nonce, aad, plaintext))
    }
}

/// Encrypt `plaintext` under `key` with `aad` as associated data.
pub fn seal(key: &[u8], nonce: &[u8], aad: &[u8], plaintext: &[u8]) -> (r: Result<Vec<u8>>)
    requires
        key@.len() == KEY_LEN,
    ensures
        match (r, seal_result(key@, nonce@, aad@, plaintext@)) {
            (Ok(c), Ok(v)) => c@ == v && c@.len() == plaintext@.len() + TAG_LEN,
            (Err(e), Err(f)) => e == f,
            _ => false,
        },
{
    if nonce.len() != NONCE_LEN {
        return Err(Error::MalformedHeader);
    }
    match xchacha_encrypt(key, nonce, aad, plaintext) {
        Ok(c) => Ok(c),
        Err(()) => Err(Error::Auth),
    }
}

/// What [`open`] returns.
pub open spec fn open_result(key: Seq<u8>, nonce: Seq<u8>, aad: Seq<u8>, ciphertext: Seq<u8>) -> core::result::Result<
    Seq<u8>,
    Error,
> {
    if nonce.len() != NONCE_LEN {
        Err(Error::MalformedHeader)
    } else {
        match xchacha20poly1305_open(key, nonce, aad, ciphertext) {
            Some(p) => Ok(p),
            None => Err(Error::Auth),
        }
    }
}

/// Decrypt and verify `ciphertext` under `key` with `aad` as associated data.
pub fn open(key: &[u8], nonce: &[u8], aad: &[u8], ciphertext: &[u8]) -> (r: Result<SecretBytes>)
    requires
        key@.len() == KEY_LEN,
    ensures
        match (r, open_result(key@, nonce@, aad@, ciphertext@)) {
            (Ok(p), Ok(v)) => p@ == v,
            (Err(e), Err(f)) => e == f,
            _ => false,
        },
        nonce@.len() == NONCE_LEN ==> forall|m: Seq<u8>|
            #![trigger xchacha20poly1305_seal(key@, nonce@, aad@, m)]
            xchacha20poly1305_seal(key@, nonce@, aad@, m) == ciphertext@ && aead_accepts_len(
                m.len(),
            ) ==> (r matches Ok(p) && p@ == m),
{
    if nonce.len() != NONCE_LEN {
        return Err(Error::MalformedHeader);
    }
    match xchacha_decrypt(key, nonce, aad, ciphertext) {
        Ok(p) => Ok(SecretBytes::from_vec(p)),
        Err(()) => Err(Error::Auth),
    }
}

} // verus!
