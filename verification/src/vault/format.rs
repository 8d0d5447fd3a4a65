//! On-disk file format.
//!
//! The layout is hand-rolled and self-describing so the KDF parameters that were
//! actually used travel with the file. The read path always honors the stored
//! parameters, never the current defaults.
//!
//! Byte layout (all multi-byte integers are big-endian):
//!
//! ```text
//! offset  size  field
//! 0       8     magic  b"DWVAULT\0"
//! 8       2     format_version  u16
//! 10      1     kdf_id          u8   (1 = Argon2id)
//! 11      1     aead_id         u8   (1 = XChaCha20-Poly1305)
//! 12      4     argon2 m_cost   u32  (memory, KiB)
//! 16      4     argon2 t_cost   u32  (iterations)
//! 20      4     argon2 p_cost   u32  (lanes)
//! 24      1     flags           u8   (bit0 = keyfile required)
//! 25      2     salt_len        u16
//! 27      N     salt            salt_len bytes
//! ..      1     nonce_len       u8
//! ..      M     nonce           nonce_len bytes
//! ..      8     ct_len          u64  (ciphertext + tag length)
//! ..      L     ciphertext+tag  ct_len bytes
//! ```
//!
//! Everything from `magic` through `ct_len` is the AEAD associated data.
use vstd::prelude::*;

use vstd::slice::*;

use crate::vault::error::{Error, Result};

verus! {

/// File magic, the bytes of `b"DWVAULT\0"`.
pub const MAGIC: [u8; 8] = [0x44, 0x57, 0x56, 0x41, 0x55, 0x4c, 0x54, 0x00];

/// Current on-disk format version.
pub const FORMAT_VERSION: u16 = 1;

/// KDF identifier for Argon2id.
pub const KDF_ARGON2ID: u8 = 1;

/// AEAD identifier for XChaCha20-Poly1305.
pub const AEAD_XCHACHA20POLY1305: u8 = 1;

/// Header flag bit that marks a vault as keyfile protected.
pub const FLAG_KEYFILE: u8 = 1;

/// Salt length in bytes.
pub const SALT_LEN: usize = 16;

/// XChaCha20 nonce length in bytes.
pub const NONCE_LEN: usize = 24;

/// Derived key length in bytes.
pub const KEY_LEN: usize = 32;

/// The magic bytes as a sequence.
pub open spec fn magic_seq() -> Seq<u8> {
    seq![0x44u8, 0x57u8, 0x56u8, 0x41u8, 0x55u8, 0x4cu8, 0x54u8, 0x00u8]
}

// --- big-endian integers ------------------------------------------------------

/// Big-endian bytes of a `u16`.
pub open spec fn be_u16(v: u16) -> Seq<u8> {
    seq![(v >> 8u16) as u8, (v & 0xffu16) as u8]
}

/// Big-endian bytes of a `u32`.
pub open spec fn be_u32(v: u32) -> Seq<u8> {
    seq![(v >> 24u32) as u8, ((v >> 16u32) & 0xffu32) as u8, ((v >> 8u32) & 0xffu32) as u8, (v & 0xffu32) as u8]
}

/// Big-endian bytes of a `u64`.
pub open spec fn be_u64(v: u64) -> Seq<u8> {
    seq![
        (v >> 56u64) as u8,
        ((v >> 48u64) & 0xffu64) as u8,
        ((v >> 40u64) & 0xffu64) as u8,
        ((v >> 32u64) & 0xffu64) as u8,
        ((v >> 24u64) & 0xffu64) as u8,
        ((v >> 16u64) & 0xffu64) as u8,
        ((v >> 8u64) & 0xffu64) as u8,
        (v & 0xffu64) as u8,
    ]
}

/// The `u16` with big-endian bytes `b0, b1`.
pub open spec fn u16_of(b0: u8, b1: u8) -> u16 {
    ((b0 as u16) << 8u16) | (b1 as u16)
}

/// The `u32` with big-endian bytes `b0 .. b3`.
pub open spec fn u32_of(b0: u8, b1: u8, b2: u8, b3: u8) -> u32 {
    ((b0 as u32) << 24u32) | ((b1 as u32) << 16u32) | ((b2 as u32) << 8u32) | (b3 as u32)
}

/// The `u64` with big-endian bytes `b0 .. b7`.
pub open spec fn u64_of(b0: u8, b1: u8, b2: u8, b3: u8, b4: u8, b5: u8, b6: u8, b7: u8) -> u64 {
    ((b0 as u64) << 56u64) | ((b1 as u64) << 48u64) | ((b2 as u64) << 40u64) | ((b3 as u64)
        << 32u64) | ((b4 as u64) << 24u64) | ((b5 as u64) << 16u64) | ((b6 as u64) << 8u64) | (
    b7 as u64)
}

/// The `u16` whose big-endian bytes start `b`.
pub open spec fn read_be_u16(b: Seq<u8>) -> u16 {
    u16_of(b[0], b[1])
}

/// The `u32` whose big-endian bytes start `b`.
pub open spec fn read_be_u32(b: Seq<u8>) -> u32 {
    u32_of(b[0], b[1], b[2], b[3])
}

/// The `u64` whose big-endian bytes start `b`.
pub open spec fn read_be_u64(b: Seq<u8>) -> u64 {
    u64_of(b[0], b[1], b[2], b[3], b[4], b[5], b[6], b[7])
}

proof fn lemma_be_u16(v: u16)
    ensures
        be_u16(v).len() == 2,
        read_be_u16(be_u16(v)) == v,
{
    assert(u16_of((v >> 8u16) as u8, (v & 0xffu16) as u8) == v) by (bit_vector);
}

proof fn lemma_be_u32(v: u32)
    ensures
        be_u32(v).len() == 4,
        read_be_u32(be_u32(v)) == v,
{
    assert(u32_of(
        (v >> 24u32) as u8,
        ((v >> 16u32) & 0xffu32) as u8,
        ((v >> 8u32) & 0xffu32) as u8,
        (v & 0xffu32) as u8,
    ) == v) by (bit_vector);
}

proof fn lemma_be_u64(v: u64)
    ensures
        be_u64(v).len() == 8,
        read_be_u64(be_u64(v)) == v,
{
    assert(u64_of(
        (v >> 56u64) as u8,
        ((v >> 48u64) & 0xffu64) as u8,
        ((v >> 40u64) & 0xffu64) as u8,
        ((v >> 32u64) & 0xffu64) as u8,
        ((v >> 24u64) & 0xffu64) as u8,
        ((v >> 16u64) & 0xffu64) as u8,
        ((v >> 8u64) & 0xffu64) as u8,
        (v & 0xffu64) as u8,
    ) == v) by (bit_vector);
}

proof fn lemma_read_be_u16(b: Seq<u8>)
    requires
        b.len() == 2,
    ensures
        be_u16(read_be_u16(b)) == b,
{
    let (b0, b1) = (b[0], b[1]);
    let v = u16_of(b0, b1);
    assert((v >> 8u16) as u8 == b0 && (v & 0xffu16) as u8 == b1) by (bit_vector)
        requires
            v == u16_of(b0, b1),
    ;
    assert(be_u16(v) =~= b);
}

proof fn lemma_read_be_u32(b: Seq<u8>)
    requires
        b.len() == 4,
    ensures
        be_u32(read_be_u32(b)) == b,
{
    let (b0, b1, b2, b3) = (b[0], b[1], b[2], b[3]);
    let v = u32_of(b0, b1, b2, b3);
    assert((v >> 24u32) as u8 == b0 && ((v >> 16u32) & 0xffu32) as u8 == b1 && ((v >> 8u32)
        & 0xffu32) as u8 == b2 && (v & 0xffu32) as u8 == b3) by (bit_vector)
        requires
            v == u32_of(b0, b1, b2, b3),
    ;
    assert(be_u32(v) =~= b);
}

proof fn lemma_read_be_u64(b: Seq<u8>)
    requires
        b.len() == 8,
    ensures
        be_u64(read_be_u64(b)) == b,
{
    let (b0, b1, b2, b3, b4, b5, b6, b7) = (b[0], b[1], b[2], b[3], b[4], b[5], b[6], b[7]);
    let v = u64_of(b0, b1, b2, b3, b4, b5, b6, b7);
    assert((v >> 56u64) as u8 == b0 && ((v >> 48u64) & 0xffu64) as u8 == b1 && ((v >> 40u64)
        & 0xffu64) as u8 == b2 && ((v >> 32u64) & 0xffu64) as u8 == b3 && ((v >> 24u64)
        & 0xffu64) as u8 == b4 && ((v >> 16u64) & 0xffu64) as u8 == b5 && ((v >> 8u64)
        & 0xffu64) as u8 == b6 && (v & 0xffu64) as u8 == b7) by (bit_vector)
        requires
            v == u64_of(b0, b1, b2, b3, b4, b5, b6, b7),
    ;
    assert(be_u64(v) =~= b);
}

fn push_be_u16(out: &mut Vec<u8>, v: u16)
    ensures
        final(out)@ == old(out)@ + be_u16(v),
{
    out.push((v >> 8u16) as u8);
    out.push((v & 0xffu16) as u8);
    assert(final(out)@ =~= old(out)@ + be_u16(v));
}

fn push_be_u32(out: &mut Vec<u8>, v: u32)
    ensures
        final(out)@ == old(out)@ + be_u32(v),
{
    out.push((v >> 24u32) as u8);
    out.push(((v >> 16u32) & 0xffu32) as u8);
    out.push(((v >> 8u32) & 0xffu32) as u8);
    out.push((v & 0xffu32) as u8);
    assert(final(out)@ =~= old(out)@ + be_u32(v));
}

fn push_be_u64(out: &mut Vec<u8>, v: u64)
    ensures
        final(out)@ == old(out)@ + be_u64(v),
{
    out.push((v >> 56u64) as u8);
    out.push(((v >> 48u64) & 0xffu64) as u8);
    out.push(((v >> 40u64) & 0xffu64) as u8);
    out.push(((v >> 32u64) & 0xffu64) as u8);
    out.push(((v >> 24u64) & 0xffu64) as u8);
    out.push(((v >> 16u64) & 0xffu64) as u8);
    out.push(((v >> 8u64) & 0xffu64) as u8);
    out.push((v & 0xffu64) as u8);
    assert(final(out)@ =~= old(out)@ + be_u64(v));
}

pub(crate) fn extend_from_slice(out: &mut Vec<u8>, s: &[u8])
    ensures
        final(out)@ == old(out)@ + s@,
{
    let mut i: usize = 0;
    while i < s.len()
        invariant
            i <= s@.len(),
            out@ == old(out)@ + s@.subrange(0, i as int),
        decreases s@.len() - i,
    {
        out.push(s[i]);
        i = i + 1;
        assert(out@ =~= old(out)@ + s@.subrange(0, i as int));
    }
    assert(s@.subrange(0, s@.len() as int) =~= s@);
}

// --- KDF parameters -----------------------------------------------------------

/// Argon2id cost parameters stored with, and read back from, each file.
///
/// `m_cost` is memory in KiB, `t_cost` is the iteration count, `p_cost` is the
/// degree of parallelism.
#[derive(Clone, Copy, Debug, PartialEq, Eq, Structural)]
pub struct KdfParams {
    /// Memory cost in KiB.
    pub m_cost: u32,
    /// Time cost (iterations).
    pub t_cost: u32,
    /// Parallelism (lanes).
    pub p_cost: u32,
}

impl KdfParams {
    /// OWASP floor for Argon2id, 19 MiB / t=2 / p=1.
    pub fn owasp_floor() -> (r: KdfParams)
        ensures
            r == (KdfParams { m_cost: 19_456, t_cost: 2, p_cost: 1 }),
    {
        KdfParams { m_cost: 19_456, t_cost: 2, p_cost: 1 }
    }

    /// Strong desktop default, 64 MiB / t=3 / p=1. Sits well above the floor.
    pub fn recommended() -> (r: KdfParams)
        ensures
            r == (KdfParams { m_cost: 65_536, t_cost: 3, p_cost: 1 }),
    {
        KdfParams { m_cost: 65_536, t_cost: 3, p_cost: 1 }
    }

    /// Read-path memory ceiling in KiB (1 GiB).
    pub const MAX_M_COST: u32 = 1_048_576;

    /// Read-path iteration ceiling.
    pub const MAX_T_COST: u32 = 16;

    /// Read-path parallelism ceiling.
    pub const MAX_P_COST: u32 = 16;

    /// Argon2's hard minimums: at least one lane and one pass, and at least eight
    /// KiB of memory per lane.
    pub open spec fn meets_minimums(self) -> bool {
        &&& self.p_cost >= 1
        &&& self.t_cost >= 1
        &&& self.m_cost >= 8 * self.p_cost
    }

    /// The read-path ceiling: no field above its maximum.
    pub open spec fn within_read_ceiling(self) -> bool {
        &&& self.m_cost <= 1_048_576
        &&& self.t_cost <= 16
        &&& self.p_cost <= 16
    }

    /// Build a parameter set from raw values.
    pub fn new(m_cost: u32, t_cost: u32, p_cost: u32) -> (r: Self)
        ensures
            r == (KdfParams { m_cost, t_cost, p_cost }),
    {
        KdfParams { m_cost, t_cost, p_cost }
    }

    /// Check the values against Argon2's hard minimums.
    ///
    /// Deliberately loose: it rejects only what the algorithm itself cannot run,
    /// so a file written with weak-but-valid parameters still opens.
    pub fn validate(&self) -> (r: Result<()>)
        ensures
            r is Ok <==> self.meets_minimums(),
            r matches Err(e) ==> e is InvalidParams,
    {
        let ok = self.p_cost >= 1 && self.t_cost >= 1 && self.m_cost as u64 >= 8 * (self.p_cost as u64);
        if ok {
            Ok(())
        } else {
            Err(Error::InvalidParams)
        }
    }

    /// Reject parameters that exceed the read-path ceiling.
    ///
    /// Runs on open before any key derivation, so a hostile file cannot force a
    /// huge allocation or an unbounded hang.
    pub fn check_read_ceiling(&self) -> (r: Result<()>)
        ensures
            r is Ok <==> self.within_read_ceiling(),
            r matches Err(e) ==> e is ParamsOutOfRange,
    {
        let ok = self.m_cost <= Self::MAX_M_COST && self.t_cost <= Self::MAX_T_COST && self.p_cost
            <= Self::MAX_P_COST;
        if ok {
            Ok(())
        } else {
            Err(Error::ParamsOutOfRange)
        }
    }
}

impl Default for KdfParams {
    /// The recommended parameters.
    fn default() -> (r: Self)
        ensures
            r == (KdfParams { m_cost: 65_536, t_cost: 3, p_cost: 1 }),
    {
        Self::recommended()
    }
}

// --- header -------------------------------------------------------------------

/// Parsed file header.
#[derive(Clone, Debug)]
pub struct Header {
    /// On-disk format version.
    pub version: u16,
    /// KDF identifier.
    pub kdf_id: u8,
    /// AEAD identifier.
    pub aead_id: u8,
    /// Argon2id parameters used for this file.
    pub params: KdfParams,
    /// Header flags.
    pub flags: u8,
    /// Argon2 salt.
    pub salt: Vec<u8>,
    /// AEAD nonce.
    pub nonce: Vec<u8>,
    /// Length of the ciphertext plus tag that follows the header.
    pub ct_len: u64,
}

/// The mathematical content of a [`Header`].
pub struct HeaderModel {
    pub version: u16,
    pub kdf_id: u8,
    pub aead_id: u8,
    pub params: KdfParams,
    pub flags: u8,
    pub salt: Seq<u8>,
    pub nonce: Seq<u8>,
    pub ct_len: u64,
}

impl View for Header {
    type V = HeaderModel;

    open spec fn view(&self) -> HeaderModel {
        HeaderModel {
            version: self.version,
            kdf_id: self.kdf_id,
            aead_id: self.aead_id,
            params: self.params,
            flags: self.flags,
            salt: self.salt@,
            nonce: self.nonce@,
            ct_len: self.ct_len,
        }
    }
}

/// The exact bytes of a header on disk. Length fields are the salt and nonce
/// lengths truncated to their field widths.
pub open spec fn header_bytes(h: HeaderModel) -> Seq<u8> {
    magic_seq() + be_u16(h.version) + seq![h.kdf_id, h.aead_id] + be_u32(h.params.m_cost)
        + be_u32(h.params.t_cost) + be_u32(h.params.p_cost) + seq![h.flags] + be_u16(
        h.salt.len() as u16,
    ) + h.salt + seq![h.nonce.len() as u8] + h.nonce + be_u64(h.ct_len)
}

/// Whether the keyfile bit is set in `flags`.
pub open spec fn keyfile_flag(flags: u8) -> bool {
    flags & 1 != 0
}

/// The header a well-formed file starts with, or the error the reader reports.
///
/// Fields are read in order; the first one that is missing or unsupported decides
/// the error. Every truncation, an over-long salt length and a nonce length other
/// than [`NONCE_LEN`] are all [`Error::MalformedHeader`].
pub open spec fn parse_result(b: Seq<u8>) -> core::result::Result<(HeaderModel, int), Error> {
    if b.len() < 8 {
        Err(Error::MalformedHeader)
    } else if b.subrange(0, 8) != magic_seq() {
        Err(Error::BadMagic)
    } else if b.len() < 10 {
        Err(Error::MalformedHeader)
    } else if read_be_u16(b.subrange(8, 10)) != 1 {
        Err(Error::UnsupportedVersion(read_be_u16(b.subrange(8, 10))))
    } else if b.len() < 11 {
        Err(Error::MalformedHeader)
    } else if b[10] != 1 {
        Err(Error::UnsupportedKdf(b[10]))
    } else if b.len() < 12 {
        Err(Error::MalformedHeader)
    } else if b[11] != 1 {
        Err(Error::UnsupportedAead(b[11]))
    } else if b.len() < 27 {
        Err(Error::MalformedHeader)
    } else {
        let sl = read_be_u16(b.subrange(25, 27)) as int;
        if b.len() < 28 + sl || b[27 + sl] != 24 || b.len() < 60 + sl {
            Err(Error::MalformedHeader)
        } else {
            Ok(
                (
                    HeaderModel {
                        version: 1,
                        kdf_id: 1,
                        aead_id: 1,
                        params: KdfParams {
                            m_cost: read_be_u32(b.subrange(12, 16)),
                            t_cost: read_be_u32(b.subrange(16, 20)),
                            p_cost: read_be_u32(b.subrange(20, 24)),
                        },
                        flags: b[24],
                        salt: b.subrange(27, 27 + sl),
                        nonce: b.subrange(28 + sl, 52 + sl),
                        ct_len: read_be_u64(b.subrange(52 + sl, 60 + sl)),
                    },
                    60 + sl,
                ),
            )
        }
    }
}

/// A header that the reader accepts: the supported format, KDF and AEAD, a salt
/// whose length fits its field, and a nonce of [`NONCE_LEN`] bytes.
pub open spec fn header_is_supported(h: HeaderModel) -> bool {
    &&& h.version == 1
    &&& h.kdf_id == 1
    &&& h.aead_id == 1
    &&& h.salt.len() <= u16::MAX
    &&& h.nonce.len() == 24
}

impl Header {
    /// Whether the keyfile flag is set.
    pub fn requires_keyfile(&self) -> (r: bool)
        ensures
            r == keyfile_flag(self.flags),
    {
        self.flags & FLAG_KEYFILE != 0
    }

    /// Serialize the header to its on-disk byte form. This is also the exact byte
    /// range used as AEAD associated data.
    pub fn to_bytes(&self) -> (out: Vec<u8>)
        ensures
            out@ == header_bytes(self@),
    {
        let mut out: Vec<u8> = Vec::new();
        let mut i: usize = 0;
        while i < 8
            invariant
                i <= 8,
                out@ == magic_seq().subrange(0, i as int),
            decreases 8 - i,
        {
            out.push(MAGIC[i]);
            i = i + 1;
            assert(out@ =~= magic_seq().subrange(0, i as int));
        }
        assert(magic_seq().subrange(0, 8) =~= magic_seq());
        push_be_u16(&mut out, self.version);
        out.push(self.kdf_id);
        out.push(self.aead_id);
        push_be_u32(&mut out, self.params.m_cost);
        push_be_u32(&mut out, self.params.t_cost);
        push_be_u32(&mut out, self.params.p_cost);
        out.push(self.flags);
        // The length fields carry the lengths truncated to their widths; the write
        // path only ever builds headers whose salt and nonce fit.
        #[verifier::truncate]
        let salt_len = self.salt.len() as u16;
        push_be_u16(&mut out, salt_len);
        extend_from_slice(&mut out, self.salt.as_slice());
        #[verifier::truncate]
        let nonce_len = self.nonce.len() as u8;
        out.push(nonce_len);
        extend_from_slice(&mut out, self.nonce.as_slice());
        push_be_u64(&mut out, self.ct_len);
        assert(out@ =~= header_bytes(self@));
        out
    }

    /// Parse a header from the start of `input`.
    ///
    /// Returns the header and the number of bytes it occupied, so the caller can
    /// slice the associated data and the ciphertext.
    pub fn parse(input: &[u8]) -> (r: Result<(Header, usize)>)
        ensures
            match (r, parse_result(input@)) {
                (Ok((h, n)), Ok((m, k))) => h@ == m && n == k,
                (Err(e), Err(f)) => e == f,
                _ => false,
            },
    {
        let mut cur = Cursor { buf: input, pos: 0 };
        let magic = cur.take(8)?;
        if !bytes_eq(magic, &MAGIC) {
            assert(MAGIC@ == magic_seq()) by {
                assert(MAGIC@ =~= magic_seq());
            }
            return Err(Error::BadMagic);
        }
        assert(MAGIC@ =~= magic_seq());
        let version = cur.u16()?;
        if version != FORMAT_VERSION {
            return Err(Error::UnsupportedVersion(version));
        }
        let kdf_id = cur.u8()?;
        if kdf_id != KDF_ARGON2ID {
            return Err(Error::UnsupportedKdf(kdf_id));
        }
        let aead_id = cur.u8()?;
        if aead_id != AEAD_XCHACHA20POLY1305 {
            return Err(Error::UnsupportedAead(aead_id));
        }
        let m_cost = cur.u32()?;
        let t_cost = cur.u32()?;
        let p_cost = cur.u32()?;
        let flags = cur.u8()?;
        let salt_len = cur.u16()?;
        let salt_slice = cur.take(salt_len as usize)?;
        let salt = slice_to_vec(salt_slice);
        let nonce_len = cur.u8()?;
        if nonce_len as usize != NONCE_LEN {
            return Err(Error::MalformedHeader);
        }
        let nonce_slice = cur.take(NONCE_LEN)?;
        let nonce = slice_to_vec(nonce_slice);
        let ct_len = cur.u64()?;
        let params = KdfParams::new(m_cost, t_cost, p_cost);
        let header = Header { version, kdf_id, aead_id, params, flags, salt, nonce, ct_len };
        Ok((header, cur.pos))
    }
}

/// Byte-wise equality of two slices.
fn bytes_eq(a: &[u8], b: &[u8]) -> (r: bool)
    ensures
        r == (a@ == b@),
{
    if a.len() != b.len() {
        return false;
    }
    let mut i: usize = 0;
    while i < a.len()
        invariant
            a@.len() == b@.len(),
            i <= a@.len(),
            forall|j: int| 0 <= j < i ==> a@[j] == b@[j],
        decreases a@.len() - i,
    {
        if a[i] != b[i] {
            return false;
        }
        i = i + 1;
    }
    assert(a@ =~= b@);
    true
}

/// Tiny bounds-checked reader over a byte slice.
struct Cursor<'a> {
    buf: &'a [u8],
    pos: usize,
}

impl<'a> Cursor<'a> {
    /// Take the next `n` bytes, or fail without moving if fewer remain.
    fn take(&mut self, n: usize) -> (r: Result<&'a [u8]>)
        requires
            old(self).pos <= old(self).buf@.len(),
        ensures
            final(self).buf == old(self).buf,
            final(self).pos <= final(self).buf@.len(),
            match r {
                Ok(s) => {
                    &&& old(self).pos + n <= old(self).buf@.len()
                    &&& s@ == old(self).buf@.subrange(old(self).pos as int, old(self).pos + n)
                    &&& final(self).pos == old(self).pos + n
                },
                Err(e) => {
                    &&& old(self).pos + n > old(self).buf@.len()
                    &&& e is MalformedHeader
                },
            },
    {
        let len = self.buf.len();
        let end = match self.pos.checked_add(n) {
            Some(e) => e,
            None => return Err(Error::MalformedHeader),
        };
        if end > len {
            return Err(Error::MalformedHeader);
        }
        let slice = slice_subrange(self.buf, self.pos, end);
        self.pos = end;
        Ok(slice)
    }

    fn u8(&mut self) -> (r: Result<u8>)
        requires
            old(self).pos <= old(self).buf@.len(),
        ensures
            final(self).buf == old(self).buf,
            final(self).pos <= final(self).buf@.len(),
            match r {
                Ok(v) => {
                    &&& old(self).pos + 1 <= old(self).buf@.len()
                    &&& v == old(self).buf@[old(self).pos as int]
                    &&& final(self).pos == old(self).pos + 1
                },
                Err(e) => old(self).pos + 1 > old(self).buf@.len() && e is MalformedHeader,
            },
    {
        let b = self.take(1)?;
        Ok(b[0])
    }

    fn u16(&mut self) -> (r: Result<u16>)
        requires
            old(self).pos <= old(self).buf@.len(),
        ensures
            final(self).buf == old(self).buf,
            final(self).pos <= final(self).buf@.len(),
            match r {
                Ok(v) => {
                    &&& old(self).pos + 2 <= old(self).buf@.len()
                    &&& v == read_be_u16(
                        old(self).buf@.subrange(old(self).pos as int, old(self).pos + 2),
                    )
                    &&& final(self).pos == old(self).pos + 2
                },
                Err(e) => old(self).pos + 2 > old(self).buf@.len() && e is MalformedHeader,
            },
    {
        let b = self.take(2)?;
        Ok(((b[0] as u16) << 8u16) | (b[1] as u16))
    }

    fn u32(&mut self) -> (r: Result<u32>)
        requires
            old(self).pos <= old(self).buf@.len(),
        ensures
            final(self).buf == old(self).buf,
            final(self).pos <= final(self).buf@.len(),
            match r {
                Ok(v) => {
                    &&& old(self).pos + 4 <= old(self).buf@.len()
                    &&& v == read_be_u32(
                        old(self).buf@.subrange(old(self).pos as int, old(self).pos + 4),
                    )
                    &&& final(self).pos == old(self).pos + 4
                },
                Err(e) => old(self).pos + 4 > old(self).buf@.len() && e is MalformedHeader,
            },
    {
        let b = self.take(4)?;
        Ok(((b[0] as u32) << 24u32) | ((b[1] as u32) << 16u32) | ((b[2] as u32) << 8u32) | (
        b[3] as u32))
    }

    fn u64(&mut self) -> (r: Result<u64>)
        requires
            old(self).pos <= old(self).buf@.len(),
        ensures
            final(self).buf == old(self).buf,
            final(self).pos <= final(self).buf@.len(),
            match r {
                Ok(v) => {
                    &&& old(self).pos + 8 <= old(self).buf@.len()
                    &&& v == read_be_u64(
                        old(self).buf@.subrange(old(self).pos as int, old(self).pos + 8),
                    )
                    &&& final(self).pos == old(self).pos + 8
                },
                Err(e) => old(self).pos + 8 > old(self).buf@.len() && e is MalformedHeader,
            },
    {
        let b = self.take(8)?;
        Ok(((b[0] as u64) << 56u64) | ((b[1] as u64) << 48u64) | ((b[2] as u64) << 40u64) | ((
        b[3] as u64) << 32u64) | ((b[4] as u64) << 24u64) | ((b[5] as u64) << 16u64) | ((
        b[6] as u64) << 8u64) | (b[7] as u64))
    }
}

// --- laws ---------------------------------------------------------------------

/// Writing a supported header and reading it back gives the same header, and the
/// reader consumes exactly the header's bytes, whatever follows them.
pub proof fn lemma_header_round_trip(h: HeaderModel, rest: Seq<u8>)
    requires
        header_is_supported(h),
    ensures
        parse_result(header_bytes(h) + rest) matches Ok((m, n)) && m == h && n
            == header_bytes(h).len(),
{
    let b = header_bytes(h) + rest;
    let sl = h.salt.len() as int;
    lemma_be_u16(h.version);
    lemma_be_u16(sl as u16);
    lemma_be_u32(h.params.m_cost);
    lemma_be_u32(h.params.t_cost);
    lemma_be_u32(h.params.p_cost);
    lemma_be_u64(h.ct_len);
    assert(b.subrange(0, 8) =~= magic_seq());
    assert(b.subrange(8, 10) =~= be_u16(h.version));
    assert(b.subrange(12, 16) =~= be_u32(h.params.m_cost));
    assert(b.subrange(16, 20) =~= be_u32(h.params.t_cost));
    assert(b.subrange(20, 24) =~= be_u32(h.params.p_cost));
    assert(b.subrange(25, 27) =~= be_u16(sl as u16));
    assert(b.subrange(27, 27 + sl) =~= h.salt);
    assert(b[27 + sl] == 24);
    assert(b.subrange(28 + sl, 52 + sl) =~= h.nonce);
    assert(b.subrange(52 + sl, 60 + sl) =~= be_u64(h.ct_len));
    assert(header_bytes(h).len() == 60 + sl);
}

/// Whatever the reader accepts is written back byte for byte: the accepted header
/// is supported and its encoding is exactly the prefix that was consumed.
pub proof fn lemma_parse_is_canonical(b: Seq<u8>)
    ensures
        parse_result(b) matches Ok((m, n)) ==> header_is_supported(m) && n <= b.len()
            && header_bytes(m) == b.subrange(0, n),
{
    if let Ok((m, n)) = parse_result(b) {
        let sl = read_be_u16(b.subrange(25, 27)) as int;
        lemma_read_be_u16(b.subrange(8, 10));
        lemma_read_be_u16(b.subrange(25, 27));
        lemma_read_be_u32(b.subrange(12, 16));
        lemma_read_be_u32(b.subrange(16, 20));
        lemma_read_be_u32(b.subrange(20, 24));
        lemma_read_be_u64(b.subrange(52 + sl, 60 + sl));
        assert(header_bytes(m) =~= b.subrange(0, n));
    }
}

} // verus!
