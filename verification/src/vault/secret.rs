//! In-memory secret buffer.
//!
//! Plaintext lives in a `zeroize::Zeroizing` buffer that is wiped on drop, and
//! its pages are locked with `mlock` (through the `region` crate) so they are not
//! swapped to disk. Locking is best effort: where the operating system refuses it
//! the buffer stays usable, only unlocked. `mlock` works on whole pages, so two
//! small secrets that share a page share a lock.
use vstd::prelude::*;

use crate::text::{push_decimal, push_str_chars, string_from_chars};

verus! {

/// A `zeroize::Zeroizing<Vec<u8>>`, a byte buffer that is wiped when dropped. Verus
/// refuses a declaration of the generic `Zeroizing` (its bound is an outside
/// trait), so the buffer is held in this opaque field instead.
#[verifier::external_body]
pub struct ZeroizingBytes {
    inner: zeroize::Zeroizing<Vec<u8>>,
}

/// `region::LockGuard`, which unlocks its pages when dropped.
#[verifier::external_type_specification]
#[verifier::external_body]
pub struct ExLockGuard(region::LockGuard);

/// The bytes a zeroizing buffer holds.
pub uninterp spec fn zeroizing_contents(z: ZeroizingBytes) -> Seq<u8>;

/// `Zeroizing::new(v)`: takes the vector over without copying it.
#[verifier::external_body]
fn zeroizing_new(v: Vec<u8>) -> (z: ZeroizingBytes)
    ensures
        zeroizing_contents(z) == v@,
{
    ZeroizingBytes { inner: zeroize::Zeroizing::new(v) }
}

/// Borrow the bytes of a zeroizing buffer (through its `Deref` to `Vec<u8>`).
#[verifier::external_body]
fn zeroizing_slice(z: &ZeroizingBytes) -> (s: &[u8])
    ensures
        s@ == zeroizing_contents(*z),
{
    z.inner.as_slice()
}

/// `region::lock` over the pages backing `buf`. Whether the operating system grants
/// the lock is not stated.
#[verifier::external_body]
fn lock_pages(buf: &[u8]) -> (r: Option<region::LockGuard>)
    requires
        buf@.len() > 0,
{
    region::lock(buf.as_ptr(), buf.len()).ok()
}

/// Owned plaintext bytes, zeroized on drop and mlock-ed when possible.
pub struct SecretBytes {
    // Declared before the lock so the bytes are wiped while the pages are still
    // locked: fields drop in declaration order.
    bytes: ZeroizingBytes,
    lock: Option<region::LockGuard>,
}

impl View for SecretBytes {
    type V = Seq<u8>;

    closed spec fn view(&self) -> Seq<u8> {
        zeroizing_contents(self.bytes)
    }
}

impl SecretBytes {
    /// Whether the pages are locked.
    pub closed spec fn locked(&self) -> bool {
        self.lock is Some
    }

    /// Copy `data` into a new locked, zeroizing buffer.
    pub fn new(data: &[u8]) -> (r: Self)
        ensures
            r@ == data@,
            data@.len() == 0 ==> !r.locked(),
    {
        Self::from_vec(vstd::slice::slice_to_vec(data))
    }

    /// Take ownership of `v` without copying, then lock and guard it.
    pub fn from_vec(v: Vec<u8>) -> (r: Self)
        ensures
            r@ == v@,
            v@.len() == 0 ==> !r.locked(),
    {
        let bytes = zeroizing_new(v);
        let lock = try_lock(zeroizing_slice(&bytes));
        Self { bytes, lock }
    }

    /// Borrow the plaintext.
    pub fn as_slice(&self) -> (r: &[u8])
        ensures
            r@ == self@,
    {
        zeroizing_slice(&self.bytes)
    }

    /// Length in bytes.
    pub fn len(&self) -> (r: usize)
        ensures
            r == self@.len(),
    {
        self.as_slice().len()
    }

    /// Whether the buffer is empty.
    pub fn is_empty(&self) -> (r: bool)
        ensures
            r == (self@.len() == 0),
    {
        self.len() == 0
    }

    /// Whether the pages are currently mlock-ed.
    pub fn is_locked(&self) -> (r: bool)
        ensures
            r == self.locked(),
    {
        self.lock.is_some()
    }

    /// A fresh, independently locked copy of the same bytes.
    pub fn duplicate(&self) -> (r: Self)
        ensures
            r@ == self@,
    {
        Self::new(self.as_slice())
    }

    /// A description that shows the length and lock state and never the bytes:
    /// `SecretBytes { len: N, locked: B }`.
    pub fn debug_string(&self) -> (r: String)
        ensures
            r@ == secret_debug_chars(self@.len(), self.locked()),
    {
        let mut out: Vec<char> = Vec::new();
        push_str_chars(&mut out, "SecretBytes { len: ");
        push_decimal(&mut out, self.len() as u64);
        push_str_chars(&mut out, ", locked: ");
        if self.is_locked() {
            push_str_chars(&mut out, "true");
        } else {
            push_str_chars(&mut out, "false");
        }
        push_str_chars(&mut out, " }");
        string_from_chars(&out)
    }
}

/// The characters of [`SecretBytes::debug_string`].
pub open spec fn secret_debug_chars(len: nat, locked: bool) -> Seq<char> {
    "SecretBytes { len: "@ + crate::text::decimal(len) + ", locked: "@ + (if locked {
        "true"@
    } else {
        "false"@
    }) + " }"@
}

/// Try to lock the pages backing `buf`. An empty buffer is never locked.
fn try_lock(buf: &[u8]) -> (r: Option<region::LockGuard>)
    ensures
        buf@.len() == 0 ==> r is None,
{
    if buf.len() == 0 {
        return None;
    }
    lock_pages(buf)
}

} // verus!
