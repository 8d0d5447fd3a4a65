//! Stable, opaque identifiers for wallet objects.
//!
//! Every long-lived object (group, seed, imported key, account) is addressed by its
//! own newtype id rather than by index or by a mutable natural key. The ids survive
//! reorganisation, and a seed's or key's id doubles as the routing key to its vault
//! entry. The inner value is an opaque string: new ids are a short type tag, a dash
//! and 32 random lowercase hexadecimal digits, but callers treat the value as an
//! opaque token and compare it only for equality.
use vstd::prelude::*;

use crate::text::{hex_chars, push_hex, push_str_chars, string_from_chars};
use crate::vault::crypto::fill_random;

verus! {

/// The characters of a freshly minted id: `tag`, a dash, and the hexadecimal
/// rendering of 16 random bytes.
pub open spec fn minted(tag: Seq<char>, random: Seq<u8>) -> Seq<char> {
    tag + "-"@ + hex_chars(random)
}

/// Mint the characters of a fresh id with the given tag.
fn mint(tag: &str) -> (r: String)
    ensures
        exists|random: Seq<u8>| random.len() == 16 && r@ == minted(tag@, random),
{
    let mut random: Vec<u8> = Vec::new();
    let mut i: usize = 0;
    while i < 16
        invariant
            i <= 16,
            random@.len() == i,
        decreases 16 - i,
    {
        random.push(0);
        i = i + 1;
    }
    // Should the system source fail, the buffer keeps the zeros it was given; the
    // wallet makes every id it files unique by checking for collisions itself.
    let _ = fill_random(&mut random);
    mint_with(tag, random.as_slice())
}

/// The characters of an id with the given tag and random bytes.
fn mint_with(tag: &str, random: &[u8]) -> (r: String)
    ensures
        r@ == minted(tag@, random@),
{
    let mut out: Vec<char> = Vec::new();
    push_str_chars(&mut out, tag);
    push_str_chars(&mut out, "-");
    push_hex(&mut out, random);
    let s = string_from_chars(&out);
    assert(s@ =~= minted(tag@, random@));
    s
}

/// Identifies a node in the group tree, including the root.
#[derive(Clone, Debug, PartialEq, Eq, PartialOrd, Ord, Hash)]
pub struct GroupId(String);

/// Identifies a seed source and, by extension, the vault entry holding its
/// mnemonic.
#[derive(Clone, Debug, PartialEq, Eq, PartialOrd, Ord, Hash)]
pub struct SeedId(String);

/// Identifies an imported key and, by extension, the vault entry holding its
/// private key.
#[derive(Clone, Debug, PartialEq, Eq, PartialOrd, Ord, Hash)]
pub struct KeyId(String);

/// Identifies an account.
#[derive(Clone, Debug, PartialEq, Eq, PartialOrd, Ord, Hash)]
pub struct AccountId(String);

impl View for GroupId {
    type V = Seq<char>;

    closed spec fn view(&self) -> Seq<char> {
        self.0@
    }
}

impl View for SeedId {
    type V = Seq<char>;

    closed spec fn view(&self) -> Seq<char> {
        self.0@
    }
}

impl View for KeyId {
    type V = Seq<char>;

    closed spec fn view(&self) -> Seq<char> {
        self.0@
    }
}

impl View for AccountId {
    type V = Seq<char>;

    closed spec fn view(&self) -> Seq<char> {
        self.0@
    }
}

impl GroupId {
    /// Wrap an already-generated token, for reloading an id persisted earlier.
    pub fn from_raw(value: &str) -> (r: Self)
        ensures
            r@ == value@,
    {
        GroupId(value.to_owned())
    }

    /// Mint a fresh id: the tag `grp`, a dash and 32 random hexadecimal digits.
    pub fn generate() -> (r: Self)
        ensures
            exists|random: Seq<u8>| random.len() == 16 && r@ == minted("grp"@, random),
    {
        GroupId(mint("grp"))
    }

    /// Borrow the opaque token.
    pub fn as_str(&self) -> (r: &str)
        ensures
            r@ == self@,
    {
        self.0.as_str()
    }

    /// A copy of the id.
    pub fn duplicate(&self) -> (r: Self)
        ensures
            r@ == self@,
    {
        GroupId(self.0.clone())
    }

    /// The short type tag new ids of this kind start with.
    pub fn prefix() -> (r: &'static str)
        ensures
            r@ == "grp"@,
    {
        "grp"
    }
}

impl SeedId {
    /// Wrap an already-generated token, for reloading an id persisted earlier.
    pub fn from_raw(value: &str) -> (r: Self)
        ensures
            r@ == value@,
    {
        SeedId(value.to_owned())
    }

    /// Mint a fresh id: the tag `seed`, a dash and 32 random hexadecimal digits.
    pub fn generate() -> (r: Self)
        ensures
            exists|random: Seq<u8>| random.len() == 16 && r@ == minted("seed"@, random),
    {
        SeedId(mint("seed"))
    }

    /// Borrow the opaque token.
    pub fn as_str(&self) -> (r: &str)
        ensures
            r@ == self@,
    {
        self.0.as_str()
    }

    /// A copy of the id.
    pub fn duplicate(&self) -> (r: Self)
        ensures
            r@ == self@,
    {
        SeedId(self.0.clone())
    }

    /// The short type tag new ids of this kind start with.
    pub fn prefix() -> (r: &'static str)
        ensures
            r@ == "seed"@,
    {
        "seed"
    }
}

impl KeyId {
    /// Wrap an already-generated token, for reloading an id persisted earlier.
    pub fn from_raw(value: &str) -> (r: Self)
        ensures
            r@ == value@,
    {
        KeyId(value.to_owned())
    }

    /// Mint a fresh id: the tag `key`, a dash and 32 random hexadecimal digits.
    pub fn generate() -> (r: Self)
        ensures
            exists|random: Seq<u8>| random.len() == 16 && r@ == minted("key"@, random),
    {
        KeyId(mint("key"))
    }

    /// Borrow the opaque token.
    pub fn as_str(&self) -> (r: &str)
        ensures
            r@ == self@,
    {
        self.0.as_str()
    }

    /// A copy of the id.
    pub fn duplicate(&self) -> (r: Self)
        ensures
            r@ == self@,
    {
        KeyId(self.0.clone())
    }

    /// The short type tag new ids of this kind start with.
    pub fn prefix() -> (r: &'static str)
        ensures
            r@ == "key"@,
    {
        "key"
    }
}

impl AccountId {
    /// Wrap an already-generated token, for reloading an id persisted earlier.
    pub fn from_raw(value: &str) -> (r: Self)
        ensures
            r@ == value@,
    {
        AccountId(value.to_owned())
    }

    /// Mint a fresh id: the tag `acct`, a dash and 32 random hexadecimal digits.
    pub fn generate() -> (r: Self)
        ensures
            exists|random: Seq<u8>| random.len() == 16 && r@ == minted("acct"@, random),
    {
        AccountId(mint("acct"))
    }

    /// Borrow the opaque token.
    pub fn as_str(&self) -> (r: &str)
        ensures
            r@ == self@,
    {
        self.0.as_str()
    }

    /// A copy of the id.
    pub fn duplicate(&self) -> (r: Self)
        ensures
            r@ == self@,
    {
        AccountId(self.0.clone())
    }

    /// The short type tag new ids of this kind start with.
    pub fn prefix() -> (r: &'static str)
        ensures
            r@ == "acct"@,
    {
        "acct"
    }
}

} // verus!
