//! The vault type, its entries, and their metadata.
//!
//! A [`Vault`] holds its entries in memory once unlocked: each entry is an id
//! mapped to a secret byte blob plus [`Meta`]. While unlocked the vault keeps the
//! password (in a locked, zeroizing [`SecretBytes`]) and the keyfile digest, so it
//! can re-derive the key on save without prompting again.
//!
//! What the vault computes is here: the entry map, sealing an encoded entry map
//! into file bytes under a fresh salt and nonce, and unsealing file bytes back into
//! the encoded entry map. Encoding the map as CBOR and moving bytes to and from
//! disk are done around it, by the application.
use vstd::prelude::*;

use crate::keyed::{distinct_keys, lemma_push_to_set, has_key, lemma_pairs_map_at, lemma_pairs_map_dom,
    lemma_pairs_map_push, lemma_pairs_map_remove, lemma_pairs_map_update, pairs_map};
use crate::text::{
    decimal, insert_sorted, push_decimal, push_str_chars, str_eq, string_from_chars,
    strictly_sorted,
};
use crate::vault::crypto::{
    aead_accepts_len, argon2_accepts_costs, argon2_accepts_inputs, argon2id_32, blake2b_256,
    derive_key, derive_key_result, fill_random, keyfile_secret, open, open_result, opt_bytes,
    seal, xchacha20poly1305_seal, TAG_LEN,
};
use crate::vault::error::{Error, Result};
use crate::vault::format::{
    header_bytes, keyfile_flag, parse_result, Header, HeaderModel, KdfParams,
    AEAD_XCHACHA20POLY1305, FLAG_KEYFILE, FORMAT_VERSION, KDF_ARGON2ID, NONCE_LEN, SALT_LEN,
};
use crate::vault::secret::{secret_debug_chars, SecretBytes};

verus! {

/// Schema version of the encrypted entry map, independent of the file format.
pub const PLAINTEXT_VERSION: u16 = 1;

/// The current time in seconds since the Unix epoch, from
/// `SystemTime::now().duration_since(UNIX_EPOCH)`, or 0 when the clock reads
/// earlier than the epoch. Nothing is stated of the value.
#[verifier::external_body]
fn unix_time_now() -> (r: u64) {
    std::time::SystemTime::now().duration_since(std::time::UNIX_EPOCH).map(|d| d.as_secs()).unwrap_or(0)
}

/// Per-entry metadata. Holds no secret material.
#[derive(Clone, Debug, PartialEq, Eq)]
pub struct Meta {
    /// Human name for the entry.
    pub name: String,
    /// Free-form tags.
    pub tags: Vec<String>,
    /// Free-form notes.
    pub notes: String,
    /// Creation time, unix seconds.
    pub created: u64,
    /// Last modification time, unix seconds.
    pub modified: u64,
}

impl Meta {
    /// New metadata with the given name, no tags or notes, and both timestamps set
    /// to the current time (read once from the system clock, as by
    /// [`Meta::new_at`]).
    pub fn new(name: &str) -> (r: Self)
        ensures
            r.name@ == name@,
            r.tags@ == Seq::<String>::empty(),
            r.notes@ == Seq::<char>::empty(),
            r.created == r.modified,
    {
        let now = unix_time_now();
        Meta::new_at(name, now)
    }

    /// New metadata with the given name, no tags or notes, and both timestamps set
    /// to `now`, in unix seconds.
    pub fn new_at(name: &str, now: u64) -> (r: Self)
        ensures
            r.name@ == name@,
            r.tags@ == Seq::<String>::empty(),
            r.notes@ == Seq::<char>::empty(),
            r.created == now,
            r.modified == now,
    {
        Meta { name: name.to_owned(), tags: Vec::new(), notes: String::new(), created: now, modified: now }
    }

    /// Bump the modified timestamp to the current time, read from the system clock
    /// and handed to [`Meta::touch_at`]; nothing else changes.
    pub fn touch(&mut self)
        ensures
            final(self).name == old(self).name,
            final(self).tags == old(self).tags,
            final(self).notes == old(self).notes,
            final(self).created == old(self).created,
    {
        let now = unix_time_now();
        self.touch_at(now);
    }

    /// Set the modified timestamp to `now`, in unix seconds; nothing else changes.
    pub fn touch_at(&mut self, now: u64)
        ensures
            *final(self) == (Meta { modified: now, ..*old(self) }),
    {
        self.modified = now;
    }
}

/// What an entry holds: its secret bytes and its metadata.
pub struct EntryModel {
    pub secret: Seq<u8>,
    pub meta: Meta,
}

/// A single vault entry: secret bytes plus metadata.
pub struct Entry {
    secret: SecretBytes,
    meta: Meta,
}

impl View for Entry {
    type V = EntryModel;

    closed spec fn view(&self) -> EntryModel {
        EntryModel { secret: self.secret@, meta: self.meta }
    }
}

impl Entry {
    /// Build an entry from secret bytes and metadata.
    pub fn new(secret: &[u8], meta: Meta) -> (r: Self)
        ensures
            r@ == (EntryModel { secret: secret@, meta }),
            secret@.len() == 0 ==> !r.secret_locked(),
    {
        Entry { secret: SecretBytes::new(secret), meta }
    }

    /// Whether this entry's secret pages are locked.
    pub closed spec fn secret_locked(&self) -> bool {
        self.secret.locked()
    }

    /// Borrow the secret bytes.
    pub fn secret(&self) -> (r: &[u8])
        ensures
            r@ == self@.secret,
    {
        self.secret.as_slice()
    }

    /// Borrow the metadata.
    pub fn meta(&self) -> (r: &Meta)
        ensures
            *r == self@.meta,
    {
        &self.meta
    }

    /// Mutably borrow the metadata; the secret is left as it is.
    pub fn meta_mut(&mut self) -> (r: &mut Meta)
        ensures
            *r == old(self)@.meta,
            final(self)@ == (EntryModel { secret: old(self)@.secret, meta: *final(r) }),
            final(self).secret_locked() == old(self).secret_locked(),
    {
        &mut self.meta
    }

    /// Whether this entry's secret pages are mlock-ed.
    pub fn is_secret_locked(&self) -> (r: bool)
        ensures
            r == self.secret_locked(),
    {
        self.secret.is_locked()
    }

    /// An independent copy of the entry.
    pub fn duplicate(&self) -> (r: Self)
        ensures
            r@.secret == self@.secret,
    {
        Entry { secret: self.secret.duplicate(), meta: self.meta.clone() }
    }

    /// A description that shows the metadata name and the secret's length and lock
    /// state, never the secret:
    /// `Entry { meta: Meta { name: .. }, secret: SecretBytes { len: N, locked: B } }`.
    pub fn debug_string(&self) -> (r: String)
        ensures
            r@ == "Entry { meta: Meta { name: "@ + self@.meta.name@ + " }, secret: "@
                + secret_debug_chars(self@.secret.len(), self.secret_locked()) + " }"@,
    {
        let mut out: Vec<char> = Vec::new();
        push_str_chars(&mut out, "Entry { meta: Meta { name: ");
        push_str_chars(&mut out, self.meta.name.as_str());
        push_str_chars(&mut out, " }, secret: ");
        let s = self.secret.debug_string();
        push_str_chars(&mut out, s.as_str());
        push_str_chars(&mut out, " }");
        string_from_chars(&out)
    }
}

/// The digest kept for an optional keyfile.
pub open spec fn keyfile_digest(keyfile: Option<Seq<u8>>) -> Option<Seq<u8>> {
    match keyfile {
        Some(k) => Some(blake2b_256(k)),
        None => None,
    }
}

/// The bytes of an optional secret.
pub open spec fn secret_opt_view(o: Option<SecretBytes>) -> Option<Seq<u8>> {
    match o {
        Some(s) => Some(s@),
        None => None,
    }
}

/// The keys and entries of a list of `(id, entry)` pairs, by their views.
pub open spec fn entry_pairs(s: Seq<(String, Entry)>) -> Seq<(Seq<char>, EntryModel)> {
    s.map_values(|p: (String, Entry)| (p.0@, p.1@))
}

/// What an unlocked vault holds.
pub struct VaultModel {
    /// The canonical path the vault reads from and writes to.
    pub path: Seq<char>,
    /// The entries, by id.
    pub entries: Map<Seq<char>, EntryModel>,
    /// The Argon2id parameters for the next save.
    pub params: KdfParams,
    /// The keyfile digest, when the vault is keyfile protected.
    pub keyfile_secret: Option<Seq<u8>>,
    /// The master password.
    pub password: Seq<u8>,
}

/// An unlocked encrypted vault.
pub struct Vault {
    path: String,
    entries: Vec<(String, Entry)>,
    params: KdfParams,
    keyfile_secret: Option<SecretBytes>,
    // The resident master password gets the same mlock + zeroize treatment as the
    // entry secrets it protects.
    password: SecretBytes,
}

impl View for Vault {
    type V = VaultModel;

    closed spec fn view(&self) -> VaultModel {
        VaultModel {
            path: self.path@,
            entries: pairs_map(entry_pairs(self.entries@)),
            params: self.params,
            keyfile_secret: secret_opt_view(self.keyfile_secret),
            password: self.password@,
        }
    }
}

/// What [`Vault::unseal`] recovers from a file: the parameters and keyfile flag it
/// was written with, the keyfile digest when one was supplied, and the decrypted
/// encoded entry map.
pub struct Unsealed {
    /// The stored Argon2id parameters.
    pub params: KdfParams,
    /// Whether the file is keyfile protected.
    pub keyfile_required: bool,
    /// The digest of the supplied keyfile.
    pub keyfile_secret: Option<SecretBytes>,
    /// The decrypted, still encoded, entry map.
    pub plaintext: SecretBytes,
}

/// The header a vault writes for its parameters, flag, salt, nonce and plaintext
/// length.
pub open spec fn save_header(
    params: KdfParams,
    keyfile: bool,
    salt: Seq<u8>,
    nonce: Seq<u8>,
    plaintext_len: nat,
) -> HeaderModel {
    HeaderModel {
        version: 1,
        kdf_id: 1,
        aead_id: 1,
        params,
        flags: if keyfile {
            1
        } else {
            0
        },
        salt,
        nonce,
        ct_len: (plaintext_len + 16) as u64,
    }
}

/// The complete file a vault writes: the header followed by the encrypted entry
/// map, sealed under the key derived from the password, the salt and the keyfile
/// digest, with the header as associated data.
pub open spec fn sealed_file(
    params: KdfParams,
    password: Seq<u8>,
    keyfile_secret: Option<Seq<u8>>,
    salt: Seq<u8>,
    nonce: Seq<u8>,
    plaintext: Seq<u8>,
) -> Seq<u8> {
    let h = save_header(params, keyfile_secret is Some, salt, nonce, plaintext.len());
    let key = argon2id_32(params.m_cost, params.t_cost, params.p_cost, keyfile_secret, password, salt);
    header_bytes(h) + xchacha20poly1305_seal(key, nonce, header_bytes(h), plaintext)
}

/// The first deterministic failure of a save, if any: parameters Argon2 refuses,
/// a password Argon2 refuses, or a plaintext too long to seal.
pub open spec fn save_failure(
    params: KdfParams,
    password: Seq<u8>,
    keyfile_secret: Option<Seq<u8>>,
    plaintext_len: nat,
) -> Option<Error> {
    if !argon2_accepts_costs(params.m_cost, params.t_cost, params.p_cost) {
        Some(Error::InvalidParams)
    } else if !argon2_accepts_inputs(keyfile_secret, password, Seq::new(16, |i: int| 0u8)) {
        Some(Error::Kdf)
    } else if !aead_accepts_len(plaintext_len) {
        Some(Error::Auth)
    } else {
        None
    }
}

/// What unsealing `raw` gives: the header and the decrypted plaintext, or the
/// first failure. The header is read and its parameters checked against the read
/// ceiling before anything else; then the keyfile must be present exactly when the
/// header asks for one, the file must hold the whole ciphertext, the key must
/// derive, and the tag must verify.
pub open spec fn unseal_result(raw: Seq<u8>, password: Seq<u8>, keyfile: Option<Seq<u8>>) -> core::result::Result<
    (HeaderModel, Seq<u8>),
    Error,
> {
    match parse_result(raw) {
        Err(e) => Err(e),
        Ok((h, n)) => {
            if !h.params.within_read_ceiling() {
                Err(Error::ParamsOutOfRange)
            } else if keyfile_flag(h.flags) && keyfile is None {
                Err(Error::KeyfileRequired)
            } else if !keyfile_flag(h.flags) && keyfile is Some {
                Err(Error::UnexpectedKeyfile)
            } else if n + h.ct_len > usize::MAX || raw.len() < n + h.ct_len {
                Err(Error::MalformedHeader)
            } else {
                let secret = match keyfile {
                    Some(k) => Some(blake2b_256(k)),
                    None => None,
                };
                match derive_key_result(h.params, h.salt, password, secret) {
                    Err(e) => Err(e),
                    Ok(key) => match open_result(
                        key,
                        h.nonce,
                        raw.subrange(0, n),
                        raw.subrange(n, n + h.ct_len),
                    ) {
                        Err(e) => Err(e),
                        Ok(p) => Ok((h, p)),
                    },
                }
            }
        },
    }
}

/// Whether a save with these inputs produced a file that the read path takes back:
/// its parameters are within the read ceiling and derive a key, and the file fits
/// the address space.
pub open spec fn reopenable(
    params: KdfParams,
    password: Seq<u8>,
    keyfile_secret: Option<Seq<u8>>,
    salt: Seq<u8>,
    plaintext_len: nat,
) -> bool {
    &&& params.within_read_ceiling()
    &&& derive_key_result(params, salt, password, keyfile_secret) is Ok
    &&& aead_accepts_len(plaintext_len)
    &&& salt.len() == 16
    &&& 60 + 16 + plaintext_len + 16 <= usize::MAX
}

fn find_entry(entries: &Vec<(String, Entry)>, id: &str) -> (r: Option<usize>)
    ensures
        match r {
            Some(i) => i < entries@.len() && entries@[i as int].0@ == id@,
            None => !has_key(entry_pairs(entries@), id@),
        },
{
    let mut i: usize = 0;
    while i < entries.len()
        invariant
            i <= entries@.len(),
            forall|j: int| 0 <= j < i ==> entries@[j].0@ != id@,
        decreases entries@.len() - i,
    {
        if str_eq(entries[i].0.as_str(), id) {
            return Some(i);
        }
        i = i + 1;
    }
    proof {
        if has_key(entry_pairs(entries@), id@) {
            let j = choose|j: int|
                0 <= j < entry_pairs(entries@).len() && #[trigger] entry_pairs(entries@)[j].0 == id@;
            assert(entries@[j].0@ == id@);
        }
    }
    None
}

impl Vault {
    /// The entries are keyed by distinct ids and the parameters meet Argon2's
    /// minimums.
    #[verifier::type_invariant]
    closed spec fn inv(self) -> bool {
        &&& distinct_keys(entry_pairs(self.entries@))
        &&& self.params.meets_minimums()
    }

    /// Create a new, empty vault for `path`, the state that is then saved for the
    /// first time. Pass `keyfile` bytes to require that same keyfile on every future
    /// open; its BLAKE2b-256 digest is kept, never the bytes.
    pub fn new(path: &str, password: &[u8], keyfile: Option<&[u8]>, params: KdfParams) -> (r: Result<Self>)
        ensures
            r is Ok <==> params.meets_minimums(),
            r matches Err(e) ==> e is InvalidParams,
            r matches Ok(v) ==> v@ == (VaultModel {
                path: path@,
                entries: Map::empty(),
                params,
                keyfile_secret: keyfile_digest(opt_bytes(keyfile)),
                password: password@,
            }),
    {
        params.validate()?;
        let keyfile_secret = match keyfile {
            Some(k) => Some(keyfile_secret(k)),
            None => None,
        };
        let v = Vault {
            path: path.to_owned(),
            entries: Vec::new(),
            params,
            keyfile_secret,
            password: SecretBytes::new(password),
        };
        assert(pairs_map(entry_pairs(v.entries@)) =~= Map::empty());
        Ok(v)
    }


    fn put_owned(&mut self, id: String, secret: Vec<u8>, meta: Meta)
        ensures
            final(self)@.path == old(self)@.path,
            final(self)@.params == old(self)@.params,
            final(self)@.password == old(self)@.password,
            final(self)@.keyfile_secret == old(self)@.keyfile_secret,
            final(self)@.entries == old(self)@.entries.insert(
                id@,
                EntryModel { secret: secret@, meta },
            ),
    {
        let entry = Entry { secret: SecretBytes::from_vec(secret), meta };
        let _ = self.put_entry_owned(id, entry);
    }

    fn put_entry_owned(&mut self, id: String, entry: Entry) -> (r: Option<Entry>)
        ensures
            final(self)@.path == old(self)@.path,
            final(self)@.params == old(self)@.params,
            final(self)@.password == old(self)@.password,
            final(self)@.keyfile_secret == old(self)@.keyfile_secret,
            final(self)@.entries == old(self)@.entries.insert(id@, entry@),
            match r {
                Some(e) => old(self)@.entries.contains_key(id@) && e@ == old(self)@.entries[id@],
                None => !old(self)@.entries.contains_key(id@),
            },
    {
        proof {
            use_type_invariant(&*self);
        }
        let ghost old_pairs = entry_pairs(self.entries@);
        let mut entries: Vec<(String, Entry)> = Vec::new();
        std::mem::swap(&mut entries, &mut self.entries);
        let r = match find_entry(&entries, id.as_str()) {
            Some(i) => {
                let (k, previous) = entries.remove(i);
                let ghost ev = entry@;
                entries.insert(i, (k, entry));
                proof {
                    assert(entry_pairs(entries@) =~= old_pairs.update(
                        i as int,
                        (old_pairs[i as int].0, ev),
                    ));
                    lemma_pairs_map_at(old_pairs, i as int);
                    lemma_pairs_map_update(old_pairs, i as int, ev);
                }
                Some(previous)
            },
            None => {
                let ghost kv = id@;
                let ghost ev = entry@;
                entries.push((id, entry));
                proof {
                    assert(entry_pairs(entries@) =~= old_pairs.push((kv, ev)));
                    lemma_pairs_map_push(old_pairs, kv, ev);
                }
                None
            },
        };
        self.entries = entries;
        r
    }

    /// Insert or replace an entry, returning the previous one if any.
    pub fn put(&mut self, id: &str, secret: &[u8], meta: Meta) -> (r: Option<Entry>)
        ensures
            final(self)@.path == old(self)@.path,
            final(self)@.params == old(self)@.params,
            final(self)@.password == old(self)@.password,
            final(self)@.keyfile_secret == old(self)@.keyfile_secret,
            final(self)@.entries == old(self)@.entries.insert(
                id@,
                EntryModel { secret: secret@, meta },
            ),
            match r {
                Some(e) => old(self)@.entries.contains_key(id@) && e@ == old(self)@.entries[id@],
                None => !old(self)@.entries.contains_key(id@),
            },
    {
        self.put_entry_owned(id.to_owned(), Entry::new(secret, meta))
    }

    /// Insert or replace a fully built entry, returning the previous one if any.
    pub fn put_entry(&mut self, id: &str, entry: Entry) -> (r: Option<Entry>)
        ensures
            final(self)@.path == old(self)@.path,
            final(self)@.params == old(self)@.params,
            final(self)@.password == old(self)@.password,
            final(self)@.keyfile_secret == old(self)@.keyfile_secret,
            final(self)@.entries == old(self)@.entries.insert(id@, entry@),
            match r {
                Some(e) => old(self)@.entries.contains_key(id@) && e@ == old(self)@.entries[id@],
                None => !old(self)@.entries.contains_key(id@),
            },
    {
        self.put_entry_owned(id.to_owned(), entry)
    }

    /// Borrow an entry by id.
    pub fn get(&self, id: &str) -> (r: Option<&Entry>)
        ensures
            match r {
                Some(e) => self@.entries.contains_key(id@) && e@ == self@.entries[id@],
                None => !self@.entries.contains_key(id@),
            },
    {
        proof {
            use_type_invariant(self);
        }
        match find_entry(&self.entries, id) {
            Some(i) => {
                proof {
                    lemma_pairs_map_at(entry_pairs(self.entries@), i as int);
                }
                Some(&self.entries[i].1)
            },
            None => None,
        }
    }

    /// Remove an entry, returning it if it existed.
    pub fn remove(&mut self, id: &str) -> (r: Option<Entry>)
        ensures
            final(self)@.path == old(self)@.path,
            final(self)@.params == old(self)@.params,
            final(self)@.password == old(self)@.password,
            final(self)@.keyfile_secret == old(self)@.keyfile_secret,
            final(self)@.entries == old(self)@.entries.remove(id@),
            match r {
                Some(e) => old(self)@.entries.contains_key(id@) && e@ == old(self)@.entries[id@],
                None => !old(self)@.entries.contains_key(id@),
            },
    {
        proof {
            use_type_invariant(&*self);
        }
        let ghost old_pairs = entry_pairs(self.entries@);
        let mut entries: Vec<(String, Entry)> = Vec::new();
        std::mem::swap(&mut entries, &mut self.entries);
        let r = match find_entry(&entries, id) {
            Some(i) => {
                let (_, e) = entries.remove(i);
                proof {
                    assert(entry_pairs(entries@) =~= old_pairs.remove(i as int));
                    lemma_pairs_map_at(old_pairs, i as int);
                    lemma_pairs_map_remove(old_pairs, i as int);
                }
                Some(e)
            },
            None => {
                assert(pairs_map(old_pairs).remove(id@) =~= pairs_map(old_pairs));
                None
            },
        };
        self.entries = entries;
        r
    }

    /// Whether an entry exists.
    pub fn contains(&self, id: &str) -> (r: bool)
        ensures
            r == self@.entries.contains_key(id@),
    {
        self.get(id).is_some()
    }

    /// Number of entries.
    pub fn len(&self) -> (r: usize)
        ensures
            r == self@.entries.len(),
    {
        proof {
            use_type_invariant(self);
            lemma_pairs_map_dom(entry_pairs(self.entries@));
        }
        self.entries.len()
    }

    /// Whether the vault has no entries.
    pub fn is_empty(&self) -> (r: bool)
        ensures
            r == (self@.entries.len() == 0),
    {
        self.len() == 0
    }

    /// The entry ids, each once, in sorted (`str`) order.
    pub fn ids(&self) -> (r: Vec<String>)
        ensures
            strictly_sorted(r@.map_values(|s: String| s@)),
            r@.map_values(|s: String| s@).to_set() == self@.entries.dom(),
    {
        proof {
            use_type_invariant(self);
        }
        let ghost pairs = entry_pairs(self.entries@);
        let mut out: Vec<String> = Vec::new();
        let mut i: usize = 0;
        assert(out@.map_values(|s: String| s@).to_set() =~= Set::empty());
        while i < self.entries.len()
            invariant
                i <= self.entries@.len(),
                pairs == entry_pairs(self.entries@),
                distinct_keys(pairs),
                strictly_sorted(out@.map_values(|s: String| s@)),
                out@.map_values(|s: String| s@).to_set() == pairs.subrange(0, i as int).map_values(
                    |p: (Seq<char>, EntryModel)| p.0,
                ).to_set(),
            decreases self.entries@.len() - i,
        {
            let id = self.entries[i].0.clone();
            proof {
                let keys = pairs.subrange(0, i as int).map_values(|p: (Seq<char>, EntryModel)| p.0);
                if keys.contains(id@) {
                    let j = choose|j: int| 0 <= j < keys.len() && keys[j] == id@;
                    assert(pairs[j].0 == pairs[i as int].0);
                }
                assert(!out@.map_values(|s: String| s@).contains(id@)) by {
                    if out@.map_values(|s: String| s@).contains(id@) {
                        assert(out@.map_values(|s: String| s@).to_set().contains(id@));
                    }
                }
            }
            let ghost idv = id@;
            insert_sorted(&mut out, id);
            i = i + 1;
            proof {
                assert(pairs.subrange(0, i as int).map_values(|p: (Seq<char>, EntryModel)| p.0)
                    =~= pairs.subrange(0, i - 1).map_values(|p: (Seq<char>, EntryModel)| p.0).push(
                    idv,
                ));
                lemma_push_to_set(
                    pairs.subrange(0, i - 1).map_values(|p: (Seq<char>, EntryModel)| p.0),
                    idv,
                );
            }
        }
        proof {
            assert(pairs.subrange(0, i as int) =~= pairs);
            lemma_pairs_map_dom(pairs);
        }
        out
    }

    /// Borrow an entry's metadata.
    pub fn meta(&self, id: &str) -> (r: Option<&Meta>)
        ensures
            match r {
                Some(m) => self@.entries.contains_key(id@) && *m == self@.entries[id@].meta,
                None => !self@.entries.contains_key(id@),
            },
    {
        match self.get(id) {
            Some(e) => Some(e.meta()),
            None => None,
        }
    }

    /// Replace an entry's metadata, keeping its secret.
    pub fn set_meta(&mut self, id: &str, meta: Meta) -> (r: Result<()>)
        ensures
            r is Ok <==> old(self)@.entries.contains_key(id@),
            r matches Err(e) ==> e is NotFound,
            final(self)@.path == old(self)@.path,
            final(self)@.params == old(self)@.params,
            final(self)@.password == old(self)@.password,
            final(self)@.keyfile_secret == old(self)@.keyfile_secret,
            final(self)@.entries == if old(self)@.entries.contains_key(id@) {
                old(self)@.entries.insert(
                    id@,
                    EntryModel { secret: old(self)@.entries[id@].secret, meta },
                )
            } else {
                old(self)@.entries
            },
    {
        proof {
            use_type_invariant(&*self);
        }
        let ghost old_pairs = entry_pairs(self.entries@);
        let mut entries: Vec<(String, Entry)> = Vec::new();
        std::mem::swap(&mut entries, &mut self.entries);
        let r = match find_entry(&entries, id) {
            Some(i) => {
                let (k, mut entry) = entries.remove(i);
                *entry.meta_mut() = meta;
                let ghost ev = entry@;
                entries.insert(i, (k, entry));
                proof {
                    assert(entry_pairs(entries@) =~= old_pairs.update(
                        i as int,
                        (old_pairs[i as int].0, ev),
                    ));
                    lemma_pairs_map_at(old_pairs, i as int);
                    lemma_pairs_map_update(old_pairs, i as int, ev);
                }
                Ok(())
            },
            None => Err(Error::NotFound),
        };
        self.entries = entries;
        r
    }

    /// The Argon2id parameters that will be used on the next save.
    pub fn params(&self) -> (r: KdfParams)
        ensures
            r == self@.params,
    {
        self.params
    }

    /// Set the Argon2id parameters for the next save, after checking them against
    /// the minimums. Use this to upgrade an old low-cost vault.
    pub fn set_params(&mut self, params: KdfParams) -> (r: Result<()>)
        ensures
            r is Ok <==> params.meets_minimums(),
            r matches Err(e) ==> e is InvalidParams,
            final(self)@.path == old(self)@.path,
            final(self)@.entries == old(self)@.entries,
            final(self)@.password == old(self)@.password,
            final(self)@.keyfile_secret == old(self)@.keyfile_secret,
            final(self)@.params == if r is Ok {
                params
            } else {
                old(self)@.params
            },
    {
        proof {
            use_type_invariant(&*self);
        }
        params.validate()?;
        self.params = params;
        Ok(())
    }

    /// Whether this vault is keyfile protected.
    pub fn uses_keyfile(&self) -> (r: bool)
        ensures
            r == self@.keyfile_secret is Some,
    {
        self.keyfile_secret.is_some()
    }

    /// Whether `candidate` is this vault's master password.
    pub fn verify_password(&self, candidate: &[u8]) -> (r: bool)
        ensures
            r == (candidate@ == self@.password),
    {
        let pw = self.password.as_slice();
        if pw.len() != candidate.len() {
            return false;
        }
        let mut i: usize = 0;
        while i < pw.len()
            invariant
                i <= pw@.len(),
                pw@ == self@.password,
                pw@.len() == candidate@.len(),
                forall|j: int| 0 <= j < i ==> pw@[j] == candidate@[j],
            decreases pw@.len() - i,
        {
            if pw[i] != candidate[i] {
                assert(pw@[i as int] != candidate@[i as int]);
                return false;
            }
            i = i + 1;
        }
        assert(pw@ =~= candidate@);
        true
    }

    /// The canonical path this vault reads from and writes to.
    pub fn path(&self) -> (r: &str)
        ensures
            r@ == self@.path,
    {
        self.path.as_str()
    }

    /// A description that shows the path, the number of entries, the parameters
    /// and whether a keyfile is used; never the password or the keyfile digest:
    /// `Vault { path: P, entries: N, params: KdfParams { m_cost: M, t_cost: T,
    /// p_cost: L }, keyfile: B }`.
    pub fn debug_string(&self) -> (r: String)
        ensures
            r@ == "Vault { path: "@ + self@.path + ", entries: "@ + decimal(self@.entries.len())
                + ", params: KdfParams { m_cost: "@ + decimal(self@.params.m_cost as nat)
                + ", t_cost: "@ + decimal(self@.params.t_cost as nat) + ", p_cost: "@ + decimal(
                self@.params.p_cost as nat,
            ) + " }, keyfile: "@ + (if self@.keyfile_secret is Some {
                "true"@
            } else {
                "false"@
            }) + " }"@,
    {
        let mut out: Vec<char> = Vec::new();
        push_str_chars(&mut out, "Vault { path: ");
        push_str_chars(&mut out, self.path.as_str());
        push_str_chars(&mut out, ", entries: ");
        push_decimal(&mut out, self.len() as u64);
        push_str_chars(&mut out, ", params: KdfParams { m_cost: ");
        push_decimal(&mut out, self.params.m_cost as u64);
        push_str_chars(&mut out, ", t_cost: ");
        push_decimal(&mut out, self.params.t_cost as u64);
        push_str_chars(&mut out, ", p_cost: ");
        push_decimal(&mut out, self.params.p_cost as u64);
        push_str_chars(&mut out, " }, keyfile: ");
        if self.uses_keyfile() {
            push_str_chars(&mut out, "true");
        } else {
            push_str_chars(&mut out, "false");
        }
        push_str_chars(&mut out, " }");
        string_from_chars(&out)
    }


    /// Encrypt an encoded entry map into the bytes of a complete vault file: a
    /// header carrying the parameters, the keyfile flag and a fresh random salt and
    /// nonce, then the ciphertext sealed under the key derived from the password,
    /// the salt and the keyfile digest, with the header as associated data.
    ///
    /// The salt and then the nonce are drawn from the operating system's random
    /// source and handed to [`Vault::seal_entries_with`]. Randomness can fail first
    /// ([`Error::Random`]); otherwise the call fails exactly on [`save_failure`].
    pub fn seal_entries(&self, plaintext: &[u8]) -> (r: Result<Vec<u8>>)
        requires
            plaintext@.len() + 92 <= usize::MAX,
        ensures
            r matches Ok(bytes) ==> exists|salt: Seq<u8>, nonce: Seq<u8>|
                {
                    &&& salt.len() == SALT_LEN
                    &&& nonce.len() == NONCE_LEN
                    &&& bytes@ == #[trigger] sealed_file(
                        self@.params,
                        self@.password,
                        self@.keyfile_secret,
                        salt,
                        nonce,
                        plaintext@,
                    )
                    &&& derive_key_result(self@.params, salt, self@.password, self@.keyfile_secret) is Ok
                },
            r matches Ok(bytes) ==> bytes@.len() == 92 + plaintext@.len(),
            r matches Err(e) ==> e is Random || save_failure(
                self@.params,
                self@.password,
                self@.keyfile_secret,
                plaintext@.len(),
            ) == Some(e),
            save_failure(self@.params, self@.password, self@.keyfile_secret, plaintext@.len()) is Some
                ==> r is Err,
    {
        let mut salt = zeros(SALT_LEN);
        fill_random(&mut salt)?;
        let mut nonce = zeros(NONCE_LEN);
        fill_random(&mut nonce)?;
        self.seal_entries_with(plaintext, salt.as_slice(), nonce.as_slice())
    }

    /// Encrypt an encoded entry map into the bytes of a complete vault file under
    /// the given salt and nonce: the header carrying the parameters, the keyfile
    /// flag, the salt and the nonce, then the ciphertext sealed under the key
    /// derived from the password, the salt and the keyfile digest, with the header
    /// as associated data. Fails exactly on [`save_failure`].
    pub fn seal_entries_with(&self, plaintext: &[u8], salt: &[u8], nonce: &[u8]) -> (r: Result<Vec<u8>>)
        requires
            plaintext@.len() + 92 <= usize::MAX,
            salt@.len() == SALT_LEN,
            nonce@.len() == NONCE_LEN,
        ensures
            r is Ok <==> save_failure(self@.params, self@.password, self@.keyfile_secret, plaintext@.len())
                is None,
            r matches Err(e) ==> save_failure(
                self@.params,
                self@.password,
                self@.keyfile_secret,
                plaintext@.len(),
            ) == Some(e),
            r matches Ok(bytes) ==> {
                &&& bytes@ == sealed_file(
                    self@.params,
                    self@.password,
                    self@.keyfile_secret,
                    salt@,
                    nonce@,
                    plaintext@,
                )
                &&& bytes@.len() == 92 + plaintext@.len()
                &&& derive_key_result(self@.params, salt@, self@.password, self@.keyfile_secret) is Ok
            },
    {
        proof {
            use_type_invariant(self);
        }
        let mut salt_bytes: Vec<u8> = Vec::new();
        crate::vault::format::extend_from_slice(&mut salt_bytes, salt);
        let mut nonce_bytes: Vec<u8> = Vec::new();
        crate::vault::format::extend_from_slice(&mut nonce_bytes, nonce);
        assert(salt_bytes@ =~= salt@);
        assert(nonce_bytes@ =~= nonce@);
        let ct_len = (plaintext.len() + TAG_LEN) as u64;
        let flags = if self.keyfile_secret.is_some() {
            FLAG_KEYFILE
        } else {
            0
        };
        let header = Header {
            version: FORMAT_VERSION,
            kdf_id: KDF_ARGON2ID,
            aead_id: AEAD_XCHACHA20POLY1305,
            params: self.params,
            flags,
            salt: salt_bytes,
            nonce: nonce_bytes,
            ct_len,
        };
        let aad = header.to_bytes();
        let secret = match &self.keyfile_secret {
            Some(k) => Some(k.as_slice()),
            None => None,
        };
        assert(opt_bytes(secret) == self@.keyfile_secret);
        let key = derive_key(&self.params, header.salt.as_slice(), self.password.as_slice(), secret)?;
        let ciphertext = seal(key.as_slice(), header.nonce.as_slice(), aad.as_slice(), plaintext)?;
        let mut file = aad;
        crate::vault::format::extend_from_slice(&mut file, ciphertext.as_slice());
        proof {
            let h = save_header(
                self@.params,
                self@.keyfile_secret is Some,
                header.salt@,
                header.nonce@,
                plaintext@.len(),
            );
            assert(header@ == h);
            assert(file@ == sealed_file(
                self@.params,
                self@.password,
                self@.keyfile_secret,
                header.salt@,
                header.nonce@,
                plaintext@,
            ));
        }
        Ok(file)
    }

    /// Read a vault file's bytes back to its encoded entry map: parse the header,
    /// refuse parameters above the read ceiling before deriving anything, require a
    /// keyfile exactly when the header does, check that the file holds the whole
    /// ciphertext, derive the key from the stored parameters and salt, and verify
    /// and decrypt. A wrong password, a wrong keyfile and any tampering all fail
    /// the tag check alike, with [`Error::Auth`].
    ///
    /// What a save wrote under the same password and keyfile unseals to the
    /// plaintext that was sealed, with the parameters it was sealed under.
    pub fn unseal(raw: &[u8], password: &[u8], keyfile: Option<&[u8]>) -> (r: Result<Unsealed>)
        ensures
            match (r, unseal_result(raw@, password@, opt_bytes(keyfile))) {
                (Ok(u), Ok((h, p))) => {
                    &&& u.params == h.params
                    &&& u.keyfile_required == keyfile_flag(h.flags)
                    &&& u.plaintext@ == p
                    &&& secret_opt_view(u.keyfile_secret) == keyfile_digest(opt_bytes(keyfile))
                    &&& u.params.meets_minimums()
                    &&& u.keyfile_required == u.keyfile_secret is Some
                },
                (Err(e), Err(f)) => e == f,
                _ => false,
            },
            forall|params: KdfParams, salt: Seq<u8>, nonce: Seq<u8>, plaintext: Seq<u8>|
                #![trigger sealed_file(params, password@, keyfile_digest(opt_bytes(keyfile)), salt, nonce, plaintext)]
                {
                    &&& raw@ == sealed_file(params, password@, keyfile_digest(opt_bytes(keyfile)), salt, nonce, plaintext)
                    &&& raw@.len() == 92 + plaintext.len()
                    &&& nonce.len() == NONCE_LEN
                    &&& reopenable(params, password@, keyfile_digest(opt_bytes(keyfile)), salt, plaintext.len())
                } ==> (r matches Ok(u) && u.plaintext@ == plaintext && u.params == params),
    {
        let ghost kf = keyfile_digest(opt_bytes(keyfile));
        let (header, header_len) = match Header::parse(raw) {
            Ok(x) => x,
            Err(e) => {
                proof {
                    assert forall|params: KdfParams, salt: Seq<u8>, nonce: Seq<u8>, plaintext: Seq<u8>|
                        raw@ == #[trigger] sealed_file(params, password@, kf, salt, nonce, plaintext)
                            && raw@.len() == 92 + plaintext.len() && nonce.len() == NONCE_LEN
                            && reopenable(params, password@, kf, salt, plaintext.len()) implies false by {
                        lemma_sealed_file_unseals(params, password@, kf, salt, nonce, plaintext);
                    }
                }
                return Err(e);
            },
        };
        let ghost hm = header@;
        let ghost n = header_len as int;
        if let Err(e) = header.params.check_read_ceiling() {
            proof {
                assert forall|params: KdfParams, salt: Seq<u8>, nonce: Seq<u8>, plaintext: Seq<u8>|
                    raw@ == #[trigger] sealed_file(params, password@, kf, salt, nonce, plaintext)
                        && raw@.len() == 92 + plaintext.len() && nonce.len() == NONCE_LEN
                        && reopenable(params, password@, kf, salt, plaintext.len()) implies false by {
                    lemma_sealed_file_unseals(params, password@, kf, salt, nonce, plaintext);
                }
            }
            return Err(e);
        }
        let requires_keyfile = header.requires_keyfile();
        if requires_keyfile && keyfile.is_none() {
            proof {
                assert forall|params: KdfParams, salt: Seq<u8>, nonce: Seq<u8>, plaintext: Seq<u8>|
                    raw@ == #[trigger] sealed_file(params, password@, kf, salt, nonce, plaintext)
                        && raw@.len() == 92 + plaintext.len() && nonce.len() == NONCE_LEN
                        && reopenable(params, password@, kf, salt, plaintext.len()) implies false by {
                    lemma_sealed_file_unseals(params, password@, kf, salt, nonce, plaintext);
                }
            }
            return Err(Error::KeyfileRequired);
        }
        if !requires_keyfile && keyfile.is_some() {
            proof {
                assert forall|params: KdfParams, salt: Seq<u8>, nonce: Seq<u8>, plaintext: Seq<u8>|
                    raw@ == #[trigger] sealed_file(params, password@, kf, salt, nonce, plaintext)
                        && raw@.len() == 92 + plaintext.len() && nonce.len() == NONCE_LEN
                        && reopenable(params, password@, kf, salt, plaintext.len()) implies false by {
                    lemma_sealed_file_unseals(params, password@, kf, salt, nonce, plaintext);
                }
            }
            return Err(Error::UnexpectedKeyfile);
        }
        let ct_len: usize = if header.ct_len <= usize::MAX as u64 {
            header.ct_len as usize
        } else {
            proof {
                assert forall|params: KdfParams, salt: Seq<u8>, nonce: Seq<u8>, plaintext: Seq<u8>|
                    raw@ == #[trigger] sealed_file(params, password@, kf, salt, nonce, plaintext)
                        && raw@.len() == 92 + plaintext.len() && nonce.len() == NONCE_LEN
                        && reopenable(params, password@, kf, salt, plaintext.len()) implies false by {
                    lemma_sealed_file_unseals(params, password@, kf, salt, nonce, plaintext);
                }
            }
            return Err(Error::MalformedHeader);
        };
        let end = match header_len.checked_add(ct_len) {
            Some(e) => e,
            None => {
                proof {
                    assert forall|params: KdfParams, salt: Seq<u8>, nonce: Seq<u8>, plaintext: Seq<u8>|
                        raw@ == #[trigger] sealed_file(params, password@, kf, salt, nonce, plaintext)
                            && raw@.len() == 92 + plaintext.len() && nonce.len() == NONCE_LEN
                            && reopenable(params, password@, kf, salt, plaintext.len()) implies false by {
                        lemma_sealed_file_unseals(params, password@, kf, salt, nonce, plaintext);
                    }
                }
                return Err(Error::MalformedHeader);
            },
        };
        if raw.len() < end {
            proof {
                assert forall|params: KdfParams, salt: Seq<u8>, nonce: Seq<u8>, plaintext: Seq<u8>|
                    raw@ == #[trigger] sealed_file(params, password@, kf, salt, nonce, plaintext)
                        && raw@.len() == 92 + plaintext.len() && nonce.len() == NONCE_LEN
                        && reopenable(params, password@, kf, salt, plaintext.len()) implies false by {
                    lemma_sealed_file_unseals(params, password@, kf, salt, nonce, plaintext);
                }
            }
            return Err(Error::MalformedHeader);
        }
        let aad = vstd::slice::slice_subrange(raw, 0, header_len);
        let ciphertext = vstd::slice::slice_subrange(raw, header_len, end);
        let keyfile_secret = match keyfile {
            Some(k) => Some(keyfile_secret(k)),
            None => None,
        };
        let secret = match &keyfile_secret {
            Some(s) => Some(s.as_slice()),
            None => None,
        };
        assert(opt_bytes(secret) == kf);
        let key = match derive_key(&header.params, header.salt.as_slice(), password, secret) {
            Ok(k) => k,
            Err(e) => {
                proof {
                    assert forall|params: KdfParams, salt: Seq<u8>, nonce: Seq<u8>, plaintext: Seq<u8>|
                        raw@ == #[trigger] sealed_file(params, password@, kf, salt, nonce, plaintext)
                            && raw@.len() == 92 + plaintext.len() && nonce.len() == NONCE_LEN
                            && reopenable(params, password@, kf, salt, plaintext.len()) implies false by {
                        lemma_sealed_file_unseals(params, password@, kf, salt, nonce, plaintext);
                    }
                }
                return Err(e);
            },
        };
        let plaintext = match open(key.as_slice(), header.nonce.as_slice(), aad, ciphertext) {
            Ok(p) => p,
            Err(e) => {
                proof {
                    assert forall|params: KdfParams, salt: Seq<u8>, nonce: Seq<u8>, pt: Seq<u8>|
                        raw@ == #[trigger] sealed_file(params, password@, kf, salt, nonce, pt)
                            && raw@.len() == 92 + pt.len() && nonce.len() == NONCE_LEN
                            && reopenable(params, password@, kf, salt, pt.len()) implies false by {
                        lemma_sealed_file_unseals(params, password@, kf, salt, nonce, pt);
                        assert(ciphertext@ == xchacha20poly1305_seal(key@, header.nonce@, aad@, pt));
                    }
                }
                return Err(e);
            },
        };
        proof {
            assert forall|params: KdfParams, salt: Seq<u8>, nonce: Seq<u8>, pt: Seq<u8>|
                raw@ == #[trigger] sealed_file(params, password@, kf, salt, nonce, pt)
                    && raw@.len() == 92 + pt.len() && nonce.len() == NONCE_LEN
                    && reopenable(params, password@, kf, salt, pt.len()) implies plaintext@ == pt
                && header.params == params by {
                lemma_sealed_file_unseals(params, password@, kf, salt, nonce, pt);
                assert(ciphertext@ == xchacha20poly1305_seal(key@, header.nonce@, aad@, pt));
            }
        }
        Ok(Unsealed { params: header.params, keyfile_required: requires_keyfile, keyfile_secret, plaintext })
    }

    /// Rebuild a vault from what [`Vault::unseal`] recovered and the decoded entry
    /// map: its schema `version` and its `(id, secret, meta)` records. A version
    /// other than [`PLAINTEXT_VERSION`] is refused as undecodable; a later record
    /// for an id replaces an earlier one.
    pub fn assemble(
        path: &str,
        password: &[u8],
        unsealed: Unsealed,
        version: u16,
        records: Vec<(String, Vec<u8>, Meta)>,
    ) -> (r: Result<Self>)
        requires
            unsealed.params.meets_minimums(),
            unsealed.keyfile_required == unsealed.keyfile_secret is Some,
        ensures
            r is Ok <==> version == PLAINTEXT_VERSION,
            r matches Err(e) ==> e is Deserialize,
            r matches Ok(v) ==> {
                &&& v@.path == path@
                &&& v@.params == unsealed.params
                &&& v@.password == password@
                &&& v@.keyfile_secret == secret_opt_view(unsealed.keyfile_secret)
                &&& v@.entries == records_map(records@)
            },
    {
        if version != PLAINTEXT_VERSION {
            return Err(Error::Deserialize);
        }
        let ghost ks = secret_opt_view(unsealed.keyfile_secret);
        let Unsealed { params, keyfile_required: _, keyfile_secret, plaintext: _ } = unsealed;
        let mut v = Vault {
            path: path.to_owned(),
            entries: Vec::new(),
            params,
            keyfile_secret,
            password: SecretBytes::new(password),
        };
        assert(pairs_map(entry_pairs(v.entries@)) =~= Map::empty());
        let mut records = records;
        let ghost all = records@;
        let mut done: usize = 0;
        let n = records.len();
        // Records are consumed from the front so each moves into its entry.
        assert(records@ =~= all.subrange(0, n as int));
        while records.len() > 0
            invariant
                n == all.len(),
                done + records@.len() == n,
                records@ =~= all.subrange(done as int, n as int),
                v@.path == path@,
                v@.params == params,
                v@.password == password@,
                v@.keyfile_secret == ks,
                v@.entries == records_map(all.subrange(0, done as int)),
            decreases records@.len(),
        {
            let (id, secret, meta) = records.remove(0);
            assert(all[done as int] == (id, secret, meta));
            v.put_owned(id, secret, meta);
            done = done + 1;
            assert(all.subrange(0, done as int).drop_last() =~= all.subrange(0, done - 1));
            assert(records@ =~= all.subrange(done as int, n as int));
        }
        assert(all.subrange(0, n as int) =~= all);
        Ok(v)
    }
}


/// A zero-filled buffer of `n` bytes.
fn zeros(n: usize) -> (r: Vec<u8>)
    ensures
        r@.len() == n,
{
    let mut v: Vec<u8> = Vec::new();
    let mut i: usize = 0;
    while i < n
        invariant
            i <= n,
            v@.len() == i,
        decreases n - i,
    {
        v.push(0);
        i = i + 1;
    }
    v
}

/// A file a save wrote reads back through every check of the read path up to the
/// tag: its header parses to the header that was written, the stored parameters
/// pass the ceiling, the keyfile flag matches, the file holds the whole
/// ciphertext, and the key derives to the key it was sealed under.
#[verifier::rlimit(40)]
proof fn lemma_sealed_file_unseals(
    params: KdfParams,
    password: Seq<u8>,
    kf: Option<Seq<u8>>,
    salt: Seq<u8>,
    nonce: Seq<u8>,
    pt: Seq<u8>,
)
    requires
        sealed_file(params, password, kf, salt, nonce, pt).len() == 92 + pt.len(),
        nonce.len() == NONCE_LEN,
        reopenable(params, password, kf, salt, pt.len()),
    ensures
        ({
            let raw = sealed_file(params, password, kf, salt, nonce, pt);
            let h = save_header(params, kf is Some, salt, nonce, pt.len());
            let key = argon2id_32(params.m_cost, params.t_cost, params.p_cost, kf, password, salt);
            &&& parse_result(raw) == Ok::<(HeaderModel, int), Error>((h, 76))
            &&& h.params == params
            &&& h.salt == salt
            &&& h.nonce == nonce
            &&& h.ct_len == pt.len() + 16
            &&& keyfile_flag(h.flags) == kf is Some
            &&& raw.subrange(0, 76) == header_bytes(h)
            &&& raw.subrange(76, 92 + pt.len() as int) == xchacha20poly1305_seal(key, nonce, header_bytes(h), pt)
            &&& derive_key_result(params, salt, password, kf) == Ok::<Seq<u8>, Error>(key)
        }),
{
    let raw = sealed_file(params, password, kf, salt, nonce, pt);
    let h = save_header(params, kf is Some, salt, nonce, pt.len());
    let key = argon2id_32(params.m_cost, params.t_cost, params.p_cost, kf, password, salt);
    let ct = xchacha20poly1305_seal(key, nonce, header_bytes(h), pt);
    crate::vault::format::lemma_header_round_trip(h, ct);
    assert(header_bytes(h).len() == 76);
    assert(raw.subrange(0, 76) =~= header_bytes(h));
    assert(raw.subrange(76, 92 + pt.len() as int) =~= ct);
    assert(keyfile_flag(1) && !keyfile_flag(0)) by (bit_vector);
}

/// The entry map that a list of `(id, secret, meta)` records builds, a later
/// record for an id replacing an earlier one.
pub open spec fn records_map(s: Seq<(String, Vec<u8>, Meta)>) -> Map<Seq<char>, EntryModel>
    decreases s.len(),
{
    if s.len() == 0 {
        Map::empty()
    } else {
        records_map(s.drop_last()).insert(
            s.last().0@,
            EntryModel { secret: s.last().1@, meta: s.last().2 },
        )
    }
}

} // verus!
