//! The wallet manifest and its mapping onto vault entries.
//!
//! A wallet is persisted across vault entries with a fixed naming scheme:
//!
//! - the manifest entry, at the fixed id [`MANIFEST_ENTRY_ID`], holds the encoded
//!   [`WalletManifest`]: the whole group tree plus every seed source, imported key
//!   and account. It holds no secret material, only metadata and the ids that route
//!   to the secrets;
//! - one secret entry per seed, at [`seed_entry_id`], holding the seed's mnemonic;
//! - one secret entry per imported key, at [`key_entry_id`], holding the key's raw
//!   private scalar.
//!
//! Seeds, keys and accounts are each held as a list whose ids are distinct, the
//! map from id to record that the stored form denotes.
use vstd::prelude::*;

use crate::keyed::distinct_keys;
use crate::text::{push_str_chars, str_eq, string_from_chars};
use crate::wallet::account::Account;
use crate::wallet::error::{Error, Result};
use crate::wallet::group::GroupTree;
use crate::wallet::id::{KeyId, SeedId};
use crate::wallet::key::ImportedKey;
use crate::wallet::seed::SeedSource;

verus! {

/// The schema version of the manifest, bumped on breaking layout changes.
pub const MANIFEST_VERSION: u16 = 1;

/// The fixed vault entry id under which the encoded manifest is stored.
pub const MANIFEST_ENTRY_ID: &'static str = "wallet/manifest";

/// The vault entry id of a seed's mnemonic: `seed/` followed by the seed id.
pub open spec fn seed_entry(seed: Seq<char>) -> Seq<char> {
    seq!['s', 'e', 'e', 'd', '/'] + seed
}

/// The vault entry id of an imported key's private scalar: `key/` followed by the
/// key id.
pub open spec fn key_entry(key: Seq<char>) -> Seq<char> {
    seq!['k', 'e', 'y', '/'] + key
}

/// The vault entry id holding the mnemonic for a given seed. Deterministic in the
/// seed id, so no separate index is needed to find a seed's secret.
pub fn seed_entry_id(seed: &SeedId) -> (r: String)
    ensures
        r@ == seed_entry(seed@),
{
    let mut out: Vec<char> = Vec::new();
    out.push('s');
    out.push('e');
    out.push('e');
    out.push('d');
    out.push('/');
    push_str_chars(&mut out, seed.as_str());
    assert(out@ =~= seed_entry(seed@));
    string_from_chars(&out)
}

/// The vault entry id holding the private key for a given imported key.
pub fn key_entry_id(key: &KeyId) -> (r: String)
    ensures
        r@ == key_entry(key@),
{
    let mut out: Vec<char> = Vec::new();
    out.push('k');
    out.push('e');
    out.push('y');
    out.push('/');
    push_str_chars(&mut out, key.as_str());
    assert(out@ =~= key_entry(key@));
    string_from_chars(&out)
}

/// Seed and key entry ids never collide with each other or with the manifest entry.
pub proof fn lemma_entry_ids_disjoint(seed: Seq<char>, key: Seq<char>)
    ensures
        seed_entry(seed) != key_entry(key),
        seed_entry(seed) != "wallet/manifest"@,
        key_entry(key) != "wallet/manifest"@,
{
    reveal_strlit("wallet/manifest");
    assert(seed_entry(seed)[0] != key_entry(key)[0]);
    assert(seed_entry(seed)[0] != "wallet/manifest"@[0]);
    assert(key_entry(key)[0] != "wallet/manifest"@[0]);
}

/// Distinct seeds have distinct entry ids, and so do distinct keys.
pub proof fn lemma_entry_ids_injective(a: Seq<char>, b: Seq<char>)
    ensures
        seed_entry(a) == seed_entry(b) ==> a == b,
        key_entry(a) == key_entry(b) ==> a == b,
{
    if seed_entry(a) == seed_entry(b) {
        assert(a =~= seed_entry(a).subrange(5, seed_entry(a).len() as int));
        assert(b =~= seed_entry(b).subrange(5, seed_entry(b).len() as int));
    }
    if key_entry(a) == key_entry(b) {
        assert(a =~= key_entry(a).subrange(4, key_entry(a).len() as int));
        assert(b =~= key_entry(b).subrange(4, key_entry(b).len() as int));
    }
}

/// The `(id, seed)` pairs of a list of seeds.
pub open spec fn seed_pairs(s: Seq<SeedSource>) -> Seq<(Seq<char>, SeedSource)> {
    s.map_values(|x: SeedSource| (x.id@, x))
}

/// The `(id, key)` pairs of a list of imported keys.
pub open spec fn key_pairs(s: Seq<ImportedKey>) -> Seq<(Seq<char>, ImportedKey)> {
    s.map_values(|x: ImportedKey| (x.id@, x))
}

/// The `(id, account)` pairs of a list of accounts.
pub open spec fn account_pairs(s: Seq<Account>) -> Seq<(Seq<char>, Account)> {
    s.map_values(|x: Account| (x.id@, x))
}

/// The full non-secret state of a wallet, stored as one encoded blob.
pub struct WalletManifest {
    /// Schema version of this manifest, checked on decode.
    pub version: u16,
    /// The nested group tree.
    pub tree: GroupTree,
    /// Every seed source; ids are distinct.
    pub seeds: Vec<SeedSource>,
    /// Every imported key; ids are distinct.
    pub keys: Vec<ImportedKey>,
    /// Every account; ids are distinct.
    pub accounts: Vec<Account>,
}

impl WalletManifest {
    /// Seeds, keys and accounts are each keyed by distinct ids.
    pub open spec fn wf(&self) -> bool {
        &&& distinct_keys(seed_pairs(self.seeds@))
        &&& distinct_keys(key_pairs(self.keys@))
        &&& distinct_keys(account_pairs(self.accounts@))
    }

    /// Build an empty manifest whose tree is a single root group.
    pub fn new(root_group_name: &str) -> (r: Self)
        ensures
            r.wf(),
            r.version == MANIFEST_VERSION,
            r.tree@.nodes.dom() == set![r.tree@.root],
            r.tree@.nodes[r.tree@.root].name == root_group_name@,
            r.tree@.nodes[r.tree@.root].parent is None,
            r.tree@.nodes[r.tree@.root].children.len() == 0,
            r.seeds@.len() == 0,
            r.keys@.len() == 0,
            r.accounts@.len() == 0,
    {
        WalletManifest {
            version: MANIFEST_VERSION,
            tree: GroupTree::new(root_group_name),
            seeds: Vec::new(),
            keys: Vec::new(),
            accounts: Vec::new(),
        }
    }

    /// Accept the parts of a decoded manifest.
    ///
    /// Fails with [`Error::ManifestVersion`] if the stored version is newer than
    /// [`MANIFEST_VERSION`], or with [`Error::ManifestDecode`] if two seeds, two
    /// keys or two accounts share an id.
    pub fn from_decoded(
        version: u16,
        tree: GroupTree,
        seeds: Vec<SeedSource>,
        keys: Vec<ImportedKey>,
        accounts: Vec<Account>,
    ) -> (r: Result<Self>)
        ensures
            match r {
                Ok(m) => {
                    &&& m.wf()
                    &&& version <= MANIFEST_VERSION
                    &&& m.version == version
                    &&& m.tree@ == tree@
                    &&& m.seeds@ == seeds@
                    &&& m.keys@ == keys@
                    &&& m.accounts@ == accounts@
                },
                Err(Error::ManifestVersion(v)) => v == version && version > MANIFEST_VERSION,
                Err(Error::ManifestDecode) => version <= MANIFEST_VERSION && !(distinct_keys(
                    seed_pairs(seeds@),
                ) && distinct_keys(key_pairs(keys@)) && distinct_keys(account_pairs(accounts@))),
                Err(_) => false,
            },
    {
        if version > MANIFEST_VERSION {
            return Err(Error::ManifestVersion(version));
        }
        let mut seed_ids: Vec<String> = Vec::new();
        let mut i: usize = 0;
        while i < seeds.len()
            invariant
                i <= seeds@.len(),
                seed_ids@.len() == i,
                forall|j: int| 0 <= j < i ==> #[trigger] seed_ids@[j]@ == seeds@[j].id@,
            decreases seeds@.len() - i,
        {
            seed_ids.push(seeds[i].id.as_str().to_owned());
            i = i + 1;
        }
        let mut key_ids: Vec<String> = Vec::new();
        let mut i: usize = 0;
        while i < keys.len()
            invariant
                i <= keys@.len(),
                key_ids@.len() == i,
                forall|j: int| 0 <= j < i ==> #[trigger] key_ids@[j]@ == keys@[j].id@,
            decreases keys@.len() - i,
        {
            key_ids.push(keys[i].id.as_str().to_owned());
            i = i + 1;
        }
        let mut account_ids: Vec<String> = Vec::new();
        let mut i: usize = 0;
        while i < accounts.len()
            invariant
                i <= accounts@.len(),
                account_ids@.len() == i,
                forall|j: int| 0 <= j < i ==> #[trigger] account_ids@[j]@ == accounts@[j].id@,
            decreases accounts@.len() - i,
        {
            account_ids.push(accounts[i].id.as_str().to_owned());
            i = i + 1;
        }
        let ds = all_distinct(&seed_ids);
        let dk = all_distinct(&key_ids);
        let da = all_distinct(&account_ids);
        proof {
            assert(ds == distinct_keys(seed_pairs(seeds@))) by {
                if ds {
                    assert forall|a: int, b: int|
                        0 <= a < seed_pairs(seeds@).len() && 0 <= b < seed_pairs(seeds@).len() && a != b
                            implies #[trigger] seed_pairs(seeds@)[a].0 != #[trigger] seed_pairs(seeds@)[b].0 by {
                        assert(seed_ids@[a]@ == seeds@[a].id@);
                        assert(seed_ids@[b]@ == seeds@[b].id@);
                    }
                }
                if !ds {
                    let (a, b) = choose|a: int, b: int|
                        0 <= a < seed_ids@.len() && 0 <= b < seed_ids@.len() && a != b
                            && seed_ids@[a]@ == seed_ids@[b]@;
                    assert(seed_pairs(seeds@)[a].0 == seed_pairs(seeds@)[b].0);
                }
            }
            assert(dk == distinct_keys(key_pairs(keys@))) by {
                if dk {
                    assert forall|a: int, b: int|
                        0 <= a < key_pairs(keys@).len() && 0 <= b < key_pairs(keys@).len() && a != b
                            implies #[trigger] key_pairs(keys@)[a].0 != #[trigger] key_pairs(keys@)[b].0 by {
                        assert(key_ids@[a]@ == keys@[a].id@);
                        assert(key_ids@[b]@ == keys@[b].id@);
                    }
                }
                if !dk {
                    let (a, b) = choose|a: int, b: int|
                        0 <= a < key_ids@.len() && 0 <= b < key_ids@.len() && a != b
                            && key_ids@[a]@ == key_ids@[b]@;
                    assert(key_pairs(keys@)[a].0 == key_pairs(keys@)[b].0);
                }
            }
            assert(da == distinct_keys(account_pairs(accounts@))) by {
                if da {
                    assert forall|a: int, b: int|
                        0 <= a < account_pairs(accounts@).len() && 0 <= b < account_pairs(accounts@).len() && a != b
                            implies #[trigger] account_pairs(accounts@)[a].0 != #[trigger] account_pairs(accounts@)[b].0 by {
                        assert(account_ids@[a]@ == accounts@[a].id@);
                        assert(account_ids@[b]@ == accounts@[b].id@);
                    }
                }
                if !da {
                    let (a, b) = choose|a: int, b: int|
                        0 <= a < account_ids@.len() && 0 <= b < account_ids@.len() && a != b
                            && account_ids@[a]@ == account_ids@[b]@;
                    assert(account_pairs(accounts@)[a].0 == account_pairs(accounts@)[b].0);
                }
            }
        }
        if !(ds && dk && da) {
            return Err(Error::ManifestDecode);
        }
        Ok(WalletManifest { version, tree, seeds, keys, accounts })
    }
}

/// Whether no string occurs twice in a list.
fn all_distinct(ids: &Vec<String>) -> (r: bool)
    ensures
        r == (forall|a: int, b: int|
            0 <= a < ids@.len() && 0 <= b < ids@.len() && a != b ==> #[trigger] ids@[a]@
                != #[trigger] ids@[b]@),
{
    let mut i: usize = 0;
    while i < ids.len()
        invariant
            i <= ids@.len(),
            forall|a: int, b: int|
                0 <= a < i && 0 <= b < i && a != b ==> #[trigger] ids@[a]@ != #[trigger] ids@[b]@,
        decreases ids@.len() - i,
    {
        let mut j: usize = 0;
        while j < i
            invariant
                i < ids@.len(),
                j <= i,
                forall|b: int| 0 <= b < j ==> ids@[b]@ != #[trigger] ids@[i as int]@,
            decreases i - j,
        {
            if str_eq(ids[j].as_str(), ids[i].as_str()) {
                return false;
            }
            j = j + 1;
        }
        i = i + 1;
    }
    true
}

} // verus!
