//! The [`Wallet`] aggregate: one vault, one manifest, one chain registry.
//!
//! The wallet owns an open [`Vault`], the in-memory [`WalletManifest`] decoded from
//! it, and a [`ChainRegistry`] of the chain implementations it may route to. It is
//! chain-agnostic: it never derives an address or forms a signature itself, it
//! looks up the [`Chain`] for an account's family and delegates.
//!
//! Mutating operations change only the in-memory manifest (and, for secrets, the
//! vault's entry set); nothing is persisted until the re-encoded manifest is staged
//! with [`Wallet::stage_manifest`] and the vault is sealed and written out.
use vstd::prelude::*;
use vstd::string::StrSliceExecFns;

use crate::keyed::{distinct_keys, has_key, lemma_pairs_map_at, lemma_pairs_map_push, lemma_pairs_map_remove, lemma_pairs_map_update, pairs_map};
use crate::text::{push_str_chars, str_eq, string_from_chars};
use crate::vault::format::KdfParams;
use crate::vault::secret::SecretBytes;
use crate::vault::crypto::opt_bytes;
use crate::vault::vault::{keyfile_digest, EntryModel, Meta, Vault, VaultModel};
use crate::wallet::account::{Account, AccountSource};
use crate::wallet::chain::{AccountSecret, Chain, ChainAddress, ChainKind, ChainRegistry, SigningPayload};
use crate::wallet::error::{Error, Result};
use crate::wallet::group::{added, walk, Group, GroupModel, in_subtree, moved, pruned, removed, reparented, with_name, GroupTree, TreeModel};
use crate::wallet::id::{AccountId, GroupId, KeyId, SeedId};
use crate::wallet::key::ImportedKey;
use crate::wallet::manifest::{account_pairs, key_entry, key_entry_id, key_pairs, seed_entry, seed_entry_id, seed_pairs, WalletManifest, MANIFEST_ENTRY_ID};
use crate::wallet::seed::{path_chars, DerivationScheme, SeedSource};

verus! {

/// What to do with a group's contents when it is removed.
#[derive(Clone, Copy, Debug, PartialEq, Eq, Structural)]
pub enum RemoveGroupPolicy {
    /// Refuse the removal if the group still contains child groups or accounts.
    RequireEmpty,
    /// Move the group's child groups and accounts up to its parent, then remove the
    /// now-empty group.
    Reparent,
    /// Remove the whole subtree. Accounts inside follow [`Wallet::forget_account`]:
    /// derived accounts are tombstoned, imported accounts are deleted with their key.
    Cascade,
}

/// The result of [`Wallet::forget_account`], which differs by account kind.
#[derive(Clone, Copy, Debug, PartialEq, Eq, Structural)]
pub enum ForgetOutcome {
    /// A derived account was tombstoned: hidden and marked do-not-rederive, its
    /// index still consumed against the seed.
    Tombstoned,
    /// An imported account was deleted together with its key record and the key's
    /// vault entry.
    Deleted,
}

/// What a wallet holds: its tree, its seeds, keys and accounts by id, its vault and
/// the families it can route to.
pub struct WalletModel {
    pub tree: TreeModel,
    pub seeds: Map<Seq<char>, SeedSource>,
    pub keys: Map<Seq<char>, ImportedKey>,
    pub accounts: Map<Seq<char>, Account>,
    pub vault: VaultModel,
    pub chains: Set<ChainKind>,
}

/// A hierarchical-deterministic, multi-chain wallet persisted through an encrypted
/// vault.
pub struct Wallet {
    vault: Vault,
    manifest: WalletManifest,
    chains: ChainRegistry,
}

impl Wallet {
    /// The implementation this wallet routes a family's derivation and signing to.
    pub closed spec fn chain_for(&self, kind: ChainKind) -> Option<Box<dyn Chain>> {
        self.chains.chain_of(kind)
    }
}

impl View for Wallet {
    type V = WalletModel;

    closed spec fn view(&self) -> WalletModel {
        WalletModel {
            tree: self.manifest.tree@,
            seeds: pairs_map(seed_pairs(self.manifest.seeds@)),
            keys: pairs_map(key_pairs(self.manifest.keys@)),
            accounts: pairs_map(account_pairs(self.manifest.accounts@)),
            vault: self.vault@,
            chains: self.chains.registered(),
        }
    }
}

/// Whether an account was derived from `seed` at `index`.
pub open spec fn derived_at(a: Account, seed: Seq<char>, index: u32) -> bool {
    a.source matches AccountSource::Derived { seed: s, index: i, .. } && s@ == seed && i == index
}

/// Whether some account, live or tombstoned, was derived from `seed` at `index`.
pub open spec fn index_consumed(accounts: Map<Seq<char>, Account>, seed: Seq<char>, index: u32) -> bool {
    exists|k: Seq<char>| #[trigger] accounts.contains_key(k) && derived_at(accounts[k], seed, index)
}

/// Whether some live account (one not tombstoned) was derived from `seed` at
/// `index`.
pub open spec fn index_live(accounts: Map<Seq<char>, Account>, seed: Seq<char>, index: u32) -> bool {
    exists|k: Seq<char>|
        #[trigger] accounts.contains_key(k) && derived_at(accounts[k], seed, index)
            && !accounts[k].do_not_rederive
}

/// Whether `a` is the account a derivation files: derived from `seed` at `index`
/// with the path the scheme gives, on `chain`, in `group`, labelled `label`, shown
/// and re-derivable, with no notes or tags.
pub open spec fn fresh_derived(
    a: Account,
    seed: Seq<char>,
    index: u32,
    path: Seq<char>,
    chain: ChainKind,
    group: Seq<char>,
    label: Seq<char>,
) -> bool {
    &&& a.source matches AccountSource::Derived { seed: s, index: i, path: p } && s@ == seed && i
        == index && p@ == path
    &&& a.chain == chain
    &&& a.group@ == group
    &&& a.label@ == label
    &&& !a.hidden
    &&& !a.do_not_rederive
    &&& a.notes@.len() == 0
    &&& a.tags@.len() == 0
}

/// `after` is `before` with one new derived account `aid` for index `index` of
/// seed `sd`, filed under `group` with `label`, and the seed's cursor set to
/// `next`; nothing else changes.
pub open spec fn filed_derived(
    before: WalletModel,
    after: WalletModel,
    aid: Seq<char>,
    sd: SeedSource,
    index: u32,
    group: Seq<char>,
    label: Seq<char>,
    next: u32,
) -> bool {
    &&& !before.accounts.contains_key(aid)
    &&& after.accounts == before.accounts.insert(aid, after.accounts[aid])
    &&& after.accounts[aid].id@ == aid
    &&& fresh_derived(
        after.accounts[aid],
        sd.id@,
        index,
        path_chars(sd.derivation_scheme, index),
        sd.chain,
        group,
        label,
    )
    &&& after.seeds == before.seeds.insert(sd.id@, SeedSource { next_index: next, ..sd })
    &&& after == (WalletModel { accounts: after.accounts, seeds: after.seeds, ..before })
}

/// Whether `a` is the account an import files for key `key`.
pub open spec fn fresh_imported(
    a: Account,
    key: Seq<char>,
    chain: ChainKind,
    group: Seq<char>,
    label: Seq<char>,
) -> bool {
    &&& a.source matches AccountSource::Imported { key: k } && k@ == key
    &&& a.chain == chain
    &&& a.group@ == group
    &&& a.label@ == label
    &&& !a.hidden
    &&& !a.do_not_rederive
    &&& a.notes@.len() == 0
    &&& a.tags@.len() == 0
}

/// The vault entry holding the secret an account signs with.
pub open spec fn secret_entry(a: Account) -> Seq<char> {
    match a.source {
        AccountSource::Derived { seed, .. } => seed_entry(seed@),
        AccountSource::Imported { key } => key_entry(key@),
    }
}

/// `index` is the first index at or after `start` that no account of `seed` has
/// consumed.
pub open spec fn first_free(accounts: Map<Seq<char>, Account>, seed: Seq<char>, start: u32, index: u32) -> bool {
    &&& start <= index
    &&& !index_consumed(accounts, seed, index)
    &&& forall|j: u32| start <= j < index ==> #[trigger] index_consumed(accounts, seed, j)
}

/// Whether some account of a list was derived from `seed` at `index` (and, when
/// `live_only`, is not tombstoned).
fn index_taken(accounts: &Vec<Account>, seed: &SeedId, index: u32, live_only: bool) -> (r: bool)
    requires
        distinct_keys(account_pairs(accounts@)),
    ensures
        r == if live_only {
            index_live(pairs_map(account_pairs(accounts@)), seed@, index)
        } else {
            index_consumed(pairs_map(account_pairs(accounts@)), seed@, index)
        },
{
    let ghost m = pairs_map(account_pairs(accounts@));
    let mut i: usize = 0;
    while i < accounts.len()
        invariant
            i <= accounts@.len(),
            distinct_keys(account_pairs(accounts@)),
            m == pairs_map(account_pairs(accounts@)),
            forall|j: int|
                0 <= j < i ==> !(#[trigger] derived_at(accounts@[j], seed@, index) && (!live_only
                    || !accounts@[j].do_not_rederive)),
        decreases accounts@.len() - i,
    {
        let hit = match &accounts[i].source {
            AccountSource::Derived { seed: s, index: x, .. } => *x == index && str_eq(
                s.as_str(),
                seed.as_str(),
            ),
            AccountSource::Imported { .. } => false,
        };
        if hit && (!live_only || !accounts[i].do_not_rederive) {
            proof {
                lemma_pairs_map_at(account_pairs(accounts@), i as int);
                assert(m.contains_key(accounts@[i as int].id@));
            }
            return true;
        }
        i = i + 1;
    }
    proof {
        assert forall|k: Seq<char>| #[trigger] m.contains_key(k) implies !(derived_at(m[k], seed@, index)
            && (!live_only || !m[k].do_not_rederive)) by {
            let j = choose|j: int| 0 <= j < account_pairs(accounts@).len() && #[trigger] account_pairs(accounts@)[j].0 == k;
            lemma_pairs_map_at(account_pairs(accounts@), j);
            assert(derived_at(accounts@[j], seed@, index) ==> !(!live_only || !accounts@[j].do_not_rederive));
        }
    }
    false
}

/// The first index at or after `start` that no account of `seed` has consumed, or
/// `None` when every index up to the largest is consumed.
fn next_free_index(accounts: &Vec<Account>, seed: &SeedId, start: u32) -> (r: Option<u32>)
    requires
        distinct_keys(account_pairs(accounts@)),
    ensures
        match r {
            Some(i) => first_free(pairs_map(account_pairs(accounts@)), seed@, start, i),
            None => forall|j: u32| start <= j ==> #[trigger] index_consumed(
                pairs_map(account_pairs(accounts@)),
                seed@,
                j,
            ),
        },
{
    let ghost m = pairs_map(account_pairs(accounts@));
    let mut i: u32 = start;
    loop
        invariant
            start <= i,
            distinct_keys(account_pairs(accounts@)),
            m == pairs_map(account_pairs(accounts@)),
            forall|j: u32| start <= j < i ==> #[trigger] index_consumed(m, seed@, j),
        decreases u32::MAX - i,
    {
        if !index_taken(accounts, seed, i, false) {
            return Some(i);
        }
        if i == u32::MAX {
            proof {
                assert forall|j: u32| start <= j implies #[trigger] index_consumed(m, seed@, j) by {
                    if j < i {
                    } else {
                        assert(j == i);
                    }
                }
            }
            return None;
        }
        i = i + 1;
    }
}

// --- public csv ------------------------------------------------------------------

/// Whether a CSV field must be quoted: it holds a comma, a quote or a line break.
pub open spec fn needs_quotes(f: Seq<char>) -> bool {
    exists|i: int| 0 <= i < f.len() && (f[i] == ',' || f[i] == '"' || f[i] == '\n' || f[i] == '\r')
}

/// A field with every quote doubled.
pub open spec fn doubled_quotes(f: Seq<char>) -> Seq<char>
    decreases f.len(),
{
    if f.len() == 0 {
        Seq::empty()
    } else if f.last() == '"' {
        doubled_quotes(f.drop_last()) + seq!['"', '"']
    } else {
        doubled_quotes(f.drop_last()).push(f.last())
    }
}

/// A field as written in CSV: quoted, with quotes doubled, when it needs it.
#[verifier::opaque]
pub open spec fn csv_field(f: Seq<char>) -> Seq<char> {
    if needs_quotes(f) {
        seq!['"'] + doubled_quotes(f) + seq!['"']
    } else {
        f
    }
}

/// `true` or `false`.
pub open spec fn bool_text(b: bool) -> Seq<char> {
    if b {
        seq!['t', 'r', 'u', 'e']
    } else {
        seq!['f', 'a', 'l', 's', 'e']
    }
}

/// The lower-case name of a chain family.
pub open spec fn chain_name(k: ChainKind) -> Seq<char> {
    match k {
        ChainKind::Evm => seq!['e', 'v', 'm'],
    }
}

/// The derivation path of an account, empty for an imported one.
pub open spec fn path_text(a: Account) -> Seq<char> {
    match a.source {
        AccountSource::Derived { path, .. } => path@,
        AccountSource::Imported { .. } => Seq::empty(),
    }
}

/// The header line of the public account export.
pub open spec fn csv_header() -> Seq<char> {
    "id,chain,address,label,path,group,hidden,tombstoned\n"@
}

/// One account's line of the public export: id, family, address, label, path,
/// group, hidden flag and tombstone flag.
pub open spec fn csv_line(a: Account) -> Seq<char> {
    csv_field(a.id@) + seq![','] + chain_name(a.chain) + seq![','] + csv_field(a.address@) + seq![',']
        + csv_field(a.label@) + seq![','] + csv_field(path_text(a)) + seq![','] + csv_field(a.group@)
        + seq![','] + bool_text(a.hidden) + seq![','] + bool_text(a.do_not_rederive) + seq!['\n']
}

/// The path column of an account's export line: between the label and the group
/// stands the CSV field of a derived account's stored derivation path, and
/// nothing for an imported account.
pub proof fn lemma_csv_line_path_column(a: Account)
    ensures
        a.source matches AccountSource::Derived { path, .. } ==> csv_line(a) == csv_field(a.id@) + seq![',']
            + chain_name(a.chain) + seq![','] + csv_field(a.address@) + seq![','] + csv_field(a.label@)
            + seq![','] + csv_field(path@) + seq![','] + csv_field(a.group@) + seq![','] + bool_text(a.hidden)
            + seq![','] + bool_text(a.do_not_rederive) + seq!['\n'],
        a.source is Imported ==> csv_line(a) == csv_field(a.id@) + seq![','] + chain_name(a.chain) + seq![',']
            + csv_field(a.address@) + seq![','] + csv_field(a.label@) + seq![',', ','] + csv_field(a.group@)
            + seq![','] + bool_text(a.hidden) + seq![','] + bool_text(a.do_not_rederive) + seq!['\n'],
{
    reveal(csv_field);
    assert(!needs_quotes(Seq::<char>::empty()));
    assert(csv_field(Seq::<char>::empty()) =~= Seq::<char>::empty());
    let pre = csv_field(a.id@) + seq![','] + chain_name(a.chain) + seq![','] + csv_field(a.address@) + seq![',']
        + csv_field(a.label@);
    let post = csv_field(a.group@) + seq![','] + bool_text(a.hidden) + seq![','] + bool_text(a.do_not_rederive)
        + seq!['\n'];
    if a.source is Imported {
        assert(csv_line(a) =~= pre + seq![','] + Seq::<char>::empty() + seq![','] + post);
        assert(pre + seq![','] + Seq::<char>::empty() + seq![','] + post =~= pre + seq![',', ','] + post);
    }
}

/// The lines of a list of accounts, in order.
pub open spec fn csv_lines(accounts: Seq<Account>) -> Seq<char>
    decreases accounts.len(),
{
    if accounts.len() == 0 {
        Seq::empty()
    } else {
        csv_lines(accounts.drop_last()) + csv_line(accounts.last())
    }
}

/// Append a CSV field.
fn push_csv_field(out: &mut Vec<char>, f: &str)
    ensures
        final(out)@ == old(out)@ + csv_field(f@),
{
    reveal(csv_field);
    let n = f.unicode_len();
    let mut quote = false;
    let mut i: usize = 0;
    while i < n
        invariant
            n == f@.len(),
            i <= n,
            quote == exists|j: int| 0 <= j < i && (f@[j] == ',' || f@[j] == '"' || f@[j] == '\n' || f@[j] == '\r'),
        decreases n - i,
    {
        let c = f.get_char(i);
        if c == ',' || c == '"' || c == '\n' || c == '\r' {
            quote = true;
        }
        i = i + 1;
    }
    if !quote {
        push_str_chars(out, f);
        return;
    }
    let ghost start = out@;
    out.push('"');
    let mut i: usize = 0;
    while i < n
        invariant
            n == f@.len(),
            i <= n,
            out@ == start + seq!['"'] + doubled_quotes(f@.subrange(0, i as int)),
        decreases n - i,
    {
        let c = f.get_char(i);
        proof {
            assert(f@.subrange(0, i + 1).drop_last() =~= f@.subrange(0, i as int));
        }
        if c == '"' {
            out.push('"');
            out.push('"');
        } else {
            out.push(c);
        }
        i = i + 1;
        assert(out@ =~= start + seq!['"'] + doubled_quotes(f@.subrange(0, i as int)));
    }
    out.push('"');
    assert(f@.subrange(0, n as int) =~= f@);
    assert(out@ =~= start + csv_field(f@));
}

/// Append `true` or `false`.
fn push_bool(out: &mut Vec<char>, b: bool)
    ensures
        final(out)@ == old(out)@ + bool_text(b),
{
    let ghost start = out@;
    if b {
        out.push('t');
        out.push('r');
        out.push('u');
        out.push('e');
    } else {
        out.push('f');
        out.push('a');
        out.push('l');
        out.push('s');
        out.push('e');
    }
    assert(out@ =~= start + bool_text(b));
}

/// Append one account's export line.
fn push_csv_line(out: &mut Vec<char>, a: &Account)
    ensures
        final(out)@ == old(out)@ + csv_line(*a),
{
    let ghost s0 = out@;
    let ghost mut acc: Seq<char> = Seq::empty();
    push_csv_field(out, a.id.as_str());
    proof {
        acc = csv_field(a.id@);
        assert(out@ =~= s0 + acc);
    }
    out.push(',');
    proof {
        acc = acc + seq![','];
        assert(out@ =~= s0 + acc);
    }
    match a.chain {
        ChainKind::Evm => {
            out.push('e');
            out.push('v');
            out.push('m');
        },
    }
    proof {
        acc = acc + chain_name(a.chain);
        assert(out@ =~= s0 + acc);
    }
    out.push(',');
    proof {
        acc = acc + seq![','];
        assert(out@ =~= s0 + acc);
    }
    push_csv_field(out, a.address.as_str());
    proof {
        acc = acc + csv_field(a.address@);
        assert(out@ =~= s0 + acc);
    }
    out.push(',');
    proof {
        acc = acc + seq![','];
        assert(out@ =~= s0 + acc);
    }
    push_csv_field(out, a.label.as_str());
    proof {
        acc = acc + csv_field(a.label@);
        assert(out@ =~= s0 + acc);
    }
    out.push(',');
    proof {
        acc = acc + seq![','];
        assert(out@ =~= s0 + acc);
    }
    match &a.source {
        AccountSource::Derived { path, .. } => push_csv_field(out, path.as_str()),
        AccountSource::Imported { .. } => {
            assert(csv_field(Seq::<char>::empty()) =~= Seq::<char>::empty()) by {
                reveal(csv_field);
                assert(!needs_quotes(Seq::<char>::empty()));
            }
        },
    }
    proof {
        acc = acc + csv_field(path_text(*a));
        assert(out@ =~= s0 + acc);
    }
    out.push(',');
    proof {
        acc = acc + seq![','];
        assert(out@ =~= s0 + acc);
    }
    push_csv_field(out, a.group.as_str());
    proof {
        acc = acc + csv_field(a.group@);
        assert(out@ =~= s0 + acc);
    }
    out.push(',');
    proof {
        acc = acc + seq![','];
        assert(out@ =~= s0 + acc);
    }
    push_bool(out, a.hidden);
    proof {
        acc = acc + bool_text(a.hidden);
        assert(out@ =~= s0 + acc);
    }
    out.push(',');
    proof {
        acc = acc + seq![','];
        assert(out@ =~= s0 + acc);
    }
    push_bool(out, a.do_not_rederive);
    proof {
        acc = acc + bool_text(a.do_not_rederive);
        assert(out@ =~= s0 + acc);
    }
    out.push('\n');
    proof {
        acc = acc + seq!['\n'];
        assert(out@ =~= s0 + acc);
        assert(acc == csv_line(*a));
    }
}

// --- group removal -----------------------------------------------------------------

/// Whether an account is filed in the subtree of `id`.
pub open spec fn filed_under(nodes: Map<Seq<char>, GroupModel>, a: Account, id: Seq<char>) -> bool {
    in_subtree(nodes, a.group@, id)
}

/// The accounts after a cascading removal of `id`: those filed below it are
/// tombstoned when derived and dropped when imported.
pub open spec fn cascaded(
    accounts: Map<Seq<char>, Account>,
    nodes: Map<Seq<char>, GroupModel>,
    id: Seq<char>,
) -> Map<Seq<char>, Account> {
    Map::new(
        |k: Seq<char>|
            accounts.contains_key(k) && !(filed_under(nodes, accounts[k], id)
                && accounts[k].source is Imported),
        |k: Seq<char>|
            if filed_under(nodes, accounts[k], id) {
                Account { hidden: true, do_not_rederive: true, ..accounts[k] }
            } else {
                accounts[k]
            },
    )
}

/// Whether an imported key backs an account a cascading removal of `id` drops.
pub open spec fn dropped_key(
    accounts: Map<Seq<char>, Account>,
    nodes: Map<Seq<char>, GroupModel>,
    id: Seq<char>,
    key: Seq<char>,
) -> bool {
    exists|k: Seq<char>|
        #[trigger] accounts.contains_key(k) && filed_under(nodes, accounts[k], id)
            && (accounts[k].source matches AccountSource::Imported { key: kk } && kk@ == key)
}

/// The vault entries of the keys a cascading removal of `id` drops.
pub open spec fn dropped_entries(
    accounts: Map<Seq<char>, Account>,
    nodes: Map<Seq<char>, GroupModel>,
    id: Seq<char>,
) -> Set<Seq<char>> {
    Set::new(|e: Seq<char>| exists|key: Seq<char>| #[trigger] dropped_key(accounts, nodes, id, key) && e == key_entry(key))
}

/// Whether a list of key ids holds `key`.
pub open spec fn listed(ks: Seq<KeyId>, key: Seq<char>) -> bool {
    exists|t: int| 0 <= t < ks.len() && #[trigger] ks[t]@ == key
}

/// Whether `e` is the vault entry of a key in a list.
pub open spec fn entry_listed(ks: Seq<KeyId>, e: Seq<char>) -> bool {
    exists|k: Seq<char>| #[trigger] listed(ks, k) && e == key_entry(k)
}

/// Whether one of the first `i` accounts of a list is filed below `id` and backed
/// by imported key `key`.
pub open spec fn dropped_before(
    s: Seq<Account>,
    nodes: Map<Seq<char>, GroupModel>,
    id: Seq<char>,
    i: int,
    key: Seq<char>,
) -> bool {
    exists|j: int|
        0 <= j < i && #[trigger] filed_under(nodes, s[j], id) && (s[j].source matches AccountSource::Imported {
            key: kk,
        } && kk@ == key)
}

/// The position of the account with id `id`.
fn find_account(accounts: &Vec<Account>, id: &AccountId) -> (r: Option<usize>)
    ensures
        match r {
            Some(i) => i < accounts@.len() && accounts@[i as int].id@ == id@,
            None => !has_key(account_pairs(accounts@), id@),
        },
{
    let mut i: usize = 0;
    while i < accounts.len()
        invariant
            i <= accounts@.len(),
            forall|j: int| 0 <= j < i ==> accounts@[j].id@ != id@,
        decreases accounts@.len() - i,
    {
        if str_eq(accounts[i].id.as_str(), id.as_str()) {
            return Some(i);
        }
        i = i + 1;
    }
    proof {
        if has_key(account_pairs(accounts@), id@) {
            let j = choose|j: int|
                0 <= j < account_pairs(accounts@).len() && #[trigger] account_pairs(accounts@)[j].0 == id@;
            assert(accounts@[j].id@ == id@);
        }
    }
    None
}

/// The position of the seed with id `id`.
fn find_seed(seeds: &Vec<SeedSource>, id: &SeedId) -> (r: Option<usize>)
    ensures
        match r {
            Some(i) => i < seeds@.len() && seeds@[i as int].id@ == id@,
            None => !has_key(seed_pairs(seeds@), id@),
        },
{
    let mut i: usize = 0;
    while i < seeds.len()
        invariant
            i <= seeds@.len(),
            forall|j: int| 0 <= j < i ==> seeds@[j].id@ != id@,
        decreases seeds@.len() - i,
    {
        if str_eq(seeds[i].id.as_str(), id.as_str()) {
            return Some(i);
        }
        i = i + 1;
    }
    proof {
        if has_key(seed_pairs(seeds@), id@) {
            let j = choose|j: int|
                0 <= j < seed_pairs(seeds@).len() && #[trigger] seed_pairs(seeds@)[j].0 == id@;
            assert(seeds@[j].id@ == id@);
        }
    }
    None
}

/// The position of the imported key with id `id`.
fn find_key(keys: &Vec<ImportedKey>, id: &KeyId) -> (r: Option<usize>)
    ensures
        match r {
            Some(i) => i < keys@.len() && keys@[i as int].id@ == id@,
            None => !has_key(key_pairs(keys@), id@),
        },
{
    let mut i: usize = 0;
    while i < keys.len()
        invariant
            i <= keys@.len(),
            forall|j: int| 0 <= j < i ==> keys@[j].id@ != id@,
        decreases keys@.len() - i,
    {
        if str_eq(keys[i].id.as_str(), id.as_str()) {
            return Some(i);
        }
        i = i + 1;
    }
    proof {
        if has_key(key_pairs(keys@), id@) {
            let j = choose|j: int| 0 <= j < key_pairs(keys@).len() && #[trigger] key_pairs(keys@)[j].0 == id@;
            assert(keys@[j].id@ == id@);
        }
    }
    None
}

/// Characters longer than every string in `lens`, ending in `x`: an id no existing
/// one can equal.
fn longer_than_all(ids: &Vec<String>) -> (r: String)
    ensures
        forall|j: int| 0 <= j < ids@.len() ==> ids@[j]@.len() < r@.len(),
{
    let mut out: Vec<char> = Vec::new();
    let mut i: usize = 0;
    while i < ids.len()
        invariant
            i <= ids@.len(),
            forall|j: int| 0 <= j < i ==> ids@[j]@.len() <= out@.len(),
        decreases ids@.len() - i,
    {
        push_str_chars(&mut out, ids[i].as_str());
        i = i + 1;
    }
    out.push('x');
    string_from_chars(&out)
}

/// An account id no account in `accounts` has.
fn fresh_account_id(accounts: &Vec<Account>) -> (r: AccountId)
    ensures
        !has_key(account_pairs(accounts@), r@),
{
    let candidate = AccountId::generate();
    if find_account(accounts, &candidate).is_none() {
        return candidate;
    }
    let mut ids: Vec<String> = Vec::new();
    let mut i: usize = 0;
    while i < accounts.len()
        invariant
            i <= accounts@.len(),
            ids@.len() == i,
            forall|j: int| 0 <= j < i ==> #[trigger] ids@[j]@ == accounts@[j].id@,
        decreases accounts@.len() - i,
    {
        ids.push(accounts[i].id.as_str().to_owned());
        i = i + 1;
    }
    let r = AccountId::from_raw(longer_than_all(&ids).as_str());
    proof {
        if has_key(account_pairs(accounts@), r@) {
            let j = choose|j: int|
                0 <= j < account_pairs(accounts@).len() && #[trigger] account_pairs(accounts@)[j].0 == r@;
            assert(ids@[j]@ == accounts@[j].id@);
        }
    }
    r
}

/// A seed id no seed in `seeds` has.
fn fresh_seed_id(seeds: &Vec<SeedSource>) -> (r: SeedId)
    ensures
        !has_key(seed_pairs(seeds@), r@),
{
    let candidate = SeedId::generate();
    if find_seed(seeds, &candidate).is_none() {
        return candidate;
    }
    let mut ids: Vec<String> = Vec::new();
    let mut i: usize = 0;
    while i < seeds.len()
        invariant
            i <= seeds@.len(),
            ids@.len() == i,
            forall|j: int| 0 <= j < i ==> #[trigger] ids@[j]@ == seeds@[j].id@,
        decreases seeds@.len() - i,
    {
        ids.push(seeds[i].id.as_str().to_owned());
        i = i + 1;
    }
    let r = SeedId::from_raw(longer_than_all(&ids).as_str());
    proof {
        if has_key(seed_pairs(seeds@), r@) {
            let j = choose|j: int| 0 <= j < seed_pairs(seeds@).len() && #[trigger] seed_pairs(seeds@)[j].0 == r@;
            assert(ids@[j]@ == seeds@[j].id@);
        }
    }
    r
}

/// A key id no key in `keys` has.
fn fresh_key_id(keys: &Vec<ImportedKey>) -> (r: KeyId)
    ensures
        !has_key(key_pairs(keys@), r@),
{
    let candidate = KeyId::generate();
    if find_key(keys, &candidate).is_none() {
        return candidate;
    }
    let mut ids: Vec<String> = Vec::new();
    let mut i: usize = 0;
    while i < keys.len()
        invariant
            i <= keys@.len(),
            ids@.len() == i,
            forall|j: int| 0 <= j < i ==> #[trigger] ids@[j]@ == keys@[j].id@,
        decreases keys@.len() - i,
    {
        ids.push(keys[i].id.as_str().to_owned());
        i = i + 1;
    }
    let r = KeyId::from_raw(longer_than_all(&ids).as_str());
    proof {
        if has_key(key_pairs(keys@), r@) {
            let j = choose|j: int| 0 <= j < key_pairs(keys@).len() && #[trigger] key_pairs(keys@)[j].0 == r@;
            assert(ids@[j]@ == keys@[j].id@);
        }
    }
    r
}


impl Wallet {
    /// Seeds, keys and accounts are each keyed by distinct ids.
    pub closed spec fn wf(&self) -> bool {
        self.manifest.wf()
    }

    /// Create a brand-new, empty wallet for `path`: a new vault (see [`Vault::new`])
    /// and a manifest whose tree is a single root group named `Wallet`. Fails with
    /// the vault's [`crate::vault::Error::InvalidParams`] when `params` are below the
    /// minimums.
    pub fn create(
        path: &str,
        password: &[u8],
        keyfile: Option<&[u8]>,
        params: KdfParams,
        chains: ChainRegistry,
    ) -> (r: Result<Self>)
        ensures
            r is Ok <==> params.meets_minimums(),
            r matches Err(e) ==> e matches Error::Vault(v) && v is InvalidParams,
            r matches Ok(w) ==> {
                &&& w.wf()
                &&& w@.vault == (VaultModel {
                    path: path@,
                    entries: Map::empty(),
                    params,
                    keyfile_secret: keyfile_digest(opt_bytes(keyfile)),
                    password: password@,
                })
                &&& w@.tree.nodes.dom() == set![w@.tree.root]
                &&& w@.tree.nodes[w@.tree.root].name == "Wallet"@
                &&& w@.tree.nodes[w@.tree.root].children.len() == 0
                &&& w@.seeds == Map::<Seq<char>, SeedSource>::empty()
                &&& w@.keys == Map::<Seq<char>, ImportedKey>::empty()
                &&& w@.accounts == Map::<Seq<char>, Account>::empty()
                &&& w@.chains == chains.registered()
            },
    {
        let vault = match Vault::new(path, password, keyfile, params) {
            Ok(v) => v,
            Err(e) => return Err(Error::Vault(e)),
        };
        let manifest = WalletManifest::new("Wallet");
        let w = Wallet { vault, manifest, chains };
        assert(w@.seeds =~= Map::<Seq<char>, SeedSource>::empty());
        assert(w@.keys =~= Map::<Seq<char>, ImportedKey>::empty());
        assert(w@.accounts =~= Map::<Seq<char>, Account>::empty());
        Ok(w)
    }

    /// Put an opened vault, the manifest decoded from it and the caller's chain
    /// registry together. Fails as [`WalletManifest::from_decoded`] does.
    pub fn from_parts(vault: Vault, manifest: WalletManifest, chains: ChainRegistry) -> (r: Result<Self>)
        ensures
            match r {
                Ok(w) => {
                    &&& w.wf()
                    &&& manifest.wf()
                    &&& manifest.version <= crate::wallet::manifest::MANIFEST_VERSION
                    &&& w@ == (WalletModel {
                        tree: manifest.tree@,
                        seeds: pairs_map(seed_pairs(manifest.seeds@)),
                        keys: pairs_map(key_pairs(manifest.keys@)),
                        accounts: pairs_map(account_pairs(manifest.accounts@)),
                        vault: vault@,
                        chains: chains.registered(),
                    })
                },
                Err(Error::ManifestVersion(v)) => v == manifest.version && manifest.version
                    > crate::wallet::manifest::MANIFEST_VERSION,
                Err(Error::ManifestDecode) => manifest.version
                    <= crate::wallet::manifest::MANIFEST_VERSION && !manifest.wf(),
                Err(_) => false,
            },
    {
        let WalletManifest { version, tree, seeds, keys, accounts } = manifest;
        let manifest = WalletManifest::from_decoded(version, tree, seeds, keys, accounts)?;
        Ok(Wallet { vault, manifest, chains })
    }

    /// Borrow the full non-secret organisational state.
    pub fn manifest(&self) -> (r: &WalletManifest)
        ensures
            r.tree@ == self@.tree,
            r.accounts@ == self.account_list(),
            pairs_map(seed_pairs(r.seeds@)) == self@.seeds,
            pairs_map(key_pairs(r.keys@)) == self@.keys,
            pairs_map(account_pairs(r.accounts@)) == self@.accounts,
    {
        &self.manifest
    }

    /// Borrow the group tree.
    pub fn tree(&self) -> (r: &GroupTree)
        ensures
            r@ == self@.tree,
    {
        &self.manifest.tree
    }

    /// Borrow the chain registry this wallet routes through.
    pub fn chains(&self) -> (r: &ChainRegistry)
        ensures
            r.registered() == self@.chains,
    {
        &self.chains
    }

    /// Borrow the backing vault, to seal and write it out.
    pub fn vault(&self) -> (r: &Vault)
        ensures
            r@ == self@.vault,
    {
        &self.vault
    }

    /// Store the encoded manifest in its vault entry, [`MANIFEST_ENTRY_ID`], ready
    /// for the vault to be sealed and written.
    pub fn stage_manifest(&mut self, encoded: &[u8])
        requires
            old(self).wf(),
        ensures
            final(self).wf(),
            final(self)@.vault.entries.contains_key(MANIFEST_ENTRY_ID@),
            final(self)@.vault.entries[MANIFEST_ENTRY_ID@].secret == encoded@,
            final(self)@.vault.entries == old(self)@.vault.entries.insert(
                MANIFEST_ENTRY_ID@,
                final(self)@.vault.entries[MANIFEST_ENTRY_ID@],
            ),
            final(self)@ == (WalletModel { vault: final(self)@.vault, ..old(self)@ }),
            final(self)@.vault == (VaultModel { entries: final(self)@.vault.entries, ..old(self)@.vault }),
    {
        let meta = Meta::new("wallet manifest");
        let _ = self.vault.put(MANIFEST_ENTRY_ID, encoded, meta);
    }

    // --- groups ------------------------------------------------------------------

    /// Add a child group under `parent`, returning its new id (see
    /// [`GroupTree::add`]).
    pub fn add_group(&mut self, parent: &GroupId, name: &str) -> (r: Result<GroupId>)
        requires
            old(self).wf(),
        ensures
            final(self).wf(),
            final(self)@ == (WalletModel { tree: final(self)@.tree, ..old(self)@ }),
            final(self)@.tree.root == old(self)@.tree.root,
            match r {
                Ok(id) => {
                    &&& old(self)@.tree.nodes.contains_key(parent@)
                    &&& !old(self)@.tree.nodes.contains_key(id@)
                    &&& final(self)@.tree.nodes == added(old(self)@.tree.nodes, parent@, id@, name@)
                },
                Err(e) => {
                    &&& !old(self)@.tree.nodes.contains_key(parent@)
                    &&& e matches Error::GroupNotFound(g) && g@ == parent@
                    &&& final(self)@.tree.nodes == old(self)@.tree.nodes
                },
            },
    {
        self.manifest.tree.add(parent, name)
    }

    /// Rename a group (see [`GroupTree::rename`]).
    pub fn rename_group(&mut self, id: &GroupId, name: &str) -> (r: Result<()>)
        requires
            old(self).wf(),
        ensures
            final(self).wf(),
            final(self)@ == (WalletModel { tree: final(self)@.tree, ..old(self)@ }),
            final(self)@.tree.root == old(self)@.tree.root,
            match r {
                Ok(()) => {
                    &&& old(self)@.tree.nodes.contains_key(id@)
                    &&& final(self)@.tree.nodes == old(self)@.tree.nodes.insert(
                        id@,
                        with_name(old(self)@.tree.nodes[id@], name@),
                    )
                },
                Err(e) => {
                    &&& !old(self)@.tree.nodes.contains_key(id@)
                    &&& e matches Error::GroupNotFound(g) && g@ == id@
                    &&& final(self)@.tree.nodes == old(self)@.tree.nodes
                },
            },
    {
        self.manifest.tree.rename(id, name)
    }

    /// Move a group and its whole subtree under a new parent (see
    /// [`GroupTree::move_node`]).
    pub fn move_group(&mut self, id: &GroupId, new_parent: &GroupId) -> (r: Result<()>)
        requires
            old(self).wf(),
        ensures
            final(self).wf(),
            final(self)@ == (WalletModel { tree: final(self)@.tree, ..old(self)@ }),
            final(self)@.tree.root == old(self)@.tree.root,
            r is Ok ==> final(self)@.tree.nodes == moved(old(self)@.tree.nodes, id@, new_parent@),
            r is Err ==> final(self)@.tree.nodes == old(self)@.tree.nodes,
            r is Ok <==> {
                &&& id@ != old(self)@.tree.root
                &&& old(self)@.tree.nodes.contains_key(id@)
                &&& old(self)@.tree.nodes.contains_key(new_parent@)
                &&& !crate::wallet::group::in_subtree(old(self)@.tree.nodes, new_parent@, id@)
            },
            r matches Err(e) ==> {
                if id@ == old(self)@.tree.root {
                    e is RootImmutable
                } else if !old(self)@.tree.nodes.contains_key(id@) {
                    e matches Error::GroupNotFound(g) && g@ == id@
                } else if !old(self)@.tree.nodes.contains_key(new_parent@) {
                    e matches Error::GroupNotFound(g) && g@ == new_parent@
                } else {
                    e is GroupCycle
                }
            },
    {
        self.manifest.tree.move_node(id, new_parent)
    }

    // --- visibility and lifecycle ------------------------------------------------

    /// Set the display flags of the account at position `i`.
    fn set_account_flags(&mut self, i: usize, hidden: bool, do_not_rederive: bool)
        requires
            old(self).wf(),
            i < old(self).manifest.accounts@.len(),
        ensures
            final(self).wf(),
            old(self)@.accounts.contains_key(old(self).manifest.accounts@[i as int].id@),
            final(self)@ == (WalletModel {
                accounts: old(self)@.accounts.insert(
                    old(self).manifest.accounts@[i as int].id@,
                    Account {
                        hidden,
                        do_not_rederive,
                        ..old(self)@.accounts[old(self).manifest.accounts@[i as int].id@]
                    },
                ),
                ..old(self)@
            }),
    {
        let ghost old_pairs = account_pairs(self.manifest.accounts@);
        proof {
            lemma_pairs_map_at(old_pairs, i as int);
        }
        let mut a = self.manifest.accounts.remove(i);
        a.hidden = hidden;
        a.do_not_rederive = do_not_rederive;
        let ghost av = a;
        self.manifest.accounts.insert(i, a);
        proof {
            assert(account_pairs(self.manifest.accounts@) =~= old_pairs.update(
                i as int,
                (old_pairs[i as int].0, av),
            ));
            lemma_pairs_map_update(old_pairs, i as int, av);
        }
    }

    /// Hide an account from normal listings. Hiding is cosmetic and reversible.
    pub fn hide_account(&mut self, id: &AccountId) -> (r: Result<()>)
        requires
            old(self).wf(),
        ensures
            final(self).wf(),
            match r {
                Ok(()) => {
                    &&& old(self)@.accounts.contains_key(id@)
                    &&& final(self)@ == (WalletModel {
                        accounts: old(self)@.accounts.insert(
                            id@,
                            Account { hidden: true, ..old(self)@.accounts[id@] },
                        ),
                        ..old(self)@
                    })
                },
                Err(e) => {
                    &&& !old(self)@.accounts.contains_key(id@)
                    &&& e matches Error::AccountNotFound(a) && a@ == id@
                    &&& final(self)@ == old(self)@
                },
            },
    {
        match find_account(&self.manifest.accounts, id) {
            Some(i) => {
                proof {
                    lemma_pairs_map_at(account_pairs(self.manifest.accounts@), i as int);
                }
                let dnr = self.manifest.accounts[i].do_not_rederive;
                self.set_account_flags(i, true, dnr);
                Ok(())
            },
            None => Err(Error::AccountNotFound(id.duplicate())),
        }
    }

    /// Reverse a previous [`Wallet::hide_account`]. A forgotten (tombstoned)
    /// account stays hidden: only a merely hidden one is shown again.
    pub fn unhide_account(&mut self, id: &AccountId) -> (r: Result<()>)
        requires
            old(self).wf(),
        ensures
            final(self).wf(),
            match r {
                Ok(()) => {
                    &&& old(self)@.accounts.contains_key(id@)
                    &&& final(self)@ == (WalletModel {
                        accounts: old(self)@.accounts.insert(
                            id@,
                            Account {
                                hidden: old(self)@.accounts[id@].do_not_rederive,
                                ..old(self)@.accounts[id@]
                            },
                        ),
                        ..old(self)@
                    })
                },
                Err(e) => {
                    &&& !old(self)@.accounts.contains_key(id@)
                    &&& e matches Error::AccountNotFound(a) && a@ == id@
                    &&& final(self)@ == old(self)@
                },
            },
    {
        match find_account(&self.manifest.accounts, id) {
            Some(i) => {
                proof {
                    lemma_pairs_map_at(account_pairs(self.manifest.accounts@), i as int);
                }
                let dnr = self.manifest.accounts[i].do_not_rederive;
                self.set_account_flags(i, dnr, dnr);
                Ok(())
            },
            None => Err(Error::AccountNotFound(id.duplicate())),
        }
    }

    /// Forget an account. A derived account is tombstoned: hidden and marked
    /// do-not-rederive, its index staying consumed. An imported account is deleted:
    /// its record, its key record and the key's vault entry are removed.
    pub fn forget_account(&mut self, id: &AccountId) -> (r: Result<ForgetOutcome>)
        requires
            old(self).wf(),
        ensures
            final(self).wf(),
            match r {
                Ok(ForgetOutcome::Tombstoned) => {
                    &&& old(self)@.accounts.contains_key(id@)
                    &&& old(self)@.accounts[id@].source is Derived
                    &&& final(self)@ == (WalletModel {
                        accounts: old(self)@.accounts.insert(
                            id@,
                            Account { hidden: true, do_not_rederive: true, ..old(self)@.accounts[id@] },
                        ),
                        ..old(self)@
                    })
                },
                Ok(ForgetOutcome::Deleted) => {
                    &&& old(self)@.accounts.contains_key(id@)
                    &&& old(self)@.accounts[id@].source matches AccountSource::Imported { key }
                        && final(self)@ == (WalletModel {
                        accounts: old(self)@.accounts.remove(id@),
                        keys: old(self)@.keys.remove(key@),
                        vault: VaultModel {
                            entries: old(self)@.vault.entries.remove(key_entry(key@)),
                            ..old(self)@.vault
                        },
                        ..old(self)@
                    })
                },
                Err(e) => {
                    &&& !old(self)@.accounts.contains_key(id@)
                    &&& e matches Error::AccountNotFound(a) && a@ == id@
                    &&& final(self)@ == old(self)@
                },
            },
    {
        let i = match find_account(&self.manifest.accounts, id) {
            Some(i) => i,
            None => return Err(Error::AccountNotFound(id.duplicate())),
        };
        let ghost old_pairs = account_pairs(self.manifest.accounts@);
        proof {
            lemma_pairs_map_at(old_pairs, i as int);
        }
        let key = match &self.manifest.accounts[i].source {
            AccountSource::Derived { .. } => {
                self.set_account_flags(i, true, true);
                return Ok(ForgetOutcome::Tombstoned);
            },
            AccountSource::Imported { key } => key.duplicate(),
        };
        let _ = self.manifest.accounts.remove(i);
        proof {
            assert(account_pairs(self.manifest.accounts@) =~= old_pairs.remove(i as int));
            lemma_pairs_map_remove(old_pairs, i as int);
        }
        let ghost key_pairs_before = key_pairs(self.manifest.keys@);
        match find_key(&self.manifest.keys, &key) {
            Some(k) => {
                let _ = self.manifest.keys.remove(k);
                proof {
                    assert(key_pairs(self.manifest.keys@) =~= key_pairs_before.remove(k as int));
                    lemma_pairs_map_remove(key_pairs_before, k as int);
                }
            },
            None => {
                assert(pairs_map(key_pairs_before).remove(key@) =~= pairs_map(key_pairs_before));
            },
        }
        let entry_id = key_entry_id(&key);
        let _ = self.vault.remove(entry_id.as_str());
        assert(self@.vault =~= (VaultModel {
            entries: old(self)@.vault.entries.remove(key_entry(key@)),
            ..old(self)@.vault
        }));
        Ok(ForgetOutcome::Deleted)
    }

    // --- seeds -------------------------------------------------------------------

    /// Register a new seed for a chain family from its mnemonic, returning its id.
    ///
    /// The mnemonic is written to the seed's vault entry (see [`seed_entry_id`]) and
    /// a seed source with `next_index` 0 and no notes or tags joins the manifest.
    pub fn add_seed(
        &mut self,
        chain: ChainKind,
        label: &str,
        scheme: DerivationScheme,
        passphrase_protected: bool,
        mnemonic: &[u8],
    ) -> (r: Result<SeedId>)
        requires
            old(self).wf(),
        ensures
            final(self).wf(),
            r is Ok,
            r matches Ok(id) ==> {
                &&& !old(self)@.seeds.contains_key(id@)
                &&& final(self)@.seeds == old(self)@.seeds.insert(id@, final(self)@.seeds[id@])
                &&& final(self)@.seeds[id@].id@ == id@
                &&& final(self)@.seeds[id@].chain == chain
                &&& final(self)@.seeds[id@].label@ == label@
                &&& final(self)@.seeds[id@].notes@.len() == 0
                &&& final(self)@.seeds[id@].tags@.len() == 0
                &&& final(self)@.seeds[id@].passphrase_protected == passphrase_protected
                &&& final(self)@.seeds[id@].next_index == 0
                &&& final(self)@.seeds[id@].derivation_scheme == scheme
                &&& final(self)@.vault.entries == old(self)@.vault.entries.insert(
                    seed_entry(id@),
                    final(self)@.vault.entries[seed_entry(id@)],
                )
                &&& final(self)@.vault.entries[seed_entry(id@)].secret == mnemonic@
                &&& final(self)@.vault.entries[seed_entry(id@)].meta.name@ == label@
                &&& final(self)@.vault == (VaultModel {
                    entries: final(self)@.vault.entries,
                    ..old(self)@.vault
                })
                &&& final(self)@ == (WalletModel {
                    seeds: final(self)@.seeds,
                    vault: final(self)@.vault,
                    ..old(self)@
                })
            },
    {
        let id = fresh_seed_id(&self.manifest.seeds);
        let entry_id = seed_entry_id(&id);
        let _ = self.vault.put(entry_id.as_str(), mnemonic, Meta::new(label));
        let seed = SeedSource {
            id: id.duplicate(),
            chain,
            label: label.to_owned(),
            notes: String::new(),
            tags: Vec::new(),
            passphrase_protected,
            next_index: 0,
            derivation_scheme: scheme,
        };
        let ghost sv = seed;
        let ghost old_pairs = seed_pairs(self.manifest.seeds@);
        self.manifest.seeds.push(seed);
        proof {
            assert(seed_pairs(self.manifest.seeds@) =~= old_pairs.push((id@, sv)));
            lemma_pairs_map_push(old_pairs, id@, sv);
        }
        Ok(id)
    }

    // --- imported keys -----------------------------------------------------------

    /// Import a standalone private key for a chain family, filed under `group`,
    /// returning the id of the single account it produces.
    ///
    /// Fails with [`Error::GroupNotFound`] for an unknown group, with
    /// [`Error::ChainNotRegistered`] when no implementation serves `chain`, and with
    /// whatever error the chain gives when it cannot compute the key's address. On
    /// success the key is written to its vault entry (see [`key_entry_id`]) and an
    /// imported-key record plus one account join the manifest.
    pub fn import_key(
        &mut self,
        chain: ChainKind,
        label: &str,
        private_key: &[u8],
        group: &GroupId,
    ) -> (r: Result<AccountId>)
        requires
            old(self).wf(),
        ensures
            final(self).wf(),
            r is Ok ==> old(self)@.tree.nodes.contains_key(group@) && old(self)@.chains.contains(chain),
            r matches Err(e) ==> {
                &&& final(self)@ == old(self)@
                &&& !old(self)@.tree.nodes.contains_key(group@) ==> (e matches Error::GroupNotFound(g)
                    && g@ == group@)
                &&& old(self)@.tree.nodes.contains_key(group@) && !old(self)@.chains.contains(chain)
                    ==> (e matches Error::ChainNotRegistered(k) && k == chain)
            },
            r matches Ok(aid) ==> {
                &&& !old(self)@.accounts.contains_key(aid@)
                &&& final(self)@.accounts == old(self)@.accounts.insert(aid@, final(self)@.accounts[aid@])
                &&& final(self)@.accounts[aid@].id@ == aid@
                &&& old(self).chain_for(chain) matches Some(c) && c.imports(
                    private_key@,
                    final(self)@.accounts[aid@].address@,
                )
                &&& final(self)@.accounts[aid@].source matches AccountSource::Imported { key } && {
                    &&& fresh_imported(final(self)@.accounts[aid@], key@, chain, group@, label@)
                    &&& !old(self)@.keys.contains_key(key@)
                    &&& final(self)@.keys == old(self)@.keys.insert(key@, final(self)@.keys[key@])
                    &&& final(self)@.keys[key@].id@ == key@
                    &&& final(self)@.keys[key@].chain == chain
                    &&& final(self)@.keys[key@].label@ == label@
                    &&& final(self)@.keys[key@].notes@.len() == 0
                    &&& final(self)@.keys[key@].tags@.len() == 0
                    &&& final(self)@.keys[key@].address@ == final(self)@.accounts[aid@].address@
                    &&& final(self)@.vault.entries == old(self)@.vault.entries.insert(
                        key_entry(key@),
                        final(self)@.vault.entries[key_entry(key@)],
                    )
                    &&& final(self)@.vault.entries[key_entry(key@)].secret == private_key@
                    &&& final(self)@.vault.entries[key_entry(key@)].meta.name@ == label@
                }
                &&& final(self)@.vault == (VaultModel {
                    entries: final(self)@.vault.entries,
                    ..old(self)@.vault
                })
                &&& final(self)@ == (WalletModel {
                    accounts: final(self)@.accounts,
                    keys: final(self)@.keys,
                    vault: final(self)@.vault,
                    ..old(self)@
                })
            },
    {
        if self.manifest.tree.get(group).is_none() {
            return Err(Error::GroupNotFound(group.duplicate()));
        }
        let address = match self.chains.slot(chain) {
            Some(c) => c.import_address(private_key)?,
            None => return Err(Error::ChainNotRegistered(chain)),
        };
        let kid = fresh_key_id(&self.manifest.keys);
        let aid = fresh_account_id(&self.manifest.accounts);
        let entry_id = key_entry_id(&kid);
        let _ = self.vault.put(entry_id.as_str(), private_key, Meta::new(label));
        let key = ImportedKey {
            id: kid.duplicate(),
            chain,
            label: label.to_owned(),
            notes: String::new(),
            tags: Vec::new(),
            address: address.duplicate(),
        };
        let account = Account {
            id: aid.duplicate(),
            chain,
            address,
            source: AccountSource::Imported { key: kid },
            group: group.duplicate(),
            label: label.to_owned(),
            hidden: false,
            do_not_rederive: false,
            notes: String::new(),
            tags: Vec::new(),
        };
        let ghost kv = key;
        let ghost av = account;
        let ghost old_keys = key_pairs(self.manifest.keys@);
        let ghost old_accounts = account_pairs(self.manifest.accounts@);
        self.manifest.keys.push(key);
        self.manifest.accounts.push(account);
        proof {
            assert(key_pairs(self.manifest.keys@) =~= old_keys.push((kv.id@, kv)));
            lemma_pairs_map_push(old_keys, kv.id@, kv);
            assert(account_pairs(self.manifest.accounts@) =~= old_accounts.push((aid@, av)));
            lemma_pairs_map_push(old_accounts, aid@, av);
        }
        Ok(aid)
    }

    // --- export (gated) ----------------------------------------------------------

    /// Reveal a seed's mnemonic. Gated: `reauth` must be the vault password, else
    /// the call fails with [`Error::Reauth`] and reveals nothing.
    pub fn export_seed(&self, seed: &SeedId, reauth: &[u8]) -> (r: Result<SecretBytes>)
        requires
            self.wf(),
        ensures
            match r {
                Ok(s) => {
                    &&& reauth@ == self@.vault.password
                    &&& self@.seeds.contains_key(seed@)
                    &&& self@.vault.entries.contains_key(seed_entry(seed@))
                    &&& s@ == self@.vault.entries[seed_entry(seed@)].secret
                },
                Err(e) => if reauth@ != self@.vault.password {
                    e is Reauth
                } else if !self@.seeds.contains_key(seed@) {
                    e matches Error::SeedNotFound(x) && x@ == seed@
                } else {
                    &&& !self@.vault.entries.contains_key(seed_entry(seed@))
                    &&& e matches Error::Vault(v) && v is NotFound
                },
            },
    {
        if !self.vault.verify_password(reauth) {
            return Err(Error::Reauth);
        }
        if find_seed(&self.manifest.seeds, seed).is_none() {
            return Err(Error::SeedNotFound(seed.duplicate()));
        }
        proof {
            let i = choose|i: int| 0 <= i < self.manifest.seeds@.len() && self.manifest.seeds@[i].id@ == seed@;
            lemma_pairs_map_at(seed_pairs(self.manifest.seeds@), i);
        }
        let entry_id = seed_entry_id(seed);
        match self.vault.get(entry_id.as_str()) {
            Some(e) => Ok(SecretBytes::new(e.secret())),
            None => Err(Error::Vault(crate::vault::Error::NotFound)),
        }
    }

    /// Reveal an imported key's private scalar. Gated exactly as
    /// [`Wallet::export_seed`].
    pub fn export_key(&self, key: &KeyId, reauth: &[u8]) -> (r: Result<SecretBytes>)
        requires
            self.wf(),
        ensures
            match r {
                Ok(s) => {
                    &&& reauth@ == self@.vault.password
                    &&& self@.keys.contains_key(key@)
                    &&& self@.vault.entries.contains_key(key_entry(key@))
                    &&& s@ == self@.vault.entries[key_entry(key@)].secret
                },
                Err(e) => if reauth@ != self@.vault.password {
                    e is Reauth
                } else if !self@.keys.contains_key(key@) {
                    e matches Error::KeyNotFound(x) && x@ == key@
                } else {
                    &&& !self@.vault.entries.contains_key(key_entry(key@))
                    &&& e matches Error::Vault(v) && v is NotFound
                },
            },
    {
        if !self.vault.verify_password(reauth) {
            return Err(Error::Reauth);
        }
        match find_key(&self.manifest.keys, key) {
            Some(i) => {
                proof {
                    lemma_pairs_map_at(key_pairs(self.manifest.keys@), i as int);
                }
            },
            None => return Err(Error::KeyNotFound(key.duplicate())),
        }
        let entry_id = key_entry_id(key);
        match self.vault.get(entry_id.as_str()) {
            Some(e) => Ok(SecretBytes::new(e.secret())),
            None => Err(Error::Vault(crate::vault::Error::NotFound)),
        }
    }

    // --- derivation --------------------------------------------------------------

    /// Derive account `index` of the seed at position `si` into `group`, filing the
    /// new account and setting the seed's cursor to `next`. The registered chain
    /// derives the address from the seed's secret entry and the scheme's path.
    fn derive_into(&mut self, si: usize, index: u32, group: &GroupId, label: &str, next: u32) -> (r: Result<AccountId>)
        requires
            old(self).wf(),
            si < old(self).manifest.seeds@.len(),
            old(self)@.tree.nodes.contains_key(group@),
            old(self)@.chains.contains(old(self).manifest.seeds@[si as int].chain),
        ensures
            final(self).wf(),
            r is Err ==> final(self)@ == old(self)@,
            r matches Ok(aid) ==> {
                let sd = old(self).manifest.seeds@[si as int];
                &&& old(self)@.vault.entries.contains_key(seed_entry(sd.id@))
                &&& old(self).chain_for(sd.chain) matches Some(c) && c.derives(
                    old(self)@.vault.entries[seed_entry(sd.id@)].secret,
                    path_chars(sd.derivation_scheme, index),
                    final(self)@.accounts[aid@].address@,
                )
                &&& filed_derived(old(self)@, final(self)@, aid@, sd, index, group@, label@, next)
            },
    {
        let chain_kind = self.manifest.seeds[si].chain;
        let path = self.manifest.seeds[si].derivation_scheme.path_for(index);
        let seed_id = self.manifest.seeds[si].id.duplicate();
        let entry_id = seed_entry_id(&seed_id);
        let address = match self.vault.get(entry_id.as_str()) {
            Some(e) => match self.chains.slot(chain_kind) {
                Some(c) => c.derive_address(e.secret(), &path)?,
                None => return Err(Error::ChainNotRegistered(chain_kind)),
            },
            None => return Err(Error::Vault(crate::vault::Error::NotFound)),
        };
        let ghost derived = address@;
        let ghost before = *self;
        let aid = self.file_derived(si, index, group, label, next, address);
        proof {
            assert(before.chain_for(chain_kind) == self.chain_for(chain_kind));
        }
        Ok(aid)
    }

    /// File a derived account for index `index` of the seed at position `si` into
    /// `group`, with the address the chain derived, and set the seed's cursor to
    /// `next`.
    fn file_derived(
        &mut self,
        si: usize,
        index: u32,
        group: &GroupId,
        label: &str,
        next: u32,
        address: ChainAddress,
    ) -> (aid: AccountId)
        requires
            old(self).wf(),
            si < old(self).manifest.seeds@.len(),
            old(self)@.tree.nodes.contains_key(group@),
            old(self)@.chains.contains(old(self).manifest.seeds@[si as int].chain),
        ensures
            final(self).wf(),
            final(self).chains == old(self).chains,
            final(self)@.accounts[aid@].address == address,
            filed_derived(
                old(self)@,
                final(self)@,
                aid@,
                old(self).manifest.seeds@[si as int],
                index,
                group@,
                label@,
                next,
            ),
    {
        let chain_kind = self.manifest.seeds[si].chain;
        let path = self.manifest.seeds[si].derivation_scheme.path_for(index);
        let seed_id = self.manifest.seeds[si].id.duplicate();
        let aid = fresh_account_id(&self.manifest.accounts);
        let account = Account {
            id: aid.duplicate(),
            chain: chain_kind,
            address,
            source: AccountSource::Derived { seed: seed_id, index, path },
            group: group.duplicate(),
            label: label.to_owned(),
            hidden: false,
            do_not_rederive: false,
            notes: String::new(),
            tags: Vec::new(),
        };
        let ghost av = account;
        let ghost old_accounts = account_pairs(self.manifest.accounts@);
        self.manifest.accounts.push(account);
        proof {
            assert(account_pairs(self.manifest.accounts@) =~= old_accounts.push((aid@, av)));
            lemma_pairs_map_push(old_accounts, aid@, av);
        }
        let ghost old_seeds = seed_pairs(self.manifest.seeds@);
        proof {
            lemma_pairs_map_at(old_seeds, si as int);
        }
        let mut sd = self.manifest.seeds.remove(si);
        sd.next_index = next;
        let ghost sv = sd;
        self.manifest.seeds.insert(si, sd);
        proof {
            assert(seed_pairs(self.manifest.seeds@) =~= old_seeds.update(si as int, (old_seeds[si as int].0, sv)));
            lemma_pairs_map_update(old_seeds, si as int, sv);
        }
        aid
    }

    /// Derive the seed's next account, filed under `group`, advancing the seed's
    /// `next_index` cursor.
    ///
    /// The index used is the first at or after the cursor that no account of this
    /// seed, live or tombstoned, has consumed, so a forgotten index is never
    /// reissued; the cursor then moves just past it. Fails with
    /// [`Error::SeedNotFound`], [`Error::GroupNotFound`] or
    /// [`Error::ChainNotRegistered`] for an unknown seed, group or family; with
    /// [`Error::Derivation`] when no index up to the largest is left, and also when
    /// the largest index is the one found, since the cursor could not move past it;
    /// with the vault's `NotFound` when the seed's secret entry is missing; and with
    /// whatever the chain gives when it cannot derive the address.
    pub fn derive_next_account(&mut self, seed: &SeedId, group: &GroupId, label: &str) -> (r: Result<AccountId>)
        requires
            old(self).wf(),
        ensures
            final(self).wf(),
            r matches Err(e) ==> {
                &&& final(self)@ == old(self)@
                &&& !old(self)@.seeds.contains_key(seed@) ==> (e matches Error::SeedNotFound(x) && x@ == seed@)
                &&& old(self)@.seeds.contains_key(seed@) && !old(self)@.tree.nodes.contains_key(group@)
                    ==> (e matches Error::GroupNotFound(g) && g@ == group@)
                &&& old(self)@.seeds.contains_key(seed@) && old(self)@.tree.nodes.contains_key(group@)
                    && !old(self)@.chains.contains(old(self)@.seeds[seed@].chain) ==> (e matches Error::ChainNotRegistered(k)
                    && k == old(self)@.seeds[seed@].chain)
            },
            r matches Ok(aid) ==> {
                let sd = old(self)@.seeds[seed@];
                &&& old(self)@.seeds.contains_key(seed@)
                &&& old(self)@.tree.nodes.contains_key(group@)
                &&& old(self)@.chains.contains(sd.chain)
                &&& !old(self)@.accounts.contains_key(aid@)
                &&& final(self)@.accounts == old(self)@.accounts.insert(aid@, final(self)@.accounts[aid@])
                &&& final(self)@.accounts[aid@].id@ == aid@
                &&& final(self)@.accounts[aid@].source matches AccountSource::Derived { index, .. } && {
                    &&& first_free(old(self)@.accounts, seed@, sd.next_index, index)
                    &&& index < u32::MAX
                    &&& fresh_derived(
                        final(self)@.accounts[aid@],
                        seed@,
                        index,
                        path_chars(sd.derivation_scheme, index),
                        sd.chain,
                        group@,
                        label@,
                    )
                    &&& final(self)@.seeds == old(self)@.seeds.insert(
                        seed@,
                        SeedSource { next_index: (index + 1) as u32, ..sd },
                    )
                    &&& old(self)@.vault.entries.contains_key(seed_entry(seed@))
                    &&& old(self).chain_for(sd.chain) matches Some(c) && c.derives(
                        old(self)@.vault.entries[seed_entry(seed@)].secret,
                        path_chars(sd.derivation_scheme, index),
                        final(self)@.accounts[aid@].address@,
                    )
                }
                &&& final(self)@ == (WalletModel {
                    accounts: final(self)@.accounts,
                    seeds: final(self)@.seeds,
                    ..old(self)@
                })
            },
    {
        let si = match find_seed(&self.manifest.seeds, seed) {
            Some(i) => i,
            None => return Err(Error::SeedNotFound(seed.duplicate())),
        };
        proof {
            lemma_pairs_map_at(seed_pairs(self.manifest.seeds@), si as int);
        }
        if self.manifest.tree.get(group).is_none() {
            return Err(Error::GroupNotFound(group.duplicate()));
        }
        let chain_kind = self.manifest.seeds[si].chain;
        if !self.chains.contains(chain_kind) {
            return Err(Error::ChainNotRegistered(chain_kind));
        }
        let start = self.manifest.seeds[si].next_index;
        let index = match next_free_index(&self.manifest.accounts, seed, start) {
            Some(i) => i,
            None => return Err(Error::Derivation),
        };
        if index == u32::MAX {
            return Err(Error::Derivation);
        }
        self.derive_into(si, index, group, label, index + 1)
    }

    /// Derive a specific account index from a seed, filed under `group`.
    ///
    /// The cursor moves only when `index` is at or beyond it, to just past `index`
    /// (it stays at the largest index when `index` is the largest). Fails with
    /// [`Error::Derivation`] when a live (not tombstoned) account already holds that
    /// index; otherwise fails as [`Wallet::derive_next_account`] does.
    pub fn derive_account_at(&mut self, seed: &SeedId, index: u32, group: &GroupId, label: &str) -> (r: Result<AccountId>)
        requires
            old(self).wf(),
        ensures
            final(self).wf(),
            r matches Err(e) ==> {
                &&& final(self)@ == old(self)@
                &&& !old(self)@.seeds.contains_key(seed@) ==> (e matches Error::SeedNotFound(x) && x@ == seed@)
                &&& old(self)@.seeds.contains_key(seed@) && !old(self)@.tree.nodes.contains_key(group@)
                    ==> (e matches Error::GroupNotFound(g) && g@ == group@)
                &&& old(self)@.seeds.contains_key(seed@) && old(self)@.tree.nodes.contains_key(group@)
                    && !old(self)@.chains.contains(old(self)@.seeds[seed@].chain) ==> (e matches Error::ChainNotRegistered(k)
                    && k == old(self)@.seeds[seed@].chain)
                &&& old(self)@.seeds.contains_key(seed@) && old(self)@.tree.nodes.contains_key(group@)
                    && old(self)@.chains.contains(old(self)@.seeds[seed@].chain) && index_live(
                    old(self)@.accounts,
                    seed@,
                    index,
                ) ==> e is Derivation
            },
            r matches Ok(aid) ==> {
                let sd = old(self)@.seeds[seed@];
                &&& old(self)@.seeds.contains_key(seed@)
                &&& old(self)@.tree.nodes.contains_key(group@)
                &&& old(self)@.chains.contains(sd.chain)
                &&& !index_live(old(self)@.accounts, seed@, index)
                &&& !old(self)@.accounts.contains_key(aid@)
                &&& final(self)@.accounts == old(self)@.accounts.insert(aid@, final(self)@.accounts[aid@])
                &&& final(self)@.accounts[aid@].id@ == aid@
                &&& fresh_derived(
                    final(self)@.accounts[aid@],
                    seed@,
                    index,
                    path_chars(sd.derivation_scheme, index),
                    sd.chain,
                    group@,
                    label@,
                )
                &&& old(self)@.vault.entries.contains_key(seed_entry(seed@))
                &&& old(self).chain_for(sd.chain) matches Some(c) && c.derives(
                    old(self)@.vault.entries[seed_entry(seed@)].secret,
                    path_chars(sd.derivation_scheme, index),
                    final(self)@.accounts[aid@].address@,
                )
                &&& final(self)@.seeds == old(self)@.seeds.insert(
                    seed@,
                    SeedSource {
                        next_index: if index < sd.next_index {
                            sd.next_index
                        } else if index == u32::MAX {
                            index
                        } else {
                            (index + 1) as u32
                        },
                        ..sd
                    },
                )
                &&& final(self)@ == (WalletModel {
                    accounts: final(self)@.accounts,
                    seeds: final(self)@.seeds,
                    ..old(self)@
                })
            },
    {
        let si = match find_seed(&self.manifest.seeds, seed) {
            Some(i) => i,
            None => return Err(Error::SeedNotFound(seed.duplicate())),
        };
        proof {
            lemma_pairs_map_at(seed_pairs(self.manifest.seeds@), si as int);
        }
        if self.manifest.tree.get(group).is_none() {
            return Err(Error::GroupNotFound(group.duplicate()));
        }
        let chain_kind = self.manifest.seeds[si].chain;
        if !self.chains.contains(chain_kind) {
            return Err(Error::ChainNotRegistered(chain_kind));
        }
        if index_taken(&self.manifest.accounts, seed, index, true) {
            return Err(Error::Derivation);
        }
        let current = self.manifest.seeds[si].next_index;
        let next = if index < current {
            current
        } else if index == u32::MAX {
            index
        } else {
            index + 1
        };
        self.derive_into(si, index, group, label, next)
    }

    // --- signing -----------------------------------------------------------------

    /// Sign a chain-tagged payload with an account's key, returning the raw
    /// signature bytes the chain produced.
    ///
    /// Fails with [`Error::AccountNotFound`] for an unknown account, with
    /// [`Error::ChainMismatch`] when the payload's chain is not the account's, with
    /// [`Error::ChainNotRegistered`] when no implementation serves the family, and
    /// with the vault's `NotFound` when the account's secret entry is missing.
    /// Otherwise the chain signs with the seed material and path (derived) or the
    /// raw key (imported), and its result is returned.
    pub fn sign(&self, account: &AccountId, payload: &SigningPayload) -> (r: Result<Vec<u8>>)
        requires
            self.wf(),
        ensures
            r is Ok ==> {
                &&& self@.accounts.contains_key(account@)
                &&& payload.chain == self@.accounts[account@].chain
                &&& self@.chains.contains(payload.chain)
                &&& self@.vault.entries.contains_key(secret_entry(self@.accounts[account@]))
            },
            r matches Ok(s) ==> self.chain_for(payload.chain) matches Some(c) && match self@.accounts[account@].source {
                AccountSource::Derived { seed, path, .. } => c.signs_derived(
                    self@.vault.entries[seed_entry(seed@)].secret,
                    path@,
                    *payload,
                    s@,
                ),
                AccountSource::Imported { key } => c.signs_imported(
                    self@.vault.entries[key_entry(key@)].secret,
                    *payload,
                    s@,
                ),
            },
            r matches Err(e) ==> {
                if !self@.accounts.contains_key(account@) {
                    e matches Error::AccountNotFound(a) && a@ == account@
                } else if payload.chain != self@.accounts[account@].chain {
                    e is ChainMismatch
                } else if !self@.chains.contains(payload.chain) {
                    e matches Error::ChainNotRegistered(k) && k == payload.chain
                } else if !self@.vault.entries.contains_key(secret_entry(self@.accounts[account@])) {
                    e matches Error::Vault(v) && v is NotFound
                } else {
                    true
                }
            },
    {
        let i = match find_account(&self.manifest.accounts, account) {
            Some(i) => i,
            None => return Err(Error::AccountNotFound(account.duplicate())),
        };
        proof {
            lemma_pairs_map_at(account_pairs(self.manifest.accounts@), i as int);
        }
        let a = &self.manifest.accounts[i];
        if payload.chain != a.chain {
            return Err(Error::ChainMismatch);
        }
        let c = match self.chains.slot(a.chain) {
            Some(c) => c,
            None => return Err(Error::ChainNotRegistered(a.chain)),
        };
        match &a.source {
            AccountSource::Derived { seed, path, .. } => {
                let entry_id = seed_entry_id(seed);
                match self.vault.get(entry_id.as_str()) {
                    Some(e) => c.sign(AccountSecret::Derived { seed_material: e.secret(), path }, payload),
                    None => Err(Error::Vault(crate::vault::Error::NotFound)),
                }
            },
            AccountSource::Imported { key } => {
                let entry_id = key_entry_id(key);
                match self.vault.get(entry_id.as_str()) {
                    Some(e) => c.sign(AccountSecret::Imported { private_key: e.secret() }, payload),
                    None => Err(Error::Vault(crate::vault::Error::NotFound)),
                }
            },
        }
    }

    // --- public export -----------------------------------------------------------

    /// The accounts in their stored order.
    pub closed spec fn account_list(&self) -> Seq<Account> {
        self.manifest.accounts@
    }

    /// Every account, as listed: each appears once and the list denotes the
    /// account map.
    pub proof fn lemma_account_list(&self)
        requires
            self.wf(),
        ensures
            distinct_keys(account_pairs(self.account_list())),
            pairs_map(account_pairs(self.account_list())) == self@.accounts,
    {
    }

    /// Export public account data as CSV: a header line, then one line per account
    /// in stored order with its id, family, address, label, derivation path (empty
    /// for an imported key), group, and hidden and tombstone flags. Fields holding a
    /// comma, quote or line break are quoted with quotes doubled. Not gated: it
    /// discloses no secret. Hidden and tombstoned accounts are included, flagged.
    pub fn export_public_csv(&self) -> (r: Result<String>)
        requires
            self.wf(),
        ensures
            r matches Ok(t) && t@ == csv_header() + csv_lines(self.account_list()),
    {
        let mut out: Vec<char> = Vec::new();
        push_str_chars(&mut out, "id,chain,address,label,path,group,hidden,tombstoned\n");
        let accounts = &self.manifest.accounts;
        let mut i: usize = 0;
        while i < accounts.len()
            invariant
                i <= accounts@.len(),
                accounts@ == self.account_list(),
                out@ == csv_header() + csv_lines(accounts@.subrange(0, i as int)),
            decreases accounts@.len() - i,
        {
            proof {
                assert(accounts@.subrange(0, i + 1).drop_last() =~= accounts@.subrange(0, i as int));
            }
            push_csv_line(&mut out, &accounts[i]);
            i = i + 1;
            assert(out@ =~= csv_header() + csv_lines(accounts@.subrange(0, i as int)));
        }
        assert(accounts@.subrange(0, i as int) =~= accounts@);
        Ok(string_from_chars(&out))
    }

    // --- group removal -----------------------------------------------------------

    /// Whether some account is filed directly in group `id`.
    fn has_account_in(&self, id: &GroupId) -> (r: bool)
        requires
            self.wf(),
        ensures
            r == exists|k: Seq<char>| #[trigger] self@.accounts.contains_key(k) && self@.accounts[k].group@ == id@,
    {
        let accounts = &self.manifest.accounts;
        let mut i: usize = 0;
        while i < accounts.len()
            invariant
                i <= accounts@.len(),
                accounts@ == self.manifest.accounts@,
                self.wf(),
                forall|j: int| 0 <= j < i ==> (#[trigger] accounts@[j]).group@ != id@,
            decreases accounts@.len() - i,
        {
            if str_eq(accounts[i].group.as_str(), id.as_str()) {
                proof {
                    lemma_pairs_map_at(account_pairs(accounts@), i as int);
                    assert(self@.accounts.contains_key(accounts@[i as int].id@));
                }
                return true;
            }
            i = i + 1;
        }
        proof {
            assert forall|k: Seq<char>| #[trigger] self@.accounts.contains_key(k) implies self@.accounts[k].group@ != id@ by {
                let j = choose|j: int| 0 <= j < account_pairs(accounts@).len() && #[trigger] account_pairs(accounts@)[j].0 == k;
                lemma_pairs_map_at(account_pairs(accounts@), j);
                assert(accounts@[j].group@ != id@);
            }
        }
        false
    }

    /// Re-file every account of group `from` under `to`.
    fn regroup_accounts(&mut self, from: &GroupId, to: &GroupId)
        requires
            old(self).wf(),
        ensures
            final(self).wf(),
            final(self)@ == (WalletModel { accounts: final(self)@.accounts, ..old(self)@ }),
            final(self)@.accounts.dom() == old(self)@.accounts.dom(),
            forall|k: Seq<char>| #[trigger] old(self)@.accounts.contains_key(k) ==> if old(self)@.accounts[k].group@ == from@ {
                &&& final(self)@.accounts[k] == Account { group: final(self)@.accounts[k].group, ..old(self)@.accounts[k] }
                &&& final(self)@.accounts[k].group@ == to@
            } else {
                final(self)@.accounts[k] == old(self)@.accounts[k]
            },
    {
        let ghost s0 = self.manifest.accounts@;
        let mut i: usize = 0;
        while i < self.manifest.accounts.len()
            invariant
                i <= self.manifest.accounts@.len(),
                self.manifest.accounts@.len() == s0.len(),
                self.wf(),
                self@ == (WalletModel { accounts: self@.accounts, ..old(self)@ }),
                s0 == old(self).manifest.accounts@,
                forall|j: int| 0 <= j < s0.len() ==> (#[trigger] self.manifest.accounts@[j]).id@ == s0[j].id@,
                forall|j: int| i <= j < s0.len() ==> #[trigger] self.manifest.accounts@[j] == s0[j],
                forall|j: int| 0 <= j < i ==> if s0[j].group@ == from@ {
                    &&& #[trigger] self.manifest.accounts@[j] == Account { group: self.manifest.accounts@[j].group, ..s0[j] }
                    &&& self.manifest.accounts@[j].group@ == to@
                } else {
                    self.manifest.accounts@[j] == s0[j]
                },
            decreases s0.len() - i,
        {
            if str_eq(self.manifest.accounts[i].group.as_str(), from.as_str()) {
                let ghost old_pairs = account_pairs(self.manifest.accounts@);
                let mut a = self.manifest.accounts.remove(i);
                a.group = to.duplicate();
                let ghost av = a;
                self.manifest.accounts.insert(i, a);
                proof {
                    assert(account_pairs(self.manifest.accounts@) =~= old_pairs.update(
                        i as int,
                        (old_pairs[i as int].0, av),
                    ));
                    lemma_pairs_map_update(old_pairs, i as int, av);
                }
            }
            i = i + 1;
        }
        proof {
            let m0 = old(self)@.accounts;
            let m1 = self@.accounts;
            assert forall|k: Seq<char>| #[trigger] m0.contains_key(k) implies m1.contains_key(k) && (if m0[k].group@ == from@ {
                &&& m1[k] == Account { group: m1[k].group, ..m0[k] }
                &&& m1[k].group@ == to@
            } else {
                m1[k] == m0[k]
            }) by {
                let j = choose|j: int| 0 <= j < account_pairs(s0).len() && #[trigger] account_pairs(s0)[j].0 == k;
                lemma_pairs_map_at(account_pairs(s0), j);
                lemma_pairs_map_at(account_pairs(self.manifest.accounts@), j);
            }
            assert forall|k: Seq<char>| m1.contains_key(k) implies m0.contains_key(k) by {
                let j = choose|j: int| 0 <= j < account_pairs(self.manifest.accounts@).len()
                    && #[trigger] account_pairs(self.manifest.accounts@)[j].0 == k;
                lemma_pairs_map_at(account_pairs(s0), j);
            }
            assert(m1.dom() =~= m0.dom());
        }
    }

    /// Tombstone the derived accounts filed below `id` and drop the imported ones,
    /// returning the keys of the dropped accounts.
    fn cascade_accounts(&mut self, id: &GroupId) -> (dropped: Vec<KeyId>)
        requires
            old(self).wf(),
            old(self)@.tree.nodes.contains_key(id@),
        ensures
            final(self).wf(),
            final(self)@ == (WalletModel {
                accounts: cascaded(old(self)@.accounts, old(self)@.tree.nodes, id@),
                ..old(self)@
            }),
            forall|key: Seq<char>| #[trigger] listed(dropped@, key)
                <==> dropped_key(old(self)@.accounts, old(self)@.tree.nodes, id@, key),
    {
        let ghost n0 = self@.tree.nodes;
        let ghost m0 = self@.accounts;
        let ghost c0 = cascaded(m0, n0, id@);
        let mut hit: Vec<bool> = Vec::new();
        let mut i: usize = 0;
        while i < self.manifest.accounts.len()
            invariant
                i <= self.manifest.accounts@.len(),
                hit@.len() == i,
                self@.tree.nodes == n0,
                n0.contains_key(id@),
                forall|j: int| 0 <= j < i ==> #[trigger] hit@[j] == filed_under(n0, self.manifest.accounts@[j], id@),
            decreases self.manifest.accounts@.len() - i,
        {
            let g = &self.manifest.accounts[i].group;
            let inside = if self.manifest.tree.get(g).is_some() {
                self.manifest.tree.within(g, id)
            } else {
                proof {
                    if in_subtree(n0, g@, id@) {
                        let k = choose|k: nat| crate::wallet::group::up(n0, g@, k) == Some(id@);
                        if k > 0 {
                            assert(crate::wallet::group::parent_of(n0, g@) is None);
                        }
                    }
                }
                false
            };
            hit.push(inside);
            i = i + 1;
        }
        let mut olds: Vec<Account> = Vec::new();
        std::mem::swap(&mut olds, &mut self.manifest.accounts);
        let ghost s0 = olds@;
        let ghost old_pairs = account_pairs(s0);
        let ghost len0 = s0.len();
        let mut kept: Vec<Account> = Vec::new();
        let mut dropped: Vec<KeyId> = Vec::new();
        let mut i: usize = 0;
        while olds.len() > 0
            invariant
                i + olds@.len() == len0,
                len0 <= usize::MAX,
                hit@.len() == len0,
                old_pairs == account_pairs(s0),
                old_pairs.len() == len0,
                distinct_keys(old_pairs),
                pairs_map(old_pairs) == m0,
                c0 == cascaded(m0, n0, id@),
                forall|j: int| 0 <= j < len0 ==> #[trigger] hit@[j] == filed_under(n0, s0[j], id@),
                forall|j: int| 0 <= j < olds@.len() ==> #[trigger] olds@[j] == s0[i + j],
                distinct_keys(account_pairs(kept@)),
                forall|k: Seq<char>| #[trigger] has_key(account_pairs(kept@), k) ==> has_key(old_pairs.subrange(0, i as int), k),
                pairs_map(account_pairs(kept@)) == Map::new(
                    |k: Seq<char>| has_key(old_pairs.subrange(0, i as int), k) && c0.contains_key(k),
                    |k: Seq<char>| c0[k],
                ),
                forall|key: Seq<char>| #[trigger] listed(dropped@, key) <==> dropped_before(s0, n0, id@, i as int, key),
            decreases olds@.len(),
        {
            let ghost ob = olds@;
            let mut a = olds.remove(0);
            let ghost key = s0[i as int].id@;
            proof {
                assert(a == ob[0]);
                assert(a == s0[i + 0]);
                assert(old_pairs[i as int] == (key, a));
                lemma_pairs_map_at(old_pairs, i as int);
                assert forall|j: int| 0 <= j < olds@.len() implies #[trigger] olds@[j] == s0[i + 1 + j] by {
                    assert(olds@[j] == ob[j + 1]);
                }
                assert forall|k: Seq<char>| has_key(old_pairs.subrange(0, i + 1), k) <==> (has_key(
                    old_pairs.subrange(0, i as int),
                    k,
                ) || k == key) by {
                    if has_key(old_pairs.subrange(0, i + 1), k) {
                        let j = choose|j: int| 0 <= j < i + 1 && #[trigger] old_pairs.subrange(0, i + 1)[j].0 == k;
                        if j < i {
                            assert(old_pairs.subrange(0, i as int)[j].0 == k);
                        }
                    }
                    if has_key(old_pairs.subrange(0, i as int), k) {
                        let j = choose|j: int| 0 <= j < i && #[trigger] old_pairs.subrange(0, i as int)[j].0 == k;
                        assert(old_pairs.subrange(0, i + 1)[j].0 == k);
                    }
                    if k == key {
                        assert(old_pairs.subrange(0, i + 1)[i as int].0 == k);
                    }
                }
                assert(!has_key(account_pairs(kept@), key)) by {
                    if has_key(account_pairs(kept@), key) {
                        let j = choose|j: int| 0 <= j < i && #[trigger] old_pairs.subrange(0, i as int)[j].0 == key;
                        assert(old_pairs[j].0 == old_pairs[i as int].0);
                    }
                }
            }
            let ghost before_kept = account_pairs(kept@);
            let ghost before_dropped = dropped@;
            let keep = if hit[i] {
                match &a.source {
                    AccountSource::Derived { .. } => {
                        a.hidden = true;
                        a.do_not_rederive = true;
                        true
                    },
                    AccountSource::Imported { key: k } => {
                        dropped.push(k.duplicate());
                        false
                    },
                }
            } else {
                true
            };
            if keep {
                let ghost av = a;
                kept.push(a);
                proof {
                    assert(av == c0[key]);
                    assert(account_pairs(kept@) =~= before_kept.push((key, av)));
                    lemma_pairs_map_push(before_kept, key, av);
                }
            }
            proof {
                assert forall|k: Seq<char>| #[trigger] has_key(account_pairs(kept@), k) implies has_key(
                    old_pairs.subrange(0, i + 1),
                    k,
                ) by {
                    assert(pairs_map(account_pairs(kept@)).contains_key(k));
                }
                assert(pairs_map(account_pairs(kept@)) =~= Map::new(
                    |k: Seq<char>| has_key(old_pairs.subrange(0, i + 1), k) && c0.contains_key(k),
                    |k: Seq<char>| c0[k],
                ));
                assert forall|kk: Seq<char>| #[trigger] listed(dropped@, kk) <==> dropped_before(s0, n0, id@, i + 1, kk) by {
                    if listed(dropped@, kk) {
                        let t = choose|t: int| 0 <= t < dropped@.len() && #[trigger] dropped@[t]@ == kk;
                        if t < before_dropped.len() {
                            assert(before_dropped[t]@ == kk);
                            assert(listed(before_dropped, kk));
                            let j = choose|j: int| 0 <= j < i && #[trigger] filed_under(n0, s0[j], id@)
                                && (s0[j].source matches AccountSource::Imported { key: x } && x@ == kk);
                        } else {
                            assert(filed_under(n0, s0[i as int], id@));
                        }
                    }
                    if dropped_before(s0, n0, id@, i + 1, kk) {
                        let j = choose|j: int| 0 <= j < i + 1 && #[trigger] filed_under(n0, s0[j], id@)
                            && (s0[j].source matches AccountSource::Imported { key: x } && x@ == kk);
                        if j < i {
                            assert(dropped_before(s0, n0, id@, i as int, kk));
                            assert(listed(before_dropped, kk));
                            let t = choose|t: int| 0 <= t < before_dropped.len() && #[trigger] before_dropped[t]@ == kk;
                            assert(dropped@[t]@ == kk);
                        } else {
                            assert(dropped@[dropped@.len() - 1]@ == kk);
                        }
                    }
                }
            }
            i = i + 1;
        }
        proof {
            assert(old_pairs.subrange(0, i as int) =~= old_pairs);
            assert(pairs_map(account_pairs(kept@)) =~= c0);
            assert forall|key: Seq<char>| #[trigger] listed(dropped@, key) <==> dropped_key(m0, n0, id@, key) by {
                if dropped_before(s0, n0, id@, len0 as int, key) {
                    let j = choose|j: int| 0 <= j < len0 && #[trigger] filed_under(n0, s0[j], id@)
                        && (s0[j].source matches AccountSource::Imported { key: x } && x@ == key);
                    lemma_pairs_map_at(old_pairs, j);
                    assert(m0.contains_key(s0[j].id@));
                }
                if dropped_key(m0, n0, id@, key) {
                    let k = choose|k: Seq<char>| #[trigger] m0.contains_key(k) && filed_under(n0, m0[k], id@)
                        && (m0[k].source matches AccountSource::Imported { key: kk } && kk@ == key);
                    let j = choose|j: int| 0 <= j < old_pairs.len() && #[trigger] old_pairs[j].0 == k;
                    lemma_pairs_map_at(old_pairs, j);
                    assert(filed_under(n0, s0[j], id@));
                }
            }
        }
        self.manifest.accounts = kept;
        dropped
    }

    /// Remove the given keys' records and their vault entries.
    fn drop_keys(&mut self, keys: &Vec<KeyId>)
        requires
            old(self).wf(),
        ensures
            final(self).wf(),
            final(self)@ == (WalletModel {
                keys: old(self)@.keys.remove_keys(Set::new(|k: Seq<char>| listed(keys@, k))),
                vault: VaultModel {
                    entries: old(self)@.vault.entries.remove_keys(Set::new(|e: Seq<char>| entry_listed(keys@, e))),
                    ..old(self)@.vault
                },
                ..old(self)@
            }),
    {
        proof {
            let p0 = keys@.subrange(0, 0);
            assert(self@.keys =~= old(self)@.keys.remove_keys(Set::new(|k: Seq<char>| listed(p0, k))));
            assert(self@.vault.entries =~= old(self)@.vault.entries.remove_keys(Set::new(|e: Seq<char>| entry_listed(p0, e)))) by {
                assert forall|e: Seq<char>| !entry_listed(p0, e) by {
                    if entry_listed(p0, e) {
                        let k = choose|k: Seq<char>| #[trigger] listed(p0, k) && e == key_entry(k);
                    }
                }
            }
        }
        let mut t: usize = 0;
        while t < keys.len()
            invariant
                t <= keys@.len(),
                self.wf(),
                self@ == (WalletModel {
                    keys: old(self)@.keys.remove_keys(Set::new(|k: Seq<char>| listed(keys@.subrange(0, t as int), k))),
                    vault: VaultModel {
                        entries: old(self)@.vault.entries.remove_keys(
                            Set::new(|e: Seq<char>| entry_listed(keys@.subrange(0, t as int), e)),
                        ),
                        ..old(self)@.vault
                    },
                    ..old(self)@
                }),
            decreases keys@.len() - t,
        {
            let key = &keys[t];
            let ghost before = key_pairs(self.manifest.keys@);
            match find_key(&self.manifest.keys, key) {
                Some(k) => {
                    let _ = self.manifest.keys.remove(k);
                    proof {
                        assert(key_pairs(self.manifest.keys@) =~= before.remove(k as int));
                        lemma_pairs_map_remove(before, k as int);
                    }
                },
                None => {
                    assert(pairs_map(before).remove(key@) =~= pairs_map(before));
                },
            }
            let entry_id = key_entry_id(key);
            let _ = self.vault.remove(entry_id.as_str());
            proof {
                let p0 = keys@.subrange(0, t as int);
                let p1 = keys@.subrange(0, t + 1);
                assert forall|k: Seq<char>| #[trigger] listed(p1, k) <==> (listed(p0, k) || k == key@) by {
                    if listed(p1, k) {
                        let u = choose|u: int| 0 <= u < p1.len() && #[trigger] p1[u]@ == k;
                        if u < t {
                            assert(p0[u]@ == k);
                        }
                    }
                    if listed(p0, k) {
                        let u = choose|u: int| 0 <= u < p0.len() && #[trigger] p0[u]@ == k;
                        assert(p1[u]@ == k);
                    }
                    if k == key@ {
                        assert(p1[t as int]@ == k);
                    }
                }
                assert forall|e: Seq<char>| #[trigger] entry_listed(p1, e) <==> (entry_listed(p0, e) || e == key_entry(key@)) by {
                    if entry_listed(p1, e) {
                        let k = choose|k: Seq<char>| #[trigger] listed(p1, k) && e == key_entry(k);
                        if k != key@ {
                            assert(listed(p0, k));
                        }
                    }
                    if entry_listed(p0, e) {
                        let k = choose|k: Seq<char>| #[trigger] listed(p0, k) && e == key_entry(k);
                        assert(listed(p1, k));
                    }
                    if e == key_entry(key@) {
                        assert(listed(p1, key@));
                    }
                }
                assert(self@.keys =~= old(self)@.keys.remove_keys(Set::new(|k: Seq<char>| listed(p1, k))));
                assert(self@.vault.entries =~= old(self)@.vault.entries.remove_keys(Set::new(|e: Seq<char>| entry_listed(p1, e))));
            }
            t = t + 1;
        }
        assert(keys@.subrange(0, t as int) =~= keys@);
    }

    /// Remove a group according to `policy` (see [`RemoveGroupPolicy`]).
    ///
    /// Fails with [`Error::RootImmutable`] for the root, [`Error::GroupNotFound`] for
    /// an unknown group, and, under [`RemoveGroupPolicy::RequireEmpty`], with
    /// [`Error::GroupNotEmpty`] when the group still has child groups or accounts
    /// filed in it. Under [`RemoveGroupPolicy::Reparent`] the child groups move, in
    /// order, to the end of the parent's child list and the group's accounts are
    /// re-filed under the parent. Under [`RemoveGroupPolicy::Cascade`] the whole
    /// subtree goes; accounts filed anywhere in it are tombstoned when derived and
    /// deleted with their key record and key entry when imported.
    pub fn remove_group(&mut self, id: &GroupId, policy: RemoveGroupPolicy) -> (r: Result<()>)
        requires
            old(self).wf(),
        ensures
            final(self).wf(),
            final(self)@.tree.root == old(self)@.tree.root,
            r matches Err(e) ==> {
                &&& final(self)@ == old(self)@
                &&& if id@ == old(self)@.tree.root {
                    e is RootImmutable
                } else if !old(self)@.tree.nodes.contains_key(id@) {
                    e matches Error::GroupNotFound(g) && g@ == id@
                } else {
                    &&& policy is RequireEmpty
                    &&& e is GroupNotEmpty
                    &&& (old(self)@.tree.nodes[id@].children.len() > 0 || exists|k: Seq<char>|
                        #[trigger] old(self)@.accounts.contains_key(k) && old(self)@.accounts[k].group@ == id@)
                }
            },
            r is Ok ==> {
                &&& id@ != old(self)@.tree.root
                &&& old(self)@.tree.nodes.contains_key(id@)
            },
            r is Ok && policy is RequireEmpty ==> {
                &&& old(self)@.tree.nodes[id@].children.len() == 0
                &&& !exists|k: Seq<char>|
                    #[trigger] old(self)@.accounts.contains_key(k) && old(self)@.accounts[k].group@ == id@
                &&& final(self)@.tree.nodes == removed(old(self)@.tree.nodes, id@)
                &&& final(self)@ == (WalletModel { tree: final(self)@.tree, ..old(self)@ })
            },
            r is Ok && policy is Reparent ==> {
                let p = old(self)@.tree.nodes[id@].parent->Some_0;
                &&& final(self)@.tree.nodes == reparented(old(self)@.tree.nodes, id@)
                &&& final(self)@.accounts.dom() == old(self)@.accounts.dom()
                &&& forall|k: Seq<char>| #[trigger] old(self)@.accounts.contains_key(k) ==> if old(self)@.accounts[k].group@ == id@ {
                    &&& final(self)@.accounts[k] == Account { group: final(self)@.accounts[k].group, ..old(self)@.accounts[k] }
                    &&& final(self)@.accounts[k].group@ == p
                } else {
                    final(self)@.accounts[k] == old(self)@.accounts[k]
                }
                &&& final(self)@ == (WalletModel {
                    tree: final(self)@.tree,
                    accounts: final(self)@.accounts,
                    ..old(self)@
                })
            },
            r is Ok && policy is Cascade ==> {
                let n0 = old(self)@.tree.nodes;
                let a0 = old(self)@.accounts;
                &&& final(self)@.tree.nodes == pruned(n0, id@)
                &&& final(self)@ == (WalletModel {
                    tree: final(self)@.tree,
                    accounts: cascaded(a0, n0, id@),
                    keys: old(self)@.keys.remove_keys(Set::new(|k: Seq<char>| dropped_key(a0, n0, id@, k))),
                    vault: VaultModel {
                        entries: old(self)@.vault.entries.remove_keys(dropped_entries(a0, n0, id@)),
                        ..old(self)@.vault
                    },
                    ..old(self)@
                })
            },
    {
        if str_eq(id.as_str(), self.manifest.tree.root().as_str()) {
            return Err(Error::RootImmutable);
        }
        let (pid, has_children) = match self.manifest.tree.get(id) {
            Some(g) => match &g.parent {
                Some(p) => (p.duplicate(), g.children.len() > 0),
                None => {
                    assert(false);
                    return Err(Error::RootImmutable);
                },
            },
            None => return Err(Error::GroupNotFound(id.duplicate())),
        };
        match policy {
            RemoveGroupPolicy::RequireEmpty => {
                if has_children || self.has_account_in(id) {
                    return Err(Error::GroupNotEmpty);
                }
                let res = self.manifest.tree.remove(id);
                match res {
                    Ok(_) => Ok(()),
                    Err(e) => {
                        assert(false);
                        Err(e)
                    },
                }
            },
            RemoveGroupPolicy::Reparent => {
                let ghost n0 = self@.tree.nodes;
                self.regroup_accounts(id, &pid);
                let res = self.manifest.tree.remove_reparenting(id);
                match res {
                    Ok(_) => Ok(()),
                    Err(e) => {
                        assert(false);
                        Err(e)
                    },
                }
            },
            RemoveGroupPolicy::Cascade => {
                let ghost a0 = self@.accounts;
                let ghost n0 = self@.tree.nodes;
                let dropped = self.cascade_accounts(id);
                self.drop_keys(&dropped);
                proof {
                    assert(Set::new(|k: Seq<char>| listed(dropped@, k)) =~= Set::new(|k: Seq<char>| dropped_key(a0, n0, id@, k)));
                    assert(Set::new(|e: Seq<char>| entry_listed(dropped@, e)) =~= dropped_entries(a0, n0, id@)) by {
                        assert forall|e: Seq<char>| entry_listed(dropped@, e) <==> dropped_entries(a0, n0, id@).contains(e) by {
                            if entry_listed(dropped@, e) {
                                let k = choose|k: Seq<char>| #[trigger] listed(dropped@, k) && e == key_entry(k);
                                assert(dropped_key(a0, n0, id@, k));
                            }
                            if dropped_entries(a0, n0, id@).contains(e) {
                                let k = choose|k: Seq<char>| #[trigger] dropped_key(a0, n0, id@, k) && e == key_entry(k);
                                assert(listed(dropped@, k));
                            }
                        }
                    }
                }
                let res = self.manifest.tree.remove_subtree(id);
                match res {
                    Ok(()) => Ok(()),
                    Err(e) => {
                        assert(false);
                        Err(e)
                    },
                }
            },
        }
    }

    /// Every group as a depth-first pre-order walk starting at the root (see
    /// [`GroupTree::preorder`]).
    pub fn list_tree(&self) -> (r: Vec<&Group>)
        requires
            self.wf(),
        ensures
            r@.map_values(|x: &Group| x.id@) == walk(self@.tree.nodes, self@.tree.root, self@.tree.nodes.dom().len()),
            r@.map_values(|x: &Group| x.id@).no_duplicates(),
            r@.map_values(|x: &Group| x.id@).to_set() == self@.tree.nodes.dom(),
            forall|i: int| 0 <= i < r@.len() ==> self@.tree.nodes.contains_key(#[trigger] r@[i].id@) && r@[i]@
                == self@.tree.nodes[r@[i].id@],
    {
        self.manifest.tree.preorder()
    }
}

/// Hiding is reversible: un-hiding a hidden account that was shown and not
/// tombstoned gives back the account as it was.
pub proof fn lemma_unhide_undoes_hide(a: Account)
    requires
        !a.hidden,
        !a.do_not_rederive,
    ensures
        ({
            let hidden = Account { hidden: true, ..a };
            Account { hidden: hidden.do_not_rederive, ..hidden } == a
        }),
{
}

/// A tombstoned account stays tombstoned: un-hiding leaves it hidden and
/// do-not-rederive.
pub proof fn lemma_unhide_keeps_tombstone(a: Account)
    requires
        a.do_not_rederive,
    ensures
        ({
            let shown = Account { hidden: a.do_not_rederive, ..a };
            shown.hidden && shown.do_not_rederive
        }),
{
}

/// Tombstoning keeps an account's index consumed: every index consumed before
/// forgetting an account stays consumed after, so the cursor never hands it out.
pub proof fn lemma_tombstone_keeps_index(
    accounts: Map<Seq<char>, Account>,
    id: Seq<char>,
    seed: Seq<char>,
    index: u32,
)
    requires
        accounts.contains_key(id),
        accounts[id].source is Derived,
        index_consumed(accounts, seed, index),
    ensures
        index_consumed(
            accounts.insert(id, Account { hidden: true, do_not_rederive: true, ..accounts[id] }),
            seed,
            index,
        ),
{
    let after = accounts.insert(id, Account { hidden: true, do_not_rederive: true, ..accounts[id] });
    let k = choose|k: Seq<char>| #[trigger] accounts.contains_key(k) && derived_at(accounts[k], seed, index);
    assert(after.contains_key(k));
    assert(derived_at(after[k], seed, index));
}

/// A cascading removal never drops a derived account: every derived account is
/// still present afterwards, tombstoned when it was filed below the removed group.
pub proof fn lemma_cascade_keeps_derived(
    accounts: Map<Seq<char>, Account>,
    nodes: Map<Seq<char>, GroupModel>,
    id: Seq<char>,
    k: Seq<char>,
)
    requires
        accounts.contains_key(k),
        accounts[k].source is Derived,
    ensures
        cascaded(accounts, nodes, id).contains_key(k),
        filed_under(nodes, accounts[k], id) ==> cascaded(accounts, nodes, id)[k].do_not_rederive
            && cascaded(accounts, nodes, id)[k].hidden,
        !filed_under(nodes, accounts[k], id) ==> cascaded(accounts, nodes, id)[k] == accounts[k],
{
}

} // verus!
