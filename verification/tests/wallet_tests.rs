use daemon_wallet::vault::format::KdfParams;
use daemon_wallet::wallet::account::AccountSource;
use daemon_wallet::wallet::chain::{
    AccountSecret, Chain, ChainAddress, ChainKind, ChainRegistry, PayloadKind, SigningPayload,
};
use daemon_wallet::wallet::error::Error;
use daemon_wallet::wallet::group::{Group, GroupTree};
use daemon_wallet::wallet::id::{AccountId, GroupId, KeyId, SeedId};
use daemon_wallet::wallet::manifest::{key_entry_id, seed_entry_id, WalletManifest, MANIFEST_ENTRY_ID};
use daemon_wallet::wallet::seed::{DerivationPath, DerivationScheme};
use daemon_wallet::wallet::wallet::{ForgetOutcome, RemoveGroupPolicy, Wallet};

/// A stand-in chain whose addresses and signatures are readable functions of the
/// inputs, so the wallet's routing can be checked.
struct FakeChain;

impl Chain for FakeChain {
    fn family(&self) -> ChainKind {
        ChainKind::Evm
    }

    fn kind(&self) -> ChainKind {
        ChainKind::Evm
    }

    fn derives(
        &self,
        _seed_material: vstd::seq::Seq<u8>,
        _path: vstd::seq::Seq<char>,
        _address: vstd::seq::Seq<char>,
    ) -> bool {
        true
    }

    fn imports(&self, _private_key: vstd::seq::Seq<u8>, _address: vstd::seq::Seq<char>) -> bool {
        true
    }

    fn signs_derived(
        &self,
        _seed_material: vstd::seq::Seq<u8>,
        _path: vstd::seq::Seq<char>,
        _payload: SigningPayload,
        _signature: vstd::seq::Seq<u8>,
    ) -> bool {
        true
    }

    fn signs_imported(
        &self,
        _private_key: vstd::seq::Seq<u8>,
        _payload: SigningPayload,
        _signature: vstd::seq::Seq<u8>,
    ) -> bool {
        true
    }

    fn parses(&self, _text: vstd::seq::Seq<char>, _address: vstd::seq::Seq<char>) -> bool {
        true
    }

    fn formats(&self, _address: vstd::seq::Seq<char>, _text: vstd::seq::Seq<char>) -> bool {
        true
    }

    fn derive_address(&self, seed_material: &[u8], path: &DerivationPath) -> Result<ChainAddress, Error> {
        let text = format!("{}@{}", String::from_utf8_lossy(seed_material), path.as_str());
        Ok(ChainAddress::new(&text))
    }

    fn import_address(&self, private_key: &[u8]) -> Result<ChainAddress, Error> {
        if private_key.is_empty() {
            return Err(Error::Derivation);
        }
        Ok(ChainAddress::new(&format!("key:{}", String::from_utf8_lossy(private_key))))
    }

    fn sign(&self, secret: AccountSecret<'_>, payload: &SigningPayload) -> Result<Vec<u8>, Error> {
        let mut out = match secret {
            AccountSecret::Derived { seed_material, path } => {
                let mut v = seed_material.to_vec();
                v.extend_from_slice(path.as_str().as_bytes());
                v
            }
            AccountSecret::Imported { private_key } => private_key.to_vec(),
        };
        out.push(b'|');
        out.extend_from_slice(&payload.body);
        Ok(out)
    }

    fn parse_address(&self, text: &str) -> Result<ChainAddress, Error> {
        Ok(ChainAddress::new(text))
    }

    fn format_address(&self, address: &ChainAddress) -> String {
        address.as_str().to_string()
    }
}

fn registry() -> ChainRegistry {
    let mut chains = ChainRegistry::new();
    chains.register(Box::new(FakeChain));
    chains
}

fn wallet() -> Wallet {
    Wallet::create("w.vault", b"pw", None, KdfParams::new(64, 1, 1), registry()).unwrap()
}

fn root_of(w: &Wallet) -> GroupId {
    w.tree().root().duplicate()
}

#[test]
fn create_starts_with_a_single_root_group() {
    let w = wallet();
    let root = root_of(&w);
    let g = w.tree().get(&root).unwrap();
    assert_eq!(g.name, "Wallet");
    assert!(g.parent.is_none());
    assert!(g.children.is_empty());
    assert!(w.manifest().seeds.is_empty());
    assert!(w.manifest().accounts.is_empty());
    assert_eq!(w.vault().len(), 0);
    assert!(w.chains().contains(ChainKind::Evm));
}

#[test]
fn create_rejects_weak_params() {
    let r = Wallet::create("w", b"pw", None, KdfParams::new(1, 1, 1), registry());
    assert!(matches!(r, Err(Error::Vault(daemon_wallet::vault::Error::InvalidParams))));
}

#[test]
fn group_operations_delegate_to_the_tree() {
    let mut w = wallet();
    let root = root_of(&w);
    let a = w.add_group(&root, "A").unwrap();
    let b = w.add_group(&a, "B").unwrap();
    w.rename_group(&b, "Bee").unwrap();
    assert_eq!(w.tree().get(&b).unwrap().name, "Bee");
    assert!(matches!(w.move_group(&a, &b), Err(Error::GroupCycle)));
    assert!(matches!(w.move_group(&root, &a), Err(Error::RootImmutable)));
    w.move_group(&b, &root).unwrap();
    assert_eq!(w.tree().get(&b).unwrap().parent.as_ref().unwrap().as_str(), root.as_str());
    let missing = GroupId::from_raw("nope");
    assert!(matches!(w.add_group(&missing, "x"), Err(Error::GroupNotFound(_))));
}

#[test]
fn list_tree_is_a_preorder_walk() {
    let mut w = wallet();
    let root = root_of(&w);
    let a = w.add_group(&root, "A").unwrap();
    let b = w.add_group(&root, "B").unwrap();
    let a1 = w.add_group(&a, "A1").unwrap();
    let names: Vec<String> = w.list_tree().iter().map(|g| g.name.clone()).collect();
    assert_eq!(names, vec!["Wallet", "A", "A1", "B"]);
    let _ = (b, a1);
}

#[test]
fn remove_group_require_empty() {
    let mut w = wallet();
    let root = root_of(&w);
    let a = w.add_group(&root, "A").unwrap();
    let _b = w.add_group(&a, "B").unwrap();
    assert!(matches!(w.remove_group(&a, RemoveGroupPolicy::RequireEmpty), Err(Error::GroupNotEmpty)));
    assert!(matches!(w.remove_group(&root, RemoveGroupPolicy::Cascade), Err(Error::RootImmutable)));
    let c = w.add_group(&root, "C").unwrap();
    w.import_key(ChainKind::Evm, "k", b"abc", &c).unwrap();
    assert!(matches!(w.remove_group(&c, RemoveGroupPolicy::RequireEmpty), Err(Error::GroupNotEmpty)));
    let d = w.add_group(&root, "D").unwrap();
    w.remove_group(&d, RemoveGroupPolicy::RequireEmpty).unwrap();
    assert!(w.tree().get(&d).is_none());
}

#[test]
fn remove_group_reparent_moves_children_and_accounts_up() {
    let mut w = wallet();
    let root = root_of(&w);
    let a = w.add_group(&root, "A").unwrap();
    let b = w.add_group(&a, "B").unwrap();
    let c = w.add_group(&a, "C").unwrap();
    let acc = w.import_key(ChainKind::Evm, "k", b"abc", &a).unwrap();
    w.remove_group(&a, RemoveGroupPolicy::Reparent).unwrap();
    assert!(w.tree().get(&a).is_none());
    let kids: Vec<String> = w.tree().children(&root).unwrap().iter().map(|g| g.as_str().to_string()).collect();
    assert_eq!(kids, vec![b.as_str().to_string(), c.as_str().to_string()]);
    assert_eq!(w.tree().get(&b).unwrap().parent.as_ref().unwrap().as_str(), root.as_str());
    let account = w.manifest().accounts.iter().find(|x| x.id.as_str() == acc.as_str()).unwrap();
    assert_eq!(account.group.as_str(), root.as_str());
}

#[test]
fn remove_group_cascade_tombstones_derived_and_deletes_imported() {
    let mut w = wallet();
    let root = root_of(&w);
    let a = w.add_group(&root, "A").unwrap();
    let b = w.add_group(&a, "B").unwrap();
    let seed = w.add_seed(ChainKind::Evm, "s", DerivationScheme::Bip44Standard, false, b"words").unwrap();
    let derived = w.derive_next_account(&seed, &b, "d").unwrap();
    let imported = w.import_key(ChainKind::Evm, "k", b"abc", &b).unwrap();
    let kept = w.import_key(ChainKind::Evm, "k2", b"xyz", &root).unwrap();
    let key_id = match &w.manifest().accounts.iter().find(|x| x.id.as_str() == imported.as_str()).unwrap().source {
        AccountSource::Imported { key } => key.duplicate(),
        _ => panic!("expected an imported account"),
    };
    w.remove_group(&a, RemoveGroupPolicy::Cascade).unwrap();
    assert!(w.tree().get(&a).is_none());
    assert!(w.tree().get(&b).is_none());
    assert!(w.tree().children(&root).unwrap().is_empty());
    let accounts = &w.manifest().accounts;
    let d = accounts.iter().find(|x| x.id.as_str() == derived.as_str()).unwrap();
    assert!(d.hidden && d.do_not_rederive);
    assert!(accounts.iter().all(|x| x.id.as_str() != imported.as_str()));
    assert!(accounts.iter().any(|x| x.id.as_str() == kept.as_str()));
    assert!(w.manifest().keys.iter().all(|k| k.id.as_str() != key_id.as_str()));
    assert!(!w.vault().contains(&key_entry_id(&key_id)));
}

#[test]
fn derive_next_account_advances_and_never_reissues() {
    let mut w = wallet();
    let root = root_of(&w);
    let seed = w.add_seed(ChainKind::Evm, "main", DerivationScheme::Bip44Standard, true, b"mnemonic words").unwrap();
    assert_eq!(w.vault().get(&seed_entry_id(&seed)).unwrap().secret(), b"mnemonic words");
    let a0 = w.derive_next_account(&seed, &root, "zero").unwrap();
    let a1 = w.derive_next_account(&seed, &root, "one").unwrap();
    let acc = |w: &Wallet, id: &AccountId| {
        let a = w.manifest().accounts.iter().find(|x| x.id.as_str() == id.as_str()).unwrap();
        match &a.source {
            AccountSource::Derived { index, path, .. } => (*index, path.as_str().to_string(), a.address.as_str().to_string()),
            _ => panic!("derived expected"),
        }
    };
    assert_eq!(acc(&w, &a0), (0, "m/44'/60'/0'/0/0".to_string(), "mnemonic words@m/44'/60'/0'/0/0".to_string()));
    assert_eq!(acc(&w, &a1).0, 1);
    assert_eq!(w.manifest().seeds[0].next_index, 2);
    assert_eq!(w.forget_account(&a0).unwrap(), ForgetOutcome::Tombstoned);
    let a2 = w.derive_next_account(&seed, &root, "two").unwrap();
    assert_eq!(acc(&w, &a2).0, 2);
    // An explicit index beyond the cursor moves it; a live index is refused.
    let a5 = w.derive_account_at(&seed, 5, &root, "five").unwrap();
    assert_eq!(acc(&w, &a5).0, 5);
    assert_eq!(w.manifest().seeds[0].next_index, 6);
    assert!(matches!(w.derive_account_at(&seed, 5, &root, "again"), Err(Error::Derivation)));
    // A tombstoned index may be materialised explicitly; the cursor stays.
    let again = w.derive_account_at(&seed, 0, &root, "zero again").unwrap();
    assert_eq!(acc(&w, &again).0, 0);
    assert_eq!(w.manifest().seeds[0].next_index, 6);
    // The next free index skips the consumed ones.
    let a6 = w.derive_next_account(&seed, &root, "six").unwrap();
    assert_eq!(acc(&w, &a6).0, 6);
}

#[test]
fn derive_errors_are_reported_in_order() {
    let mut w = wallet();
    let root = root_of(&w);
    let missing_seed = SeedId::from_raw("seed-missing");
    assert!(matches!(w.derive_next_account(&missing_seed, &root, "x"), Err(Error::SeedNotFound(_))));
    let seed = w.add_seed(ChainKind::Evm, "s", DerivationScheme::Bip44LedgerLive, false, b"w").unwrap();
    let missing_group = GroupId::from_raw("grp-missing");
    assert!(matches!(w.derive_next_account(&seed, &missing_group, "x"), Err(Error::GroupNotFound(_))));
    let mut bare = Wallet::create("w", b"pw", None, KdfParams::new(64, 1, 1), ChainRegistry::new()).unwrap();
    let broot = bare.tree().root().duplicate();
    let s2 = bare.add_seed(ChainKind::Evm, "s", DerivationScheme::Bip44Standard, false, b"w").unwrap();
    assert!(matches!(bare.derive_next_account(&s2, &broot, "x"), Err(Error::ChainNotRegistered(ChainKind::Evm))));
    let a = w.derive_next_account(&seed, &root, "ok").unwrap();
    let acc = w.manifest().accounts.iter().find(|x| x.id.as_str() == a.as_str()).unwrap();
    match &acc.source {
        AccountSource::Derived { path, .. } => assert_eq!(path.as_str(), "m/44'/60'/0'/0/0"),
        _ => panic!("derived expected"),
    }
}

#[test]
fn hide_unhide_and_tombstone() {
    let mut w = wallet();
    let root = root_of(&w);
    let seed = w.add_seed(ChainKind::Evm, "s", DerivationScheme::Bip44Standard, false, b"w").unwrap();
    let a = w.derive_next_account(&seed, &root, "a").unwrap();
    let find = |w: &Wallet| {
        let x = w.manifest().accounts.iter().find(|x| x.id.as_str() == a.as_str()).unwrap();
        (x.hidden, x.do_not_rederive)
    };
    w.hide_account(&a).unwrap();
    assert_eq!(find(&w), (true, false));
    w.unhide_account(&a).unwrap();
    assert_eq!(find(&w), (false, false));
    w.forget_account(&a).unwrap();
    assert_eq!(find(&w), (true, true));
    w.unhide_account(&a).unwrap();
    assert_eq!(find(&w), (true, true));
    let missing = AccountId::from_raw("acct-missing");
    assert!(matches!(w.hide_account(&missing), Err(Error::AccountNotFound(_))));
    assert!(matches!(w.forget_account(&missing), Err(Error::AccountNotFound(_))));
}

#[test]
fn import_then_forget_deletes_key_and_entry() {
    let mut w = wallet();
    let root = root_of(&w);
    let a = w.import_key(ChainKind::Evm, "imported", b"secret-key", &root).unwrap();
    let account = w.manifest().accounts.iter().find(|x| x.id.as_str() == a.as_str()).unwrap();
    assert_eq!(account.address.as_str(), "key:secret-key");
    let key = match &account.source {
        AccountSource::Imported { key } => key.duplicate(),
        _ => panic!("imported expected"),
    };
    assert_eq!(w.manifest().keys[0].address.as_str(), "key:secret-key");
    assert_eq!(w.vault().get(&key_entry_id(&key)).unwrap().secret(), b"secret-key");
    assert_eq!(w.export_key(&key, b"pw").unwrap().as_slice(), b"secret-key");
    assert_eq!(w.forget_account(&a).unwrap(), ForgetOutcome::Deleted);
    assert!(w.manifest().accounts.is_empty());
    assert!(w.manifest().keys.is_empty());
    assert!(!w.vault().contains(&key_entry_id(&key)));
    assert!(matches!(w.export_key(&key, b"pw"), Err(Error::KeyNotFound(_))));
}

#[test]
fn import_errors() {
    let mut w = wallet();
    let root = root_of(&w);
    let missing = GroupId::from_raw("grp-missing");
    assert!(matches!(w.import_key(ChainKind::Evm, "k", b"abc", &missing), Err(Error::GroupNotFound(_))));
    assert!(matches!(w.import_key(ChainKind::Evm, "k", b"", &root), Err(Error::Derivation)));
    assert!(w.manifest().keys.is_empty());
    assert_eq!(w.vault().len(), 0);
}

#[test]
fn exports_are_gated_by_reauth() {
    let mut w = wallet();
    let seed = w.add_seed(ChainKind::Evm, "s", DerivationScheme::Bip44Standard, false, b"phrase").unwrap();
    assert!(matches!(w.export_seed(&seed, b"wrong"), Err(Error::Reauth)));
    assert_eq!(w.export_seed(&seed, b"pw").unwrap().as_slice(), b"phrase");
    let missing = SeedId::from_raw("seed-x");
    assert!(matches!(w.export_seed(&missing, b"wrong"), Err(Error::Reauth)));
    assert!(matches!(w.export_seed(&missing, b"pw"), Err(Error::SeedNotFound(_))));
    let missing_key = KeyId::from_raw("key-x");
    assert!(matches!(w.export_key(&missing_key, b"nope"), Err(Error::Reauth)));
}

#[test]
fn sign_routes_through_the_chain() {
    let mut w = wallet();
    let root = root_of(&w);
    let a = w.import_key(ChainKind::Evm, "k", b"KEY", &root).unwrap();
    let payload = SigningPayload { chain: ChainKind::Evm, kind: PayloadKind::Message, body: b"hi".to_vec() };
    assert_eq!(w.sign(&a, &payload).unwrap(), b"KEY|hi".to_vec());
    let seed = w.add_seed(ChainKind::Evm, "s", DerivationScheme::Bip44Standard, false, b"S").unwrap();
    let d = w.derive_next_account(&seed, &root, "d").unwrap();
    assert_eq!(w.sign(&d, &payload).unwrap(), b"Sm/44'/60'/0'/0/0|hi".to_vec());
    let missing = AccountId::from_raw("acct-none");
    assert!(matches!(w.sign(&missing, &payload), Err(Error::AccountNotFound(_))));
}

#[test]
fn export_public_csv_lists_every_account() {
    let mut w = wallet();
    let root = root_of(&w);
    let a = w.import_key(ChainKind::Evm, "plain", b"k1", &root).unwrap();
    let b = w.import_key(ChainKind::Evm, "with, comma \"q\"", b"k2", &root).unwrap();
    w.hide_account(&b).unwrap();
    let csv = w.export_public_csv().unwrap();
    let lines: Vec<&str> = csv.lines().collect();
    assert_eq!(lines[0], "id,chain,address,label,path,group,hidden,tombstoned");
    assert_eq!(lines[1], format!("{},evm,key:k1,plain,,{},false,false", a.as_str(), root.as_str()));
    assert_eq!(
        lines[2],
        format!("{},evm,key:k2,\"with, comma \"\"q\"\"\",,{},true,false", b.as_str(), root.as_str())
    );
    assert_eq!(lines.len(), 3);
    assert!(csv.ends_with('\n'));
}

#[test]
fn stage_manifest_writes_the_manifest_entry() {
    let mut w = wallet();
    w.stage_manifest(b"encoded manifest");
    assert_eq!(w.vault().get(MANIFEST_ENTRY_ID).unwrap().secret(), b"encoded manifest");
    w.stage_manifest(b"again");
    assert_eq!(w.vault().get(MANIFEST_ENTRY_ID).unwrap().secret(), b"again");
    assert_eq!(w.vault().len(), 1);
}

#[test]
fn entry_ids_follow_the_naming_scheme() {
    assert_eq!(seed_entry_id(&SeedId::from_raw("abc")), "seed/abc");
    assert_eq!(key_entry_id(&KeyId::from_raw("xyz")), "key/xyz");
    assert_eq!(MANIFEST_ENTRY_ID, "wallet/manifest");
}

#[test]
fn manifest_new_and_decode_checks() {
    let m = WalletManifest::new("Root");
    assert_eq!(m.version, 1);
    let root = m.tree.root().duplicate();
    assert_eq!(m.tree.get(&root).unwrap().name, "Root");
    let r = WalletManifest::from_decoded(2, GroupTree::new("r"), Vec::new(), Vec::new(), Vec::new());
    assert!(matches!(r, Err(Error::ManifestVersion(2))));
    let ok = WalletManifest::from_decoded(1, GroupTree::new("r"), Vec::new(), Vec::new(), Vec::new());
    assert!(ok.is_ok());
}

#[test]
fn manifest_rejects_duplicate_ids() {
    let mut w = wallet();
    let root = root_of(&w);
    w.import_key(ChainKind::Evm, "k", b"a", &root).unwrap();
    let key = &w.manifest().keys[0];
    let dup = daemon_wallet::wallet::key::ImportedKey {
        id: key.id.duplicate(),
        chain: key.chain,
        label: key.label.clone(),
        notes: String::new(),
        tags: Vec::new(),
        address: key.address.duplicate(),
    };
    let dup2 = daemon_wallet::wallet::key::ImportedKey {
        id: key.id.duplicate(),
        chain: key.chain,
        label: String::new(),
        notes: String::new(),
        tags: Vec::new(),
        address: key.address.duplicate(),
    };
    let r = WalletManifest::from_decoded(1, GroupTree::new("r"), Vec::new(), vec![dup, dup2], Vec::new());
    assert!(matches!(r, Err(Error::ManifestDecode)));
}

fn node(id: &str, parent: Option<&str>, children: &[&str], name: &str) -> Group {
    Group {
        id: GroupId::from_raw(id),
        parent: parent.map(GroupId::from_raw),
        children: children.iter().map(|c| GroupId::from_raw(c)).collect(),
        name: name.to_string(),
        notes: String::new(),
        tags: Vec::new(),
    }
}

#[test]
fn tree_from_parts_accepts_a_consistent_arena() {
    let nodes = vec![
        node("r", None, &["a", "b"], "Root"),
        node("a", Some("r"), &["c"], "A"),
        node("b", Some("r"), &[], "B"),
        node("c", Some("a"), &[], "C"),
    ];
    let t = GroupTree::from_parts(GroupId::from_raw("r"), nodes).unwrap();
    assert_eq!(t.root().as_str(), "r");
    let path: Vec<String> = t.path_to(&GroupId::from_raw("c")).unwrap().iter().map(|g| g.as_str().to_string()).collect();
    assert_eq!(path, vec!["r", "a", "c"]);
    let order: Vec<String> = t.preorder().iter().map(|g| g.name.clone()).collect();
    assert_eq!(order, vec!["Root", "A", "C", "B"]);
}

#[test]
fn tree_from_parts_rejects_inconsistent_arenas() {
    let cycle = vec![
        node("r", None, &[], "Root"),
        node("a", Some("b"), &["b"], "A"),
        node("b", Some("a"), &["a"], "B"),
    ];
    assert!(matches!(GroupTree::from_parts(GroupId::from_raw("r"), cycle), Err(Error::ManifestDecode)));
    let missing_root = vec![node("a", None, &[], "A")];
    assert!(matches!(GroupTree::from_parts(GroupId::from_raw("r"), missing_root), Err(Error::ManifestDecode)));
    let dup = vec![node("r", None, &[], "Root"), node("r", None, &[], "Again")];
    assert!(matches!(GroupTree::from_parts(GroupId::from_raw("r"), dup), Err(Error::ManifestDecode)));
    let unlisted = vec![node("r", None, &[], "Root"), node("a", Some("r"), &[], "A")];
    assert!(matches!(GroupTree::from_parts(GroupId::from_raw("r"), unlisted), Err(Error::ManifestDecode)));
    let bad_child = vec![node("r", None, &["a"], "Root"), node("a", None, &[], "A")];
    assert!(matches!(GroupTree::from_parts(GroupId::from_raw("r"), bad_child), Err(Error::ManifestDecode)));
}

#[test]
fn group_tree_remove_subtree_and_reparenting() {
    let mut t = GroupTree::new("root");
    let root = t.root().duplicate();
    let a = t.add(&root, "A").unwrap();
    let b = t.add(&a, "B").unwrap();
    let c = t.add(&b, "C").unwrap();
    let mut t2 = GroupTree::from_parts(root.duplicate(), t.iter().into_iter().cloned().collect()).unwrap();
    t.remove_subtree(&a).unwrap();
    assert!(t.get(&a).is_none() && t.get(&b).is_none() && t.get(&c).is_none());
    assert!(t.children(&root).unwrap().is_empty());
    let removed = t2.remove_reparenting(&b).unwrap();
    assert_eq!(removed.name, "B");
    assert_eq!(t2.children(&a).unwrap().len(), 1);
    assert_eq!(t2.get(&c).unwrap().parent.as_ref().unwrap().as_str(), a.as_str());
    assert!(t2.within(&c, &a));
    assert!(!t2.within(&a, &c));
}
