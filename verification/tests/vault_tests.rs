use daemon_wallet::vault::format::{Header, KdfParams};
use daemon_wallet::vault::vault::{Unsealed, PLAINTEXT_VERSION};
use daemon_wallet::vault::{Error, Meta, Vault};

fn fast() -> KdfParams {
    KdfParams::new(64, 1, 1)
}

const M_COST_LSB_OFFSET: usize = 15;
const T_COST_OFFSET: usize = 16;
const FLAGS_OFFSET: usize = 24;
const SALT_OFFSET: usize = 27;

fn sealed(pw: &[u8], keyfile: Option<&[u8]>, plaintext: &[u8]) -> Vec<u8> {
    let vault = Vault::new("store.vault", pw, keyfile, fast()).unwrap();
    vault.seal_entries(plaintext).unwrap()
}

#[test]
fn put_get_remove_round_trip() {
    let mut vault = Vault::new("store.vault", b"pw", None, fast()).unwrap();
    let mut meta = Meta::new("First");
    meta.tags = vec!["alpha".into(), "beta".into()];
    meta.notes = "some notes".into();
    assert!(vault.put("one", b"secret-one-bytes", meta).is_none());
    vault.put("two", &[0u8, 1, 2, 3, 255], Meta::new("Second"));
    vault.put("empty", b"", Meta::new("Empty"));
    assert_eq!(vault.len(), 3);
    assert_eq!(vault.get("one").unwrap().secret(), b"secret-one-bytes");
    assert_eq!(vault.get("two").unwrap().secret(), &[0u8, 1, 2, 3, 255]);
    assert_eq!(vault.get("empty").unwrap().secret(), b"");
    let m = vault.get("one").unwrap().meta();
    assert_eq!(m.name, "First");
    assert_eq!(m.tags, vec!["alpha".to_string(), "beta".to_string()]);
    assert_eq!(m.notes, "some notes");
    assert_eq!(vault.ids(), vec!["empty".to_string(), "one".to_string(), "two".to_string()]);
    assert!(vault.contains("two"));
    let removed = vault.remove("two").unwrap();
    assert_eq!(removed.secret(), &[0u8, 1, 2, 3, 255]);
    assert!(!vault.contains("two"));
    assert!(vault.remove("two").is_none());
    assert!(!vault.is_empty());
    assert!(!vault.uses_keyfile());
    assert_eq!(vault.path(), "store.vault");
}

#[test]
fn put_replaces_and_returns_previous() {
    let mut vault = Vault::new("v", b"pw", None, fast()).unwrap();
    vault.put("k", b"old", Meta::new("k"));
    let prev = vault.put("k", b"new", Meta::new("k")).unwrap();
    assert_eq!(prev.secret(), b"old");
    assert_eq!(vault.get("k").unwrap().secret(), b"new");
    assert_eq!(vault.len(), 1);
}

#[test]
fn new_rejects_weak_params() {
    assert!(matches!(Vault::new("v", b"pw", None, KdfParams::new(7, 1, 1)), Err(Error::InvalidParams)));
    assert!(matches!(Vault::new("v", b"pw", None, KdfParams::new(64, 0, 1)), Err(Error::InvalidParams)));
    assert!(matches!(Vault::new("v", b"pw", None, KdfParams::new(64, 1, 0)), Err(Error::InvalidParams)));
}

#[test]
fn set_meta_and_set_params() {
    let mut vault = Vault::new("v", b"pw", None, fast()).unwrap();
    assert!(matches!(vault.set_meta("missing", Meta::new("x")), Err(Error::NotFound)));
    vault.put("k", b"v", Meta::new("k"));
    let mut m = Meta::new("renamed");
    m.notes = "n".into();
    vault.set_meta("k", m).unwrap();
    assert_eq!(vault.meta("k").unwrap().name, "renamed");
    assert!(matches!(vault.set_params(KdfParams::new(1, 1, 1)), Err(Error::InvalidParams)));
    assert_eq!(vault.params(), fast());
    vault.set_params(KdfParams::new(128, 2, 1)).unwrap();
    assert_eq!(vault.params(), KdfParams::new(128, 2, 1));
}

#[test]
fn seal_then_unseal_round_trips_plaintext() {
    let raw = sealed(b"a strong test passphrase", None, b"encoded entries");
    let un = Vault::unseal(&raw, b"a strong test passphrase", None).unwrap();
    assert_eq!(un.plaintext.as_slice(), b"encoded entries");
    assert_eq!(un.params, fast());
    assert!(!un.keyfile_required);
    let (h, n) = Header::parse(&raw).unwrap();
    assert_eq!(h.params, fast());
    assert_eq!(raw.len(), n + h.ct_len as usize);
}

#[test]
fn two_seals_use_fresh_salt_and_nonce() {
    let vault = Vault::new("v", b"pw", None, fast()).unwrap();
    let a = vault.seal_entries(b"x").unwrap();
    let b = vault.seal_entries(b"x").unwrap();
    assert_ne!(a, b);
}

#[test]
fn wrong_password_returns_auth_error() {
    let raw = sealed(b"right password", None, b"data");
    assert!(matches!(Vault::unseal(&raw, b"wrong password", None), Err(Error::Auth)));
}

#[test]
fn keyfile_flows() {
    let pw = b"passphrase with keyfile";
    let keyfile = b"the keyfile contents that act as a second factor";
    let raw = sealed(pw, Some(keyfile), b"data");
    assert!(matches!(Vault::unseal(&raw, pw, None), Err(Error::KeyfileRequired)));
    assert!(matches!(Vault::unseal(&raw, pw, Some(b"not the keyfile")), Err(Error::Auth)));
    let un = Vault::unseal(&raw, pw, Some(keyfile)).unwrap();
    assert_eq!(un.plaintext.as_slice(), b"data");
    assert!(un.keyfile_required);
}

#[test]
fn keyfile_on_non_keyfile_vault_is_rejected() {
    let raw = sealed(b"no keyfile here", None, b"data");
    assert!(matches!(Vault::unseal(&raw, b"no keyfile here", Some(b"unexpected")), Err(Error::UnexpectedKeyfile)));
}

#[test]
fn tamper_in_header_params_fails() {
    let pw = b"tamper params";
    let mut raw = sealed(pw, None, b"data");
    raw[M_COST_LSB_OFFSET] ^= 0x01;
    assert!(matches!(Vault::unseal(&raw, pw, None), Err(Error::Auth)));
}

#[test]
fn tamper_in_flags_is_detected() {
    let pw = b"tamper flags";
    let mut raw = sealed(pw, None, b"data");
    raw[FLAGS_OFFSET] |= 0x01;
    assert!(matches!(Vault::unseal(&raw, pw, None), Err(Error::KeyfileRequired)));
    raw[FLAGS_OFFSET] |= 0x02;
    raw[FLAGS_OFFSET] &= !0x01;
    assert!(matches!(Vault::unseal(&raw, pw, None), Err(Error::Auth)));
}

#[test]
fn tamper_in_salt_fails() {
    let pw = b"tamper salt";
    let mut raw = sealed(pw, None, b"data");
    raw[SALT_OFFSET] ^= 0xff;
    assert!(matches!(Vault::unseal(&raw, pw, None), Err(Error::Auth)));
}

#[test]
fn tamper_in_ciphertext_fails() {
    let pw = b"tamper ciphertext";
    let mut raw = sealed(pw, None, b"data");
    let last = raw.len() - 1;
    raw[last] ^= 0x01;
    assert!(matches!(Vault::unseal(&raw, pw, None), Err(Error::Auth)));
}

#[test]
fn extreme_stored_params_are_refused_before_derivation() {
    let pw = b"bomb";
    let mut raw = sealed(pw, None, b"data");
    for b in &mut raw[T_COST_OFFSET..T_COST_OFFSET + 4] {
        *b = 0xff;
    }
    assert!(matches!(Vault::unseal(&raw, pw, None), Err(Error::ParamsOutOfRange)));
}

#[test]
fn truncated_file_is_malformed() {
    let pw = b"truncate";
    let raw = sealed(pw, None, b"some data");
    assert!(matches!(Vault::unseal(&raw[..raw.len() - 1], pw, None), Err(Error::MalformedHeader)));
    assert!(matches!(Vault::unseal(&raw[..5], pw, None), Err(Error::MalformedHeader)));
}

#[test]
fn assemble_rebuilds_entries_and_checks_version() {
    let pw = b"assemble";
    let raw = sealed(pw, None, b"ignored");
    let un: Unsealed = Vault::unseal(&raw, pw, None).unwrap();
    let records = vec![
        ("a".to_string(), b"one".to_vec(), Meta::new("A")),
        ("b".to_string(), b"two".to_vec(), Meta::new("B")),
    ];
    let vault = Vault::assemble("path", pw, un, PLAINTEXT_VERSION, records).unwrap();
    assert_eq!(vault.len(), 2);
    assert_eq!(vault.get("b").unwrap().secret(), b"two");
    assert_eq!(vault.path(), "path");

    let un2 = Vault::unseal(&raw, pw, None).unwrap();
    assert!(matches!(Vault::assemble("path", pw, un2, 2, Vec::new()), Err(Error::Deserialize)));
}

#[test]
fn verify_password_compares_exactly() {
    let vault = Vault::new("v", b"secret", None, fast()).unwrap();
    assert!(vault.verify_password(b"secret"));
    assert!(!vault.verify_password(b"secreT"));
    assert!(!vault.verify_password(b"secre"));
}

#[test]
fn debug_string_hides_secrets() {
    let mut vault = Vault::new("v", b"hunter2", Some(b"kf"), fast()).unwrap();
    vault.put("k", b"topsecret", Meta::new("k"));
    let s = vault.debug_string();
    assert!(!s.contains("hunter2"));
    assert!(!s.contains("topsecret"));
    assert!(s.contains("entries: 1"));
    assert!(s.contains("keyfile: true"));
}

#[test]
fn entry_debug_string_hides_secret() {
    let mut vault = Vault::new("v", b"pw", None, fast()).unwrap();
    vault.put("k", b"topsecret", Meta::new("k"));
    let e = vault.get("k").unwrap();
    let s = e.debug_string();
    assert!(!s.contains("topsecret"));
    let copy = e.duplicate();
    assert_eq!(copy.secret(), b"topsecret");
}

// --- whole-file round trips, with the entry map encoded as CBOR here ---------

use ciborium::value::Value;
use daemon_wallet::vault::vault::Entry;

const M_COST_OFFSET: usize = 12;
const SALT_RANGE: std::ops::Range<usize> = 27..43;
const NONCE_RANGE: std::ops::Range<usize> = 44..68;

fn text(s: &str) -> Value {
    Value::Text(s.to_string())
}

fn encode_entries(vault: &Vault) -> Vec<u8> {
    let mut entries = Vec::new();
    for id in vault.ids() {
        let e = vault.get(&id).unwrap();
        let m = e.meta();
        let meta = Value::Map(vec![
            (text("name"), text(&m.name)),
            (text("tags"), Value::Array(m.tags.iter().map(|t| text(t)).collect())),
            (text("notes"), text(&m.notes)),
            (text("created"), Value::Integer(m.created.into())),
            (text("modified"), Value::Integer(m.modified.into())),
        ]);
        let entry = Value::Map(vec![(text("secret"), Value::Bytes(e.secret().to_vec())), (text("meta"), meta)]);
        entries.push((text(&id), entry));
    }
    let db = Value::Map(vec![
        (text("version"), Value::Integer(u64::from(PLAINTEXT_VERSION).into())),
        (text("entries"), Value::Map(entries)),
    ]);
    let mut buf = Vec::new();
    ciborium::into_writer(&db, &mut buf).unwrap();
    buf
}

fn field<'a>(map: &'a [(Value, Value)], key: &str) -> &'a Value {
    &map.iter().find(|(k, _)| k.as_text() == Some(key)).unwrap().1
}

fn decode_entries(bytes: &[u8]) -> (u16, Vec<(String, Vec<u8>, Meta)>) {
    let db: Value = ciborium::from_reader(bytes).unwrap();
    let db = db.as_map().unwrap();
    let version = u16::try_from(field(db, "version").as_integer().unwrap()).unwrap();
    let mut records = Vec::new();
    for (id, e) in field(db, "entries").as_map().unwrap() {
        let e = e.as_map().unwrap();
        let m = field(e, "meta").as_map().unwrap();
        let meta = Meta {
            name: field(m, "name").as_text().unwrap().to_string(),
            tags: field(m, "tags").as_array().unwrap().iter().map(|t| t.as_text().unwrap().to_string()).collect(),
            notes: field(m, "notes").as_text().unwrap().to_string(),
            created: u64::try_from(field(m, "created").as_integer().unwrap()).unwrap(),
            modified: u64::try_from(field(m, "modified").as_integer().unwrap()).unwrap(),
        };
        records.push((id.as_text().unwrap().to_string(), field(e, "secret").as_bytes().unwrap().clone(), meta));
    }
    (version, records)
}

fn save_bytes(vault: &Vault) -> Vec<u8> {
    vault.seal_entries(&encode_entries(vault)).unwrap()
}

fn open_bytes(raw: &[u8], pw: &[u8], keyfile: Option<&[u8]>) -> Result<Vault, Error> {
    let un = Vault::unseal(raw, pw, keyfile)?;
    let (version, records) = decode_entries(un.plaintext.as_slice());
    Vault::assemble("store.vault", pw, un, version, records)
}

fn open_err(raw: &[u8], pw: &[u8], keyfile: Option<&[u8]>) -> Error {
    match open_bytes(raw, pw, keyfile) {
        Err(e) => e,
        Ok(_) => panic!("a damaged file opened"),
    }
}

#[test]
fn round_trip_get_equals_original() {
    let pw = b"a strong test passphrase";
    let raw = {
        let mut vault = Vault::new("store.vault", pw, None, fast()).unwrap();
        let mut meta = Meta::new("First");
        meta.tags = vec!["alpha".into(), "beta".into()];
        meta.notes = "some notes".into();
        vault.put("one", b"secret-one-bytes", meta);
        vault.put("two", &[0u8, 1, 2, 3, 255], Meta::new("Second"));
        vault.put("empty", b"", Meta::new("Empty"));
        save_bytes(&vault)
    };

    let vault = open_bytes(&raw, pw, None).unwrap();
    assert_eq!(vault.len(), 3);
    assert_eq!(vault.get("one").unwrap().secret(), b"secret-one-bytes");
    assert_eq!(vault.get("two").unwrap().secret(), &[0u8, 1, 2, 3, 255]);
    assert_eq!(vault.get("empty").unwrap().secret(), b"");

    let m = vault.get("one").unwrap().meta();
    assert_eq!(m.name, "First");
    assert_eq!(m.tags, vec!["alpha".to_string(), "beta".to_string()]);
    assert_eq!(m.notes, "some notes");

    let ids: Vec<String> = vault.ids();
    assert_eq!(ids, vec!["empty".to_string(), "one".to_string(), "two".to_string()]);

    assert!(!vault.is_empty());
    assert!(!vault.uses_keyfile());
}

#[test]
fn tamper_in_header_unused_flag_bit_fails_auth() {
    let pw = b"tamper flags";
    let mut raw = save_bytes(&Vault::new("store.vault", pw, None, fast()).unwrap());
    raw[FLAGS_OFFSET] ^= 0x80;
    let err = open_err(&raw, pw, None);
    assert!(matches!(err, Error::Auth), "expected Auth, got {err:?}");
}

#[test]
fn tamper_in_ciphertext_fails_auth() {
    let pw = b"tamper ciphertext";
    let mut vault = Vault::new("store.vault", pw, None, fast()).unwrap();
    vault.put("k", b"payload", Meta::new("k"));
    let mut raw = save_bytes(&vault);
    let last = raw.len() - 1;
    raw[last] ^= 0x01;
    let err = open_err(&raw, pw, None);
    assert!(matches!(err, Error::Auth), "expected Auth, got {err:?}");
}

#[test]
fn truncated_ciphertext_is_rejected_cleanly() {
    let pw = b"truncation test";
    let mut vault = Vault::new("store.vault", pw, None, fast()).unwrap();
    vault.put("k", b"a payload worth several bytes", Meta::new("k"));
    let mut raw = save_bytes(&vault);
    raw.truncate(raw.len() - 4);
    let err = open_err(&raw, pw, None);
    assert!(matches!(err, Error::MalformedHeader), "got {err:?}");
}

#[test]
fn salt_and_nonce_are_randomized_per_file() {
    let pw = b"identical password";
    let a = save_bytes(&Vault::new("a.vault", pw, None, fast()).unwrap());
    let b = save_bytes(&Vault::new("b.vault", pw, None, fast()).unwrap());

    let salt_a = &a[SALT_RANGE];
    let salt_b = &b[SALT_RANGE];
    let nonce_a = &a[NONCE_RANGE];
    let nonce_b = &b[NONCE_RANGE];

    assert_ne!(salt_a, salt_b, "salts must differ between files");
    assert_ne!(nonce_a, nonce_b, "nonces must differ between files");
    assert!(salt_a.iter().any(|&x| x != 0), "salt must not be all zero");
    assert!(nonce_a.iter().any(|&x| x != 0), "nonce must not be all zero");
}

#[test]
fn extreme_header_params_rejected_fast() {
    let pw = b"ceiling test";
    let mut raw = save_bytes(&Vault::new("store.vault", pw, None, fast()).unwrap());
    raw[M_COST_OFFSET..M_COST_OFFSET + 4].copy_from_slice(&u32::MAX.to_be_bytes());
    raw[T_COST_OFFSET..T_COST_OFFSET + 4].copy_from_slice(&u32::MAX.to_be_bytes());

    let start = std::time::Instant::now();
    let err = open_err(&raw, pw, None);
    assert!(matches!(err, Error::ParamsOutOfRange), "got {err:?}");
    assert!(start.elapsed() < std::time::Duration::from_secs(2));
}

#[test]
fn param_evolution_reads_stored_then_upgrades() {
    let pw = b"evolving parameters";
    let low = KdfParams::new(64, 1, 1);
    let higher = KdfParams::new(1024, 3, 1);

    let raw = {
        let mut vault = Vault::new("store.vault", pw, None, low).unwrap();
        vault.put("k", b"v", Meta::new("k"));
        save_bytes(&vault)
    };

    let mut vault = open_bytes(&raw, pw, None).unwrap();
    assert_eq!(vault.params(), low);
    assert_ne!(vault.params(), KdfParams::default());
    assert_eq!(vault.get("k").unwrap().secret(), b"v");

    vault.set_params(higher).unwrap();
    let raw = save_bytes(&vault);

    let reopened = open_bytes(&raw, pw, None).unwrap();
    assert_eq!(reopened.params(), higher);
    assert_eq!(reopened.get("k").unwrap().secret(), b"v");
}

#[test]
fn set_and_remove_and_meta() {
    let pw = b"metadata ops";
    let mut vault = Vault::new("store.vault", pw, None, fast()).unwrap();
    assert!(vault.is_empty());
    vault.put("k", b"v", Meta::new("original"));
    assert!(vault.contains("k"));
    assert!(!vault.is_empty());

    let mut updated = Meta::new("renamed");
    updated.notes = "changed".into();
    vault.set_meta("k", updated).unwrap();
    assert_eq!(vault.meta("k").unwrap().name, "renamed");

    assert!(matches!(vault.set_meta("missing", Meta::new("x")), Err(Error::NotFound)));

    let removed = vault.remove("k").unwrap();
    assert_eq!(removed.secret(), b"v");
    assert!(!vault.contains("k"));
    assert!(vault.is_empty());
}

#[test]
fn debug_never_prints_secrets() {
    let mut vault = Vault::new("store.vault", b"super secret passphrase", None, fast()).unwrap();
    vault.put("k", b"TOPSECRETVALUE", Meta::new("k"));

    let vault_dbg = vault.debug_string();
    assert!(!vault_dbg.contains("super secret passphrase"));
    assert!(!vault_dbg.contains("TOPSECRETVALUE"));
    assert!(vault_dbg.contains("entries"));
    assert!(vault_dbg.contains("path"));

    let entry_dbg = vault.get("k").unwrap().debug_string();
    assert!(!entry_dbg.contains("TOPSECRETVALUE"));
    assert!(entry_dbg.contains("meta"));
}

#[test]
fn put_entry_round_trips() {
    let pw = b"put_entry test";
    let mut vault = Vault::new("store.vault", pw, None, fast()).unwrap();
    let entry = Entry::new(b"prebuilt-secret", Meta::new("prebuilt"));
    assert!(vault.put_entry("k", entry).is_none());
    let raw = save_bytes(&vault);

    let reopened = open_bytes(&raw, pw, None).unwrap();
    let got = reopened.get("k").unwrap();
    assert_eq!(got.secret(), b"prebuilt-secret");
    assert_eq!(got.meta().name, "prebuilt");
}

#[test]
fn empty_entry_secret_is_never_locked() {
    let entry = Entry::new(b"", Meta::new("x"));
    assert!(!entry.is_secret_locked());
}

#[test]
fn entry_meta_mut_edits_in_place() {
    let mut entry = Entry::new(b"s", Meta::new("before"));
    entry.meta_mut().name = "after".to_string();
    assert_eq!(entry.meta().name, "after");
    assert_eq!(entry.secret(), b"s");
}

#[test]
fn not_a_vault_file_is_rejected() {
    assert!(matches!(open_err(b"this is not a vault file at all", b"whatever", None), Error::BadMagic));
}

#[test]
fn validate_uses_exact_minimum_memory() {
    assert!(matches!(KdfParams::new(u32::MAX, 1, 0x2000_0000).validate(), Err(Error::InvalidParams)));
    assert!(KdfParams::new(24, 1, 3).validate().is_ok());
    assert!(matches!(KdfParams::new(23, 1, 3).validate(), Err(Error::InvalidParams)));
}

#[test]
fn seal_with_given_salt_and_nonce_is_deterministic() {
    let pw = b"fixed draws";
    let vault = Vault::new("v", pw, None, fast()).unwrap();
    let salt = [7u8; 16];
    let nonce = [9u8; 24];
    let a = vault.seal_entries_with(b"payload", &salt, &nonce).unwrap();
    let b = vault.seal_entries_with(b"payload", &salt, &nonce).unwrap();
    assert_eq!(a, b);
    assert_eq!(&a[SALT_RANGE], &salt);
    assert_eq!(&a[NONCE_RANGE], &nonce);
    assert_eq!(a.len(), 92 + b"payload".len());
    let un = Vault::unseal(&a, pw, None).unwrap();
    assert_eq!(un.plaintext.as_slice(), b"payload");
}

#[test]
fn meta_timestamps_follow_the_given_time() {
    let mut m = Meta::new_at("n", 1_000);
    assert_eq!(m.created, 1_000);
    assert_eq!(m.modified, 1_000);
    m.touch_at(2_000);
    assert_eq!(m.created, 1_000);
    assert_eq!(m.modified, 2_000);
    assert_eq!(m.name, "n");
}
