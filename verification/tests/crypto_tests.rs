use daemon_wallet::vault::crypto::{derive_key, keyfile_secret, open, seal};
use daemon_wallet::vault::format::{KdfParams, NONCE_LEN};
use daemon_wallet::vault::Error;

const KAT_HEX: &str = "ae457fb8901ed0aeba9755be2f66d4cc8f809d975402bba2fb4ed10b8296b238b56114ba";

struct Kat {
    params: KdfParams,
    salt: [u8; 16],
    nonce: [u8; NONCE_LEN],
    password: &'static [u8],
    aad: &'static [u8],
    plaintext: &'static [u8],
}

fn kat_inputs() -> Kat {
    Kat {
        params: KdfParams::new(32, 1, 1),
        salt: [0x42u8; 16],
        nonce: [0x24u8; NONCE_LEN],
        password: b"correct horse battery staple",
        aad: b"daemon-wallet-vault header",
        plaintext: b"deterministic vector",
    }
}

#[test]
fn known_answer_vector() {
    let k = kat_inputs();
    let key = derive_key(&k.params, &k.salt, k.password, None).unwrap();
    let ct = seal(key.as_slice(), &k.nonce, k.aad, k.plaintext).unwrap();
    assert_eq!(hex::encode(&ct), KAT_HEX);

    let round = open(key.as_slice(), &k.nonce, k.aad, &ct).unwrap();
    assert_eq!(round.as_slice(), k.plaintext);
}

#[test]
fn keyfile_changes_the_key() {
    let k = kat_inputs();
    let plain = derive_key(&k.params, &k.salt, k.password, None).unwrap();
    let secret = keyfile_secret(b"a keyfile");
    let keyed = derive_key(&k.params, &k.salt, k.password, Some(secret.as_slice())).unwrap();
    assert_ne!(plain.as_slice(), keyed.as_slice());
}

#[test]
fn wrong_aad_fails_to_open() {
    let k = kat_inputs();
    let key = derive_key(&k.params, &k.salt, k.password, None).unwrap();
    let ct = seal(key.as_slice(), &k.nonce, k.aad, k.plaintext).unwrap();
    let bad = open(key.as_slice(), &k.nonce, b"different aad", &ct);
    assert!(matches!(bad, Err(Error::Auth)));
}

#[test]
fn derived_key_is_32_bytes_and_deterministic() {
    let k = kat_inputs();
    let a = derive_key(&k.params, &k.salt, k.password, None).unwrap();
    let b = derive_key(&k.params, &k.salt, k.password, None).unwrap();
    assert_eq!(a.len(), 32);
    assert_eq!(a.as_slice(), b.as_slice());
}

#[test]
fn derive_key_rejects_params_below_minimums() {
    let k = kat_inputs();
    let r = derive_key(&KdfParams::new(0, 1, 1), &k.salt, k.password, None);
    assert!(matches!(r, Err(Error::InvalidParams)));
}

#[test]
fn keyfile_secret_is_blake2b_256() {
    let s = keyfile_secret(b"a keyfile");
    assert_eq!(s.len(), 32);
    let t = keyfile_secret(b"another keyfile");
    assert_ne!(s.as_slice(), t.as_slice());
}

#[test]
fn seal_adds_a_sixteen_byte_tag_and_rejects_bad_nonce() {
    let key = [7u8; 32];
    let ct = seal(&key, &[1u8; NONCE_LEN], b"aad", b"hello").unwrap();
    assert_eq!(ct.len(), 5 + 16);
    assert_ne!(&ct[..5], b"hello");
    assert!(matches!(seal(&key, &[1u8; 12], b"aad", b"hello"), Err(Error::MalformedHeader)));
    assert!(matches!(open(&key, &[1u8; 12], b"aad", &ct), Err(Error::MalformedHeader)));
}

#[test]
fn tampered_ciphertext_fails_to_open() {
    let key = [9u8; 32];
    let nonce = [3u8; NONCE_LEN];
    let mut ct = seal(&key, &nonce, b"aad", b"payload").unwrap();
    ct[0] ^= 1;
    assert!(matches!(open(&key, &nonce, b"aad", &ct), Err(Error::Auth)));
}
