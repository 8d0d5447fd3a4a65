use daemon_wallet::vault::format::{
    Header, KdfParams, AEAD_XCHACHA20POLY1305, FLAG_KEYFILE, FORMAT_VERSION, KDF_ARGON2ID,
    MAGIC, NONCE_LEN, SALT_LEN,
};
use daemon_wallet::vault::Error;

fn header_with(params: KdfParams, flags: u8, salt: u8, nonce: u8, ct_len: u64) -> Header {
    Header {
        version: FORMAT_VERSION,
        kdf_id: KDF_ARGON2ID,
        aead_id: AEAD_XCHACHA20POLY1305,
        params,
        flags,
        salt: vec![salt; SALT_LEN],
        nonce: vec![nonce; NONCE_LEN],
        ct_len,
    }
}

fn valid_header_bytes() -> Vec<u8> {
    header_with(KdfParams::new(64, 1, 1), 0, 1, 2, 0).to_bytes()
}

#[test]
fn header_round_trips() {
    let header = header_with(KdfParams::new(32, 1, 1), FLAG_KEYFILE, 7, 9, 12345);
    let bytes = header.to_bytes();
    let (parsed, consumed) = Header::parse(&bytes).unwrap();
    assert_eq!(consumed, bytes.len());
    assert_eq!(parsed.version, header.version);
    assert_eq!(parsed.params, header.params);
    assert_eq!(parsed.flags, header.flags);
    assert_eq!(parsed.salt, header.salt);
    assert_eq!(parsed.nonce, header.nonce);
    assert_eq!(parsed.ct_len, header.ct_len);
    assert!(parsed.requires_keyfile());
}

#[test]
fn bad_magic_is_rejected() {
    let mut bytes = header_with(KdfParams::new(32, 1, 1), 0, 0, 0, 0).to_bytes();
    bytes[0] ^= 0xff;
    assert!(matches!(Header::parse(&bytes), Err(Error::BadMagic)));
}

#[test]
fn truncated_header_is_rejected() {
    let bytes = header_with(KdfParams::new(32, 1, 1), 0, 0, 0, 0).to_bytes();
    assert!(matches!(
        Header::parse(&bytes[..bytes.len() - 4]),
        Err(Error::MalformedHeader)
    ));
}

#[test]
fn validate_rejects_zero_and_accepts_low() {
    assert!(KdfParams::new(0, 0, 0).validate().is_err());
    assert!(KdfParams::new(8, 1, 1).validate().is_ok());
    assert!(KdfParams::owasp_floor().validate().is_ok());
    assert!(KdfParams::recommended().validate().is_ok());
}

#[test]
fn validate_does_not_overflow_on_hostile_p_cost() {
    // 0x2000_0000 * 8 overflows u32. This must return an error, not panic.
    let hostile = KdfParams::new(1, 1, 0x2000_0000);
    assert!(hostile.validate().is_err());
}

#[test]
fn read_ceiling_rejects_extreme_params() {
    let bomb = KdfParams::new(u32::MAX, u32::MAX, u32::MAX);
    assert!(matches!(bomb.check_read_ceiling(), Err(Error::ParamsOutOfRange)));
    assert!(KdfParams::recommended().check_read_ceiling().is_ok());
    assert!(KdfParams::new(64, 1, 1).check_read_ceiling().is_ok());
}

#[test]
fn read_ceiling_rejects_each_clause_alone() {
    assert!(matches!(
        KdfParams::new(2_000_000, 1, 1).check_read_ceiling(),
        Err(Error::ParamsOutOfRange)
    ));
    assert!(matches!(
        KdfParams::new(64, u32::MAX, 1).check_read_ceiling(),
        Err(Error::ParamsOutOfRange)
    ));
    assert!(matches!(
        KdfParams::new(64, 1, u32::MAX).check_read_ceiling(),
        Err(Error::ParamsOutOfRange)
    ));
}

#[test]
fn parse_rejects_bad_version() {
    let mut bytes = valid_header_bytes();
    bytes[9] = 2;
    assert!(matches!(Header::parse(&bytes), Err(Error::UnsupportedVersion(2))));
}

#[test]
fn parse_rejects_bad_kdf_id() {
    let mut bytes = valid_header_bytes();
    bytes[10] = 2;
    assert!(matches!(Header::parse(&bytes), Err(Error::UnsupportedKdf(2))));
}

#[test]
fn parse_rejects_bad_aead_id() {
    let mut bytes = valid_header_bytes();
    bytes[11] = 2;
    assert!(matches!(Header::parse(&bytes), Err(Error::UnsupportedAead(2))));
}

#[test]
fn parse_rejects_bad_nonce_len() {
    let mut bytes = valid_header_bytes();
    bytes[27 + SALT_LEN] = 23;
    assert!(matches!(Header::parse(&bytes), Err(Error::MalformedHeader)));
}

#[test]
fn header_bytes_start_with_magic_and_have_fixed_length() {
    let bytes = valid_header_bytes();
    assert_eq!(&bytes[..8], &MAGIC[..]);
    assert_eq!(bytes.len(), 8 + 2 + 1 + 1 + 12 + 1 + 2 + SALT_LEN + 1 + NONCE_LEN + 8);
    assert_eq!(bytes[8], 0);
    assert_eq!(bytes[9], 1);
}

#[test]
fn header_without_keyfile_flag_does_not_require_one() {
    let bytes = valid_header_bytes();
    let (parsed, _) = Header::parse(&bytes).unwrap();
    assert!(!parsed.requires_keyfile());
}

#[test]
fn params_constructor_keeps_fields() {
    let p = KdfParams::new(5, 6, 7);
    assert_eq!((p.m_cost, p.t_cost, p.p_cost), (5, 6, 7));
    assert!(KdfParams::new(8, 0, 1).validate().is_err());
    assert!(KdfParams::new(7, 1, 1).validate().is_err());
}
