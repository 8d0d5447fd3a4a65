use daemon_wallet::evm::chains::{ChainInfo, ChainInfoRegistry, MergeReport, BUILTIN_CHAIN_IDS};
use daemon_wallet::evm::error::Error as EvmError;
use daemon_wallet::evm::evm_chain::{message_payload, typed_data_payload, EvmChain};
use daemon_wallet::evm::signer::{parse_signature, Signature, TypedDataRequest};
use daemon_wallet::wallet::chain::{Chain, ChainAddress, ChainKind, ChainRegistry, PayloadKind};
use daemon_wallet::wallet::error::Error;
use daemon_wallet::wallet::seed::DerivationPath;

fn info(id: u64, name: &str, urls: &[&str]) -> ChainInfo {
    ChainInfo {
        chain_id: id,
        name: name.to_string(),
        native_symbol: "TST".to_string(),
        decimals: 18,
        rpc_urls: urls.iter().map(|u| u.to_string()).collect(),
        explorer: None,
    }
}

#[test]
fn builtin_registry_holds_the_pinned_chains_in_id_order() {
    let reg = ChainInfoRegistry::builtin();
    let ids: Vec<u64> = reg.iter().iter().map(|c| c.chain_id).collect();
    assert_eq!(ids, vec![1, 10, 56, 137, 8453, 42161, 11155111]);
    assert_eq!(reg.get(1).unwrap().name, "Ethereum Mainnet");
    assert_eq!(reg.get(137).unwrap().native_symbol, "POL");
    assert!(reg.get(2).is_none());
    for c in reg.iter() {
        assert!(c.rpc_urls.iter().all(|u| u.starts_with("https://")));
        assert_eq!(c.decimals, 18);
    }
    let mut sorted = BUILTIN_CHAIN_IDS.to_vec();
    sorted.sort();
    assert_eq!(ids, sorted);
}

#[test]
fn is_authoritative_matches_the_builtin_set() {
    for id in BUILTIN_CHAIN_IDS {
        assert!(ChainInfoRegistry::is_authoritative(id));
    }
    assert!(!ChainInfoRegistry::is_authoritative(2));
    assert!(!ChainInfoRegistry::is_authoritative(100));
}

#[test]
fn by_name_ignores_ascii_case() {
    let reg = ChainInfoRegistry::builtin();
    assert_eq!(reg.by_name("ethereum mainnet").unwrap().chain_id, 1);
    assert_eq!(reg.by_name("OP MAINNET").unwrap().chain_id, 10);
    assert!(reg.by_name("Ethereum").is_none());
}

#[test]
fn insert_replaces_and_returns_previous() {
    let mut reg = ChainInfoRegistry::builtin();
    assert!(reg.insert(info(100, "Gnosis", &["https://rpc.gnosischain.com"])).is_none());
    let prev = reg.insert(info(100, "Gnosis Chain", &["http://plain"])).unwrap();
    assert_eq!(prev.name, "Gnosis");
    assert_eq!(reg.get(100).unwrap().rpc_urls, vec!["http://plain".to_string()]);
    let prev = reg.insert(info(1, "Overridden", &["https://x"])).unwrap();
    assert_eq!(prev.name, "Ethereum Mainnet");
    assert_eq!(reg.get(1).unwrap().name, "Overridden");
}

#[test]
fn merge_validated_applies_both_rules() {
    let mut reg = ChainInfoRegistry::builtin();
    let report = reg.merge_validated(vec![
        info(1, "Evil Mainnet", &["https://evil.example"]),
        info(100, "Gnosis", &["http://insecure", "https://rpc.gnosischain.com", "ws://x"]),
        info(200, "Plain", &["http://only-insecure"]),
        info(100, "Gnosis v2", &["https://rpc2.gnosischain.com"]),
        info(300, "Empty", &[]),
    ]);
    assert_eq!(
        report,
        MergeReport {
            inserted: vec![100],
            updated: vec![100],
            rejected_authoritative: vec![1],
            rejected_no_secure_rpc: vec![200, 300],
            stripped_insecure_urls: 3,
        }
    );
    assert_eq!(reg.get(1).unwrap().name, "Ethereum Mainnet");
    assert_eq!(reg.get(100).unwrap().name, "Gnosis v2");
    assert_eq!(reg.get(100).unwrap().rpc_urls, vec!["https://rpc2.gnosischain.com".to_string()]);
    assert!(reg.get(200).is_none());
    assert!(reg.get(300).is_none());
}

#[test]
fn merge_keeps_only_https_urls_in_order() {
    let mut reg = ChainInfoRegistry::builtin();
    let report = reg.merge_validated(vec![info(
        999,
        "Mixed",
        &["https://a", "http://b", "https://c", "HTTPS://d", "https:/e"],
    )]);
    assert_eq!(report.inserted, vec![999]);
    assert_eq!(report.stripped_insecure_urls, 3);
    assert_eq!(reg.get(999).unwrap().rpc_urls, vec!["https://a".to_string(), "https://c".to_string()]);
}

#[test]
fn merge_of_nothing_changes_nothing() {
    let mut reg = ChainInfoRegistry::builtin();
    let report = reg.merge_validated(Vec::new());
    assert_eq!(report, MergeReport::default());
    assert_eq!(reg.iter().len(), 7);
}

#[test]
fn signature_rsv_round_trip() {
    let sig = Signature { r: [1u8; 32], s: [2u8; 32], y_parity: true };
    let rsv = sig.to_rsv();
    assert_eq!(rsv.len(), 65);
    assert_eq!(&rsv[..32], &[1u8; 32]);
    assert_eq!(&rsv[32..64], &[2u8; 32]);
    assert_eq!(rsv[64], 28);
    assert_eq!(parse_signature(&rsv).unwrap(), sig);
    let low = Signature { r: [3u8; 32], s: [4u8; 32], y_parity: false };
    assert_eq!(low.to_rsv()[64], 27);
    assert_eq!(parse_signature(&low.to_rsv()).unwrap(), low);
}

#[test]
fn parse_signature_rejects_malformed_input() {
    assert!(matches!(parse_signature(&[0u8; 64]), Err(EvmError::InvalidSignature)));
    let mut bytes = [0u8; 65];
    bytes[64] = 29;
    assert!(matches!(parse_signature(&bytes), Err(EvmError::InvalidSignature)));
    bytes[64] = 1;
    assert!(parse_signature(&bytes).unwrap().y_parity);
    bytes[64] = 0;
    assert!(!parse_signature(&bytes).unwrap().y_parity);
}

#[test]
fn evm_errors_fold_into_wallet_errors() {
    assert!(matches!(Error::from(EvmError::InvalidAddress), Error::AddressParse));
    assert!(matches!(Error::from(EvmError::InvalidPrivateKey), Error::Derivation));
    assert!(matches!(Error::from(EvmError::InvalidSignature), Error::Signing));
    assert!(matches!(Error::from(EvmError::InvalidPayload), Error::Signing));
    assert!(matches!(Error::from(EvmError::Signer), Error::Signing));
}

#[test]
fn payload_builders_tag_the_evm_family() {
    let m = message_payload(b"hello");
    assert_eq!(m.chain, ChainKind::Evm);
    assert_eq!(m.kind, PayloadKind::Message);
    assert_eq!(m.body, b"hello".to_vec());
    let t = typed_data_payload(&TypedDataRequest { raw_json: "{\"a\":1}".to_string() });
    assert_eq!(t.kind, PayloadKind::TypedData);
    assert_eq!(t.body, b"{\"a\":1}".to_vec());
}

#[test]
fn evm_chain_registers_under_evm() {
    let mut chains = ChainRegistry::new();
    assert!(chains.register(Box::new(EvmChain::new())).is_none());
    assert!(chains.contains(ChainKind::Evm));
    assert_eq!(chains.kinds(), vec![ChainKind::Evm]);
    assert_eq!(EvmChain::new().kind(), ChainKind::Evm);
}

#[test]
fn evm_addresses_are_canonicalised_to_eip55() {
    let c = EvmChain::new();
    let a = c.parse_address("0xd8da6bf26964af9d7eed9e03e53415d37aa96045").unwrap();
    assert_eq!(a.as_str(), "0xd8dA6BF26964aF9D7eEd9e03E53415D37aA96045");
    let again = c.parse_address(a.as_str()).unwrap();
    assert_eq!(again.as_str(), a.as_str());
    assert!(matches!(c.parse_address("not an address"), Err(Error::AddressParse)));
    assert!(matches!(c.parse_address("0x1234"), Err(Error::AddressParse)));
    let raw = ChainAddress::new("0xd8da6bf26964af9d7eed9e03e53415d37aa96045");
    assert_eq!(c.format_address(&raw), "0xd8dA6BF26964aF9D7eEd9e03E53415D37aA96045");
    assert_eq!(c.format_address(&ChainAddress::new("junk")), "junk");
}

#[test]
fn evm_chain_without_backend_refuses_keys() {
    let c = EvmChain::new();
    let path = DerivationPath::from_raw("m/44'/60'/0'/0/0");
    assert!(matches!(c.derive_address(b"seed", &path), Err(Error::Derivation)));
    assert!(matches!(c.import_address(&[1u8; 32]), Err(Error::Derivation)));
}

#[test]
fn merge_keeps_last_secure_entry_per_id() {
    let mut reg = ChainInfoRegistry::builtin();
    reg.merge_validated(vec![
        info(7777, "First", &["https://one.example"]),
        info(7777, "Second", &["https://two.example", "http://plain.example"]),
        info(7777, "Third", &["http://only-plain.example"]),
    ]);
    let c = reg.get(7777).unwrap();
    assert_eq!(c.name, "Second");
    assert_eq!(c.rpc_urls, vec!["https://two.example".to_string()]);
}

#[test]
fn by_name_finds_upper_cased_names() {
    let reg = ChainInfoRegistry::builtin();
    assert_eq!(reg.by_name("sepolia").unwrap().chain_id, 11155111);
    assert_eq!(reg.by_name("SEPOLIA").unwrap().chain_id, 11155111);
    assert!(reg.by_name("SEPOLIA2").is_none());
}

#[test]
fn register_returns_the_displaced_chain() {
    let mut chains = ChainRegistry::new();
    assert!(chains.register(Box::new(EvmChain::new())).is_none());
    let displaced = chains.register(Box::new(EvmChain::new())).unwrap();
    assert_eq!(displaced.kind(), ChainKind::Evm);
    assert!(chains.contains(ChainKind::Evm));
}

#[test]
fn parse_address_accepts_exactly_forty_hex_digits() {
    let evm = EvmChain::new();
    let lower = "0x5aaeb6053f3e94c9b9a09f33669435e7ef1beaed";
    let canonical = evm.parse_address(lower).unwrap();
    assert_eq!(canonical.as_str(), "0x5aAeb6053F3E94C9b9A09f33669435E7Ef1BeAed");
    assert_eq!(evm.parse_address("5aaeb6053f3e94c9b9a09f33669435e7ef1beaed").unwrap(), canonical);
    assert_eq!(evm.parse_address("0X5AAEB6053F3E94C9B9A09F33669435E7EF1BEAED").unwrap(), canonical);
    assert!(evm.parse_address("0x5aaeb6053f3e94c9b9a09f33669435e7ef1bea").is_err());
    assert!(evm.parse_address("0x5aaeb6053f3e94c9b9a09f33669435e7ef1beaedff").is_err());
    assert!(evm.parse_address("0x5aaeb6053f3e94c9b9a09f33669435e7ef1beaeg").is_err());
}
