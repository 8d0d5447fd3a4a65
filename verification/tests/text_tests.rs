use daemon_wallet::text::{insert_sorted, str_eq, str_less};
use daemon_wallet::wallet::id::{AccountId, GroupId, KeyId, SeedId};
use daemon_wallet::wallet::seed::{DerivationPath, DerivationScheme};

#[test]
fn str_order_matches_std() {
    assert!(str_less("a", "b"));
    assert!(str_less("ab", "abc"));
    assert!(!str_less("b", "a"));
    assert!(!str_less("x", "x"));
    assert!(str_eq("same", "same"));
    assert!(!str_eq("same", "Same"));
}

#[test]
fn insert_sorted_keeps_order() {
    let mut v: Vec<String> = Vec::new();
    insert_sorted(&mut v, "m".to_string());
    insert_sorted(&mut v, "a".to_string());
    insert_sorted(&mut v, "z".to_string());
    assert_eq!(v, vec!["a", "m", "z"]);
}

#[test]
fn generated_ids_carry_their_prefix() {
    let g = GroupId::generate();
    assert!(g.as_str().starts_with("grp-"));
    assert_eq!(g.as_str().len(), 4 + 32);
    assert!(SeedId::generate().as_str().starts_with("seed-"));
    assert!(KeyId::generate().as_str().starts_with("key-"));
    assert!(AccountId::generate().as_str().starts_with("acct-"));
    assert_ne!(GroupId::generate().as_str(), GroupId::generate().as_str());
    assert_eq!(GroupId::prefix(), "grp");
}

#[test]
fn derivation_paths_follow_the_scheme() {
    assert_eq!(DerivationScheme::Bip44Standard.path_for(3).as_str(), "m/44'/60'/0'/0/3");
    assert_eq!(DerivationScheme::Bip44LedgerLive.path_for(7).as_str(), "m/44'/60'/7'/0/0");
    let custom = DerivationScheme::Custom { template: "m/{index}/x/{index}".to_string() };
    assert_eq!(custom.path_for(12).as_str(), "m/12/x/12");
    let literal = DerivationScheme::Custom { template: "m/{inde}".to_string() };
    assert_eq!(literal.path_for(1).as_str(), "m/{inde}");
    assert_eq!(DerivationPath::from_raw("m/0").as_str(), "m/0");
}
