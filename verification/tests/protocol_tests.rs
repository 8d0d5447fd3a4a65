use daemon_wallet::protocol::dto::{AccountDto, AccountSourceKind, GroupDto, SignatureDto};
use daemon_wallet::protocol::{check_version, Error, RequestId, PROTOCOL_VERSION};
use daemon_wallet::evm::signer::Signature;
use daemon_wallet::wallet::account::{Account, AccountSource};
use daemon_wallet::wallet::chain::{ChainAddress, ChainKind};
use daemon_wallet::wallet::group::Group;
use daemon_wallet::wallet::id::{AccountId, GroupId, KeyId};

#[test]
fn version_check_accepts_only_this_version() {
    assert_eq!(PROTOCOL_VERSION, 1);
    assert!(check_version(1).is_ok());
    assert_eq!(check_version(2), Err(Error::UnsupportedVersion { got: 2, expected: 1 }));
    assert_eq!(check_version(0), Err(Error::UnsupportedVersion { got: 0, expected: 1 }));
}

#[test]
fn request_ids_order_by_value() {
    assert!(RequestId(1) < RequestId(2));
    assert_eq!(RequestId(7), RequestId(7));
}

#[test]
fn account_dto_flattens_an_account() {
    let a = Account {
        id: AccountId::from_raw("acct-1"),
        chain: ChainKind::Evm,
        address: ChainAddress::new("0xabc"),
        source: AccountSource::Imported { key: KeyId::from_raw("key-1") },
        group: GroupId::from_raw("grp-1"),
        label: "main".to_string(),
        hidden: true,
        do_not_rederive: false,
        notes: "n".to_string(),
        tags: vec!["t1".to_string(), "t2".to_string()],
    };
    let d = AccountDto::from_account(&a);
    assert_eq!(d.id, "acct-1");
    assert_eq!(d.address.as_str(), "0xabc");
    assert_eq!(d.label, "main");
    assert!(d.hidden);
    assert_eq!(d.source_kind, AccountSourceKind::Imported);
    assert_eq!(d.group, "grp-1");
    assert_eq!(d.tags, vec!["t1".to_string(), "t2".to_string()]);
}

#[test]
fn group_dto_flattens_a_group() {
    let g = Group {
        id: GroupId::from_raw("grp-2"),
        parent: Some(GroupId::from_raw("grp-1")),
        children: vec![GroupId::from_raw("grp-3"), GroupId::from_raw("grp-4")],
        name: "Trading".to_string(),
        notes: "notes".to_string(),
        tags: vec!["x".to_string()],
    };
    let d = GroupDto::from_group(&g);
    assert_eq!(d.id, "grp-2");
    assert_eq!(d.parent.as_deref(), Some("grp-1"));
    assert_eq!(d.children, vec!["grp-3".to_string(), "grp-4".to_string()]);
    assert_eq!(d.name, "Trading");
    assert_eq!(d.notes, "notes");
    assert_eq!(d.tags, vec!["x".to_string()]);
}

#[test]
fn signature_dto_copies_components() {
    let s = Signature { r: [5u8; 32], s: [6u8; 32], y_parity: true };
    let d = SignatureDto::from_signature(&s);
    assert_eq!(d.r, [5u8; 32]);
    assert_eq!(d.s, [6u8; 32]);
    assert!(d.y_parity);
}
