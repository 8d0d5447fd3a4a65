//! Stable wire data-transfer objects.
//!
//! These are the shapes that cross the wire. The account and group views are
//! flattened from the wallet's own types: opaque ids become plain strings, because
//! the wire has no reason to care about their type identity, and addresses travel
//! in the chain-neutral [`ChainAddress`] form.
use vstd::prelude::*;

use crate::evm::signer::Signature;
use crate::protocol::RequestId;
use crate::wallet::account::{Account, AccountSource};
use crate::wallet::chain::{ChainAddress, ChainKind};
use crate::wallet::group::{id_seq, opt_id, str_seq, Group};
use crate::wallet::id::GroupId;

verus! {

/// A dapp origin, for example `https://app.uniswap.org`.
#[derive(Clone, Debug, PartialEq, Eq, Hash)]
pub struct Origin(pub String);

/// How a client points at an account: by its stable id or by its address.
#[derive(Clone, Debug, PartialEq, Eq)]
pub enum AccountRef {
    /// Reference by the account's stable id.
    Id(String),
    /// Reference by the account's chain-neutral address.
    Address(ChainAddress),
}

/// The provenance of an account, flattened for the wire.
#[derive(Clone, Copy, Debug, PartialEq, Eq, Structural)]
pub enum AccountSourceKind {
    /// Derived from a seed.
    Derived,
    /// Backed by an imported private key.
    Imported,
}

/// Wire view of an account.
#[derive(Clone, Debug, PartialEq, Eq)]
pub struct AccountDto {
    /// The account's stable id, as a string.
    pub id: String,
    /// The chain family this account belongs to.
    pub chain: ChainKind,
    /// The account's chain-neutral address.
    pub address: ChainAddress,
    /// Display label.
    pub label: String,
    /// Whether the account is hidden from normal listings.
    pub hidden: bool,
    /// Whether the account is derived or imported.
    pub source_kind: AccountSourceKind,
    /// The id of the group the account is filed under, as a string.
    pub group: String,
    /// User tags.
    pub tags: Vec<String>,
}

/// Wire view of a group tree node. Structural links stay as ids, so a client can
/// rebuild the tree from a flat list exactly as the wallet stores it.
#[derive(Clone, Debug, PartialEq, Eq)]
pub struct GroupDto {
    /// This group's id, as a string.
    pub id: String,
    /// The parent group's id, or `None` for the root.
    pub parent: Option<String>,
    /// Child group ids, in order.
    pub children: Vec<String>,
    /// Display name.
    pub name: String,
    /// Free-form notes.
    pub notes: String,
    /// User tags.
    pub tags: Vec<String>,
}

/// What a parked approval is asking the user to authorise.
#[derive(Clone, Copy, Debug, PartialEq, Eq, Structural)]
pub enum ApprovalKind {
    /// An origin wants to connect.
    Connect,
    /// A transaction signature is requested.
    SignTransaction,
    /// An EIP-712 typed-data signature is requested.
    SignTypedData,
    /// An EIP-191 `personal_sign` is requested.
    PersonalSign,
}

/// Wire view of a request parked for human approval.
#[derive(Clone, Debug, PartialEq, Eq)]
pub struct ApprovalDto {
    /// The id of the parked request, to be echoed in approve/reject.
    pub id: RequestId,
    /// The origin that made the request.
    pub origin: Origin,
    /// What is being asked for.
    pub kind: ApprovalKind,
    /// The account involved, when the request names one, as a neutral address.
    pub account: Option<ChainAddress>,
    /// A short human-readable summary the UI can show verbatim.
    pub summary: String,
}

/// Wire view of daemon status.
#[derive(Clone, Debug, PartialEq, Eq)]
pub struct StatusDto {
    /// Whether the wallet is currently locked.
    pub locked: bool,
    /// The daemon's protocol version.
    pub protocol_version: u32,
    /// How many accounts the wallet holds.
    pub account_count: usize,
    /// The currently connected origins.
    pub connected_origins: Vec<Origin>,
}

/// Wire view of an EIP-712 typed-data payload: the raw canonical JSON document.
#[derive(Clone, Debug, PartialEq, Eq)]
pub struct TypedDataDto {
    /// The canonical EIP-712 JSON (`types`, `domain`, `primaryType`, `message`).
    pub raw_json: String,
}

/// Wire view of a secp256k1 signature, `r` and `s` as 32 big-endian bytes.
#[derive(Clone, Copy, Debug, PartialEq, Eq)]
pub struct SignatureDto {
    /// The `r` component.
    pub r: [u8; 32],
    /// The `s` component.
    pub s: [u8; 32],
    /// The recovery bit.
    pub y_parity: bool,
}

/// The wire kind of an account's provenance.
pub open spec fn source_kind_of(s: AccountSource) -> AccountSourceKind {
    match s {
        AccountSource::Derived { .. } => AccountSourceKind::Derived,
        AccountSource::Imported { .. } => AccountSourceKind::Imported,
    }
}

/// The wire kind says how an account came to be: `Derived` exactly for an account
/// derived from a seed, `Imported` exactly for an imported key.
pub proof fn lemma_source_kind_matches_source(s: AccountSource)
    ensures
        source_kind_of(s) is Derived <==> s is Derived,
        source_kind_of(s) is Imported <==> s is Imported,
{
}

/// Copies of a list of strings.
fn copy_strings(v: &Vec<String>) -> (r: Vec<String>)
    ensures
        str_seq(r@) == str_seq(v@),
{
    let mut out: Vec<String> = Vec::new();
    let mut i: usize = 0;
    while i < v.len()
        invariant
            i <= v@.len(),
            out@.len() == i,
            str_seq(out@) == str_seq(v@.subrange(0, i as int)),
        decreases v@.len() - i,
    {
        let ghost before = out@;
        out.push(v[i].clone());
        assert forall|j: int| 0 <= j < i + 1 implies #[trigger] str_seq(out@)[j] == str_seq(v@.subrange(0, i + 1))[j] by {
            if j < i {
                assert(str_seq(before)[j] == str_seq(v@.subrange(0, i as int))[j]);
                assert(out@[j] == before[j]);
            }
        }
        assert(str_seq(out@) =~= str_seq(v@.subrange(0, i + 1)));
        i = i + 1;
    }
    assert(v@.subrange(0, i as int) =~= v@);
    out
}

/// The text of a list of group ids.
fn id_strings(v: &Vec<GroupId>) -> (r: Vec<String>)
    ensures
        str_seq(r@) == id_seq(v@),
{
    let mut out: Vec<String> = Vec::new();
    let mut i: usize = 0;
    while i < v.len()
        invariant
            i <= v@.len(),
            out@.len() == i,
            str_seq(out@) == id_seq(v@.subrange(0, i as int)),
        decreases v@.len() - i,
    {
        let ghost before = out@;
        out.push(v[i].as_str().to_owned());
        assert forall|j: int| 0 <= j < i + 1 implies #[trigger] str_seq(out@)[j] == id_seq(v@.subrange(0, i + 1))[j] by {
            if j < i {
                assert(str_seq(before)[j] == id_seq(v@.subrange(0, i as int))[j]);
                assert(out@[j] == before[j]);
            }
        }
        assert(str_seq(out@) =~= id_seq(v@.subrange(0, i + 1)));
        i = i + 1;
    }
    assert(v@.subrange(0, i as int) =~= v@);
    out
}

/// The view of an optional string.
pub open spec fn opt_text(o: Option<String>) -> Option<Seq<char>> {
    match o {
        Some(s) => Some(s@),
        None => None,
    }
}

impl AccountDto {
    /// Flatten a wallet account into its wire view.
    pub fn from_account(a: &Account) -> (r: Self)
        ensures
            r.id@ == a.id@,
            r.chain == a.chain,
            r.address@ == a.address@,
            r.label@ == a.label@,
            r.hidden == a.hidden,
            r.source_kind == source_kind_of(a.source),
            r.source_kind is Derived <==> a.source is Derived,
            r.source_kind is Imported <==> a.source is Imported,
            r.group@ == a.group@,
            str_seq(r.tags@) == str_seq(a.tags@),
    {
        let source_kind = match &a.source {
            AccountSource::Derived { .. } => AccountSourceKind::Derived,
            AccountSource::Imported { .. } => AccountSourceKind::Imported,
        };
        AccountDto {
            id: a.id.as_str().to_owned(),
            chain: a.chain,
            address: a.address.duplicate(),
            label: a.label.clone(),
            hidden: a.hidden,
            source_kind,
            group: a.group.as_str().to_owned(),
            tags: copy_strings(&a.tags),
        }
    }
}

impl GroupDto {
    /// Flatten a group tree node into its wire view.
    pub fn from_group(g: &Group) -> (r: Self)
        ensures
            r.id@ == g.id@,
            opt_text(r.parent) == opt_id(g.parent),
            str_seq(r.children@) == id_seq(g.children@),
            r.name@ == g.name@,
            r.notes@ == g.notes@,
            str_seq(r.tags@) == str_seq(g.tags@),
    {
        let parent = match &g.parent {
            Some(p) => Some(p.as_str().to_owned()),
            None => None,
        };
        GroupDto {
            id: g.id.as_str().to_owned(),
            parent,
            children: id_strings(&g.children),
            name: g.name.clone(),
            notes: g.notes.clone(),
            tags: copy_strings(&g.tags),
        }
    }
}

impl SignatureDto {
    /// Convert an EVM signature into its wire view.
    pub fn from_signature(sig: &Signature) -> (r: Self)
        ensures
            r.r@ == sig.r@,
            r.s@ == sig.s@,
            r.y_parity == sig.y_parity,
    {
        SignatureDto { r: sig.r, s: sig.s, y_parity: sig.y_parity }
    }
}

} // verus!
