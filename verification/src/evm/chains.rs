//! The EVM chain-info registry and its safe external-merge interface.
//!
//! The registry holds EVM metadata (chain id, name, symbol, rpc urls) keyed by chain
//! id. It ships with a small pinned set of well-known chains that are authoritative:
//! external data can never overwrite them, because a chain id is what a signature is
//! bound to and rebinding a known id is a replay hazard.
//!
//! Externally sourced chain lists enter only through
//! [`ChainInfoRegistry::merge_validated`], which enforces two rules: every rpc url
//! must be `https://…` (others are stripped, and an entry left with none is dropped),
//! and an entry whose id is in the built-in set is rejected wholesale. Each
//! per-entry decision is reported in a [`MergeReport`].
use vstd::prelude::*;
use vstd::string::StrSliceExecFns;
use vstd::std_specs::iter::IteratorSpec;
use std::collections::BTreeMap;

use crate::wallet::group::str_seq;

verus! {

broadcast use vstd::std_specs::btree::group_btree_axioms;

/// Static description of one EVM chain.
#[derive(Clone, Debug, PartialEq, Eq)]
pub struct ChainInfo {
    /// The EIP-155 chain id.
    pub chain_id: u64,
    /// Human-facing name, for example `"Ethereum Mainnet"`.
    pub name: String,
    /// The native currency symbol, for example `"ETH"`.
    pub native_symbol: String,
    /// The native currency's decimal places.
    pub decimals: u8,
    /// Candidate JSON-RPC endpoints.
    pub rpc_urls: Vec<String>,
    /// Optional block explorer base url.
    pub explorer: Option<String>,
}

/// The mathematical content of a [`ChainInfo`].
pub struct ChainInfoModel {
    pub chain_id: u64,
    pub name: Seq<char>,
    pub native_symbol: Seq<char>,
    pub decimals: u8,
    pub rpc_urls: Seq<Seq<char>>,
    pub explorer: Option<Seq<char>>,
}

/// The view of an optional string.
pub open spec fn opt_chars(o: Option<String>) -> Option<Seq<char>> {
    match o {
        Some(s) => Some(s@),
        None => None,
    }
}

impl View for ChainInfo {
    type V = ChainInfoModel;

    open spec fn view(&self) -> ChainInfoModel {
        ChainInfoModel {
            chain_id: self.chain_id,
            name: self.name@,
            native_symbol: self.native_symbol@,
            decimals: self.decimals,
            rpc_urls: str_seq(self.rpc_urls@),
            explorer: opt_chars(self.explorer),
        }
    }
}

/// The views of a list of chain descriptions.
pub open spec fn infos(v: Seq<ChainInfo>) -> Seq<ChainInfoModel> {
    v.map_values(|c: ChainInfo| c@)
}

/// The chain ids that ship pinned and authoritative in every registry.
pub const BUILTIN_CHAIN_IDS: [u64; 7] = [1, 11155111, 8453, 42161, 10, 137, 56];

/// Whether a chain id is one of [`BUILTIN_CHAIN_IDS`].
pub open spec fn is_builtin_id(id: u64) -> bool {
    id == 1 || id == 11155111 || id == 8453 || id == 42161 || id == 10 || id == 137 || id == 56
}

/// The scheme prefix every accepted rpc url starts with.
pub open spec fn https_scheme() -> Seq<char> {
    seq!['h', 't', 't', 'p', 's', ':', '/', '/']
}

/// Whether a url starts with `https://`.
pub open spec fn is_https(u: Seq<char>) -> bool {
    u.len() >= 8 && u.subrange(0, 8) == https_scheme()
}

/// The `https://` urls of a list, in order.
pub open spec fn https_only(us: Seq<Seq<char>>) -> Seq<Seq<char>>
    decreases us.len(),
{
    if us.len() == 0 {
        Seq::empty()
    } else if is_https(us.last()) {
        https_only(us.drop_last()).push(us.last())
    } else {
        https_only(us.drop_last())
    }
}

/// Every url kept by [`https_only`] is an `https://` url of the input.
pub proof fn lemma_https_only_secure(us: Seq<Seq<char>>)
    ensures
        https_only(us).len() <= us.len(),
        forall|i: int| 0 <= i < https_only(us).len() ==> is_https(#[trigger] https_only(us)[i]),
        forall|i: int| 0 <= i < https_only(us).len() ==> us.contains(#[trigger] https_only(us)[i]),
    decreases us.len(),
{
    if us.len() > 0 {
        lemma_https_only_secure(us.drop_last());
        let rest = https_only(us.drop_last());
        assert forall|i: int| 0 <= i < https_only(us).len() implies us.contains(
            #[trigger] https_only(us)[i],
        ) by {
            if i < rest.len() {
                let j = choose|j: int| 0 <= j < us.drop_last().len() && us.drop_last()[j] == rest[i];
                assert(us[j] == rest[i]);
            } else {
                assert(us[us.len() - 1] == https_only(us)[i]);
            }
        }
    }
}

/// Total number of rpc urls across a list of chain descriptions.
pub open spec fn total_urls(es: Seq<ChainInfoModel>) -> int
    decreases es.len(),
{
    if es.len() == 0 {
        0
    } else {
        total_urls(es.drop_last()) + es.last().rpc_urls.len()
    }
}

/// A chain description with its rpc urls replaced.
pub open spec fn with_urls(c: ChainInfoModel, urls: Seq<Seq<char>>) -> ChainInfoModel {
    ChainInfoModel { rpc_urls: urls, ..c }
}

/// ASCII case folding of one character, as a code point.
pub open spec fn fold_case(c: char) -> u32 {
    if 'A' <= c <= 'Z' {
        (c as u32 + 32) as u32
    } else {
        c as u32
    }
}

/// Equality of two names up to ASCII case.
pub open spec fn names_match(a: Seq<char>, b: Seq<char>) -> bool {
    a.len() == b.len() && forall|i: int| 0 <= i < a.len() ==> fold_case(#[trigger] a[i]) == fold_case(b[i])
}

/// ASCII upper-casing of one character.
pub open spec fn upper_case(c: char) -> char {
    if 'a' <= c <= 'z' {
        ((c as u32) - 32) as char
    } else {
        c
    }
}

/// A name matches another up to ASCII case exactly when it matches the other's
/// ASCII upper-cased form; so [`ChainInfoRegistry::by_name`] finds a chain for a
/// name exactly when it finds one for its upper-cased form.
pub proof fn lemma_names_match_ignores_case(a: Seq<char>, b: Seq<char>)
    ensures
        names_match(a, b) <==> names_match(a, b.map_values(|c: char| upper_case(c))),
{
    let u = b.map_values(|c: char| upper_case(c));
    assert forall|i: int| 0 <= i < b.len() implies fold_case(#[trigger] u[i]) == fold_case(b[i]) by {
        let c = b[i];
        assert(u[i] == upper_case(c));
        if 'a' <= c <= 'z' {
            let x = (c as u32) - 32;
            assert(65 <= x <= 90);
            assert((x as char) as u32 == x);
        }
    }
    if names_match(a, b) {
        assert forall|i: int| 0 <= i < a.len() implies fold_case(#[trigger] a[i]) == fold_case(u[i]) by {
            assert(fold_case(u[i]) == fold_case(b[i]));
        }
    }
    if names_match(a, u) {
        assert forall|i: int| 0 <= i < a.len() implies fold_case(#[trigger] a[i]) == fold_case(b[i]) by {
            assert(fold_case(u[i]) == fold_case(b[i]));
        }
    }
}

// --- merge model -------------------------------------------------------------------

/// The registry contents and the report being built by a merge.
pub struct MergeState {
    pub reg: Map<u64, ChainInfoModel>,
    pub inserted: Seq<u64>,
    pub updated: Seq<u64>,
    pub rejected_authoritative: Seq<u64>,
    pub rejected_no_secure_rpc: Seq<u64>,
    pub stripped: int,
}

/// What merging one external entry does.
///
/// An authoritative id is refused untouched. Otherwise the non-HTTPS urls are
/// stripped and counted; an entry left with no url is dropped, and any other is
/// stored (as an update when its id was already present, else as an insertion).
pub open spec fn merge_step(s: MergeState, e: ChainInfoModel) -> MergeState {
    if is_builtin_id(e.chain_id) {
        MergeState { rejected_authoritative: s.rejected_authoritative.push(e.chain_id), ..s }
    } else {
        let kept = https_only(e.rpc_urls);
        let stripped = s.stripped + (e.rpc_urls.len() - kept.len());
        if kept.len() == 0 {
            MergeState {
                rejected_no_secure_rpc: s.rejected_no_secure_rpc.push(e.chain_id),
                stripped,
                ..s
            }
        } else if s.reg.contains_key(e.chain_id) {
            MergeState {
                reg: s.reg.insert(e.chain_id, with_urls(e, kept)),
                updated: s.updated.push(e.chain_id),
                stripped,
                ..s
            }
        } else {
            MergeState {
                reg: s.reg.insert(e.chain_id, with_urls(e, kept)),
                inserted: s.inserted.push(e.chain_id),
                stripped,
                ..s
            }
        }
    }
}

/// Merging a list of external entries, in order.
pub open spec fn merge_fold(s: MergeState, es: Seq<ChainInfoModel>) -> MergeState
    decreases es.len(),
{
    if es.len() == 0 {
        s
    } else {
        merge_step(merge_fold(s, es.drop_last()), es.last())
    }
}

/// The state a merge into `reg` starts from.
pub open spec fn merge_start(reg: Map<u64, ChainInfoModel>) -> MergeState {
    MergeState {
        reg,
        inserted: Seq::empty(),
        updated: Seq::empty(),
        rejected_authoritative: Seq::empty(),
        rejected_no_secure_rpc: Seq::empty(),
        stripped: 0,
    }
}

// --- report --------------------------------------------------------------------------

/// A per-entry account of what a [`ChainInfoRegistry::merge_validated`] call did.
#[derive(Clone, Debug, Default, PartialEq, Eq)]
pub struct MergeReport {
    /// Chain ids newly added to the registry.
    pub inserted: Vec<u64>,
    /// Previously present (non-authoritative) chain ids whose entry was updated.
    pub updated: Vec<u64>,
    /// Chain ids refused because they are authoritative built-ins.
    pub rejected_authoritative: Vec<u64>,
    /// Chain ids dropped because no HTTPS rpc url remained after filtering.
    pub rejected_no_secure_rpc: Vec<u64>,
    /// Total count of individual non-HTTPS rpc urls stripped across all entries.
    pub stripped_insecure_urls: usize,
}

/// Whether a report records exactly what a merge state holds.
pub open spec fn reports(r: MergeReport, s: MergeState) -> bool {
    &&& r.inserted@ == s.inserted
    &&& r.updated@ == s.updated
    &&& r.rejected_authoritative@ == s.rejected_authoritative
    &&& r.rejected_no_secure_rpc@ == s.rejected_no_secure_rpc
    &&& r.stripped_insecure_urls == s.stripped
}

// --- registry ------------------------------------------------------------------------

/// The pinned description of a built-in chain.
pub open spec fn pinned(
    id: u64,
    name: Seq<char>,
    symbol: Seq<char>,
    rpc: Seq<char>,
    explorer: Seq<char>,
) -> ChainInfoModel {
    ChainInfoModel {
        chain_id: id,
        name,
        native_symbol: symbol,
        decimals: 18,
        rpc_urls: seq![rpc],
        explorer: Some(explorer),
    }
}

/// The contents of [`ChainInfoRegistry::builtin`].
pub open spec fn builtin_chains() -> Map<u64, ChainInfoModel> {
    map![
        1u64 => pinned(1, "Ethereum Mainnet"@, "ETH"@, "https://ethereum-rpc.publicnode.com"@, "https://etherscan.io"@),
        11155111u64 => pinned(11155111, "Sepolia"@, "ETH"@, "https://ethereum-sepolia-rpc.publicnode.com"@, "https://sepolia.etherscan.io"@),
        8453u64 => pinned(8453, "Base"@, "ETH"@, "https://mainnet.base.org"@, "https://basescan.org"@),
        42161u64 => pinned(42161, "Arbitrum One"@, "ETH"@, "https://arb1.arbitrum.io/rpc"@, "https://arbiscan.io"@),
        10u64 => pinned(10, "OP Mainnet"@, "ETH"@, "https://mainnet.optimism.io"@, "https://optimistic.etherscan.io"@),
        137u64 => pinned(137, "Polygon"@, "POL"@, "https://polygon-rpc.com"@, "https://polygonscan.com"@),
        56u64 => pinned(56, "BNB Smart Chain"@, "BNB"@, "https://bsc-dataseed.bnbchain.org"@, "https://bscscan.com"@)
    ]
}

/// Whether every rpc url of a chain description is an `https://` url, and it has one.
pub open spec fn secure_entry(c: ChainInfoModel) -> bool {
    c.rpc_urls.len() > 0 && forall|i: int| 0 <= i < c.rpc_urls.len() ==> is_https(#[trigger] c.rpc_urls[i])
}

/// The built-in chains are authoritative: no merge adds, removes or changes an entry
/// whose id is in the built-in set.
pub proof fn lemma_merge_keeps_authoritative(reg: Map<u64, ChainInfoModel>, es: Seq<ChainInfoModel>)
    ensures
        forall|id: u64|
            is_builtin_id(id) ==> (#[trigger] merge_fold(merge_start(reg), es).reg.contains_key(id)
                == reg.contains_key(id)) && (reg.contains_key(id) ==> merge_fold(
                merge_start(reg),
                es,
            ).reg[id] == reg[id]),
{
    lemma_fold_keeps_authoritative(merge_start(reg), es);
}

proof fn lemma_fold_keeps_authoritative(s: MergeState, es: Seq<ChainInfoModel>)
    ensures
        forall|id: u64|
            is_builtin_id(id) ==> (#[trigger] merge_fold(s, es).reg.contains_key(id)
                == s.reg.contains_key(id)) && (s.reg.contains_key(id) ==> merge_fold(s, es).reg[id]
                == s.reg[id]),
    decreases es.len(),
{
    if es.len() > 0 {
        lemma_fold_keeps_authoritative(s, es.drop_last());
        let prev = merge_fold(s, es.drop_last());
        let e = es.last();
        assert(merge_fold(s, es) == merge_step(prev, e));
        assert forall|id: u64| is_builtin_id(id) implies (#[trigger] merge_fold(
            s,
            es,
        ).reg.contains_key(id) == s.reg.contains_key(id)) && (s.reg.contains_key(id)
            ==> merge_fold(s, es).reg[id] == s.reg[id]) by {
            assert(prev.reg.contains_key(id) == s.reg.contains_key(id));
            if !is_builtin_id(e.chain_id) {
                assert(e.chain_id != id);
            }
        }
    }
}

/// Every external entry is accounted for exactly once: it is inserted, updated,
/// refused as authoritative or dropped for want of a secure url. Refused entries
/// are exactly the authoritative ones.
pub proof fn lemma_merge_accounts_every_entry(reg: Map<u64, ChainInfoModel>, es: Seq<ChainInfoModel>)
    ensures
        ({
            let s = merge_fold(merge_start(reg), es);
            &&& s.inserted.len() + s.updated.len() + s.rejected_authoritative.len()
                + s.rejected_no_secure_rpc.len() == es.len()
            &&& forall|i: int|
                0 <= i < s.rejected_authoritative.len() ==> is_builtin_id(
                    #[trigger] s.rejected_authoritative[i],
                )
            &&& forall|i: int| 0 <= i < s.inserted.len() ==> !is_builtin_id(#[trigger] s.inserted[i])
            &&& forall|i: int| 0 <= i < s.updated.len() ==> !is_builtin_id(#[trigger] s.updated[i])
            &&& forall|i: int|
                0 <= i < s.rejected_no_secure_rpc.len() ==> !is_builtin_id(
                    #[trigger] s.rejected_no_secure_rpc[i],
                )
        }),
    decreases es.len(),
{
    if es.len() > 0 {
        lemma_merge_accounts_every_entry(reg, es.drop_last());
    }
}

/// After a merge, every entry of the registry is either one it held before,
/// unchanged, or an entry whose rpc urls are all `https://` and not empty.
pub proof fn lemma_merge_stores_only_secure(reg: Map<u64, ChainInfoModel>, es: Seq<ChainInfoModel>)
    ensures
        forall|id: u64| #[trigger]
            merge_fold(merge_start(reg), es).reg.contains_key(id) ==> (reg.contains_key(id)
                && merge_fold(merge_start(reg), es).reg[id] == reg[id]) || secure_entry(
                merge_fold(merge_start(reg), es).reg[id],
            ),
    decreases es.len(),
{
    if es.len() > 0 {
        lemma_merge_stores_only_secure(reg, es.drop_last());
        let prev = merge_fold(merge_start(reg), es.drop_last());
        let cur = merge_fold(merge_start(reg), es);
        let e = es.last();
        let kept = https_only(e.rpc_urls);
        lemma_https_only_secure(e.rpc_urls);
        assert(cur == merge_step(prev, e));
        assert forall|id: u64| #[trigger] cur.reg.contains_key(id) implies (reg.contains_key(id)
            && cur.reg[id] == reg[id]) || secure_entry(cur.reg[id]) by {
            if !is_builtin_id(e.chain_id) && kept.len() > 0 && id == e.chain_id {
                assert(cur.reg[id] == with_urls(e, kept));
            } else {
                assert(prev.reg.contains_key(id));
                assert(cur.reg[id] == prev.reg[id]);
            }
        }
    }
}

/// Whether merging `e` stores an entry under `id`: it is for `id`, `id` is not a
/// built-in, and at least one of its rpc urls is `https://`.
pub open spec fn stores(e: ChainInfoModel, id: u64) -> bool {
    &&& e.chain_id == id
    &&& !is_builtin_id(id)
    &&& https_only(e.rpc_urls).len() > 0
}

/// `es[i]` is the last entry of `es` that stores an entry under `id`.
pub open spec fn last_store_at(es: Seq<ChainInfoModel>, id: u64, i: int) -> bool {
    &&& 0 <= i < es.len()
    &&& stores(es[i], id)
    &&& forall|j: int| i < j < es.len() ==> !stores(#[trigger] es[j], id)
}

/// What a merge leaves under one id, stated directly: when some entry stores
/// under `id`, the last such entry, with only its `https://` urls; when none
/// does (in particular for a built-in id), what the registry held before.
pub proof fn lemma_merge_per_id(reg: Map<u64, ChainInfoModel>, es: Seq<ChainInfoModel>, id: u64)
    ensures
        (forall|j: int| 0 <= j < es.len() ==> !stores(#[trigger] es[j], id)) ==> {
            &&& merge_fold(merge_start(reg), es).reg.contains_key(id) == reg.contains_key(id)
            &&& reg.contains_key(id) ==> merge_fold(merge_start(reg), es).reg[id] == reg[id]
        },
        forall|i: int| #[trigger] last_store_at(es, id, i) ==> {
            &&& merge_fold(merge_start(reg), es).reg.contains_key(id)
            &&& merge_fold(merge_start(reg), es).reg[id] == with_urls(es[i], https_only(es[i].rpc_urls))
        },
    decreases es.len(),
{
    if es.len() > 0 {
        let init = es.drop_last();
        let e = es.last();
        lemma_merge_per_id(reg, init, id);
        let prev = merge_fold(merge_start(reg), init);
        let cur = merge_fold(merge_start(reg), es);
        assert(cur == merge_step(prev, e));
        if stores(e, id) {
            assert(cur.reg == prev.reg.insert(id, with_urls(e, https_only(e.rpc_urls))));
            assert(!(forall|j: int| 0 <= j < es.len() ==> !stores(#[trigger] es[j], id))) by {
                assert(stores(es[es.len() - 1], id));
            }
            assert forall|i: int| #[trigger] last_store_at(es, id, i) implies i == es.len() - 1 by {
                if i < es.len() - 1 {
                    assert(!stores(es[es.len() - 1], id));
                }
            }
        } else {
            assert(cur.reg.contains_key(id) == prev.reg.contains_key(id));
            assert(prev.reg.contains_key(id) ==> cur.reg[id] == prev.reg[id]);
            assert forall|i: int| #[trigger] last_store_at(es, id, i) implies last_store_at(init, id, i) by {
                assert(i != es.len() - 1);
                assert forall|j: int| i < j < init.len() implies !stores(#[trigger] init[j], id) by {
                    assert(init[j] == es[j]);
                }
                assert(init[i] == es[i]);
            }
            if forall|j: int| 0 <= j < es.len() ==> !stores(#[trigger] es[j], id) {
                assert forall|j: int| 0 <= j < init.len() implies !stores(#[trigger] init[j], id) by {
                    assert(init[j] == es[j]);
                }
            }
        }
    }
}

/// Every built-in chain carries at least one rpc url, and all of them are
/// `https://` urls.
pub proof fn lemma_builtin_secure()
    ensures
        forall|id: u64| #[trigger] builtin_chains().contains_key(id) ==> secure_entry(builtin_chains()[id]),
        forall|id: u64| #[trigger] builtin_chains().contains_key(id) <==> is_builtin_id(id),
{
    reveal_strlit("https://ethereum-rpc.publicnode.com");
    reveal_strlit("https://ethereum-sepolia-rpc.publicnode.com");
    reveal_strlit("https://mainnet.base.org");
    reveal_strlit("https://arb1.arbitrum.io/rpc");
    reveal_strlit("https://mainnet.optimism.io");
    reveal_strlit("https://polygon-rpc.com");
    reveal_strlit("https://bsc-dataseed.bnbchain.org");
    assert("https://ethereum-rpc.publicnode.com"@.subrange(0, 8) =~= https_scheme());
    assert("https://ethereum-sepolia-rpc.publicnode.com"@.subrange(0, 8) =~= https_scheme());
    assert("https://mainnet.base.org"@.subrange(0, 8) =~= https_scheme());
    assert("https://arb1.arbitrum.io/rpc"@.subrange(0, 8) =~= https_scheme());
    assert("https://mainnet.optimism.io"@.subrange(0, 8) =~= https_scheme());
    assert("https://polygon-rpc.com"@.subrange(0, 8) =~= https_scheme());
    assert("https://bsc-dataseed.bnbchain.org"@.subrange(0, 8) =~= https_scheme());
}

/// Chain ids are ordered by the standard integer order.
proof fn lemma_ids_ordered()
    ensures
        vstd::laws_cmp::obeys_cmp::<u64>(),
{
    broadcast use vstd::laws_cmp::group_laws_cmp;

}

/// A key sequence that a map iterates in is strictly increasing.
proof fn lemma_increasing_ids(ks: Seq<u64>)
    requires
        vstd::std_specs::btree::increasing_seq(ks),
    ensures
        forall|i: int, j: int| 0 <= i < j < ks.len() ==> ks[i] < ks[j],
{
    broadcast use vstd::laws_cmp::group_laws_cmp;

    assert forall|i: int, j: int| 0 <= i < j < ks.len() implies ks[i] < ks[j] by {
        assert(vstd::std_specs::cmp::OrdSpec::cmp_spec(&ks[i], &ks[j]) is Less);
    }
}

/// A lookup of [`ChainInfo`] keyed by chain id.
pub struct ChainInfoRegistry {
    chains: BTreeMap<u64, ChainInfo>,
}

impl View for ChainInfoRegistry {
    type V = Map<u64, ChainInfoModel>;

    closed spec fn view(&self) -> Map<u64, ChainInfoModel> {
        self.chains@.map_values(|c: ChainInfo| c@)
    }
}

/// Every entry of a chain table is filed under its own chain id.
pub open spec fn keyed_by_id(m: Map<u64, ChainInfoModel>) -> bool {
    forall|k: u64| #[trigger] m.contains_key(k) ==> m[k].chain_id == k
}


impl ChainInfoRegistry {
    #[verifier::type_invariant]
    closed spec fn inv(self) -> bool {
        forall|k: u64| #[trigger] self.chains@.contains_key(k) ==> self.chains@[k].chain_id == k
    }

    /// Build a registry pre-loaded with the pinned built-in chains (mainnet,
    /// Sepolia, Base, Arbitrum One, OP Mainnet, Polygon, BNB Smart Chain).
    pub fn builtin() -> (r: Self)
        ensures
            r@ == builtin_chains(),
            keyed_by_id(r@),
    {
        proof {
            lemma_ids_ordered();
        }
        let mut chains: BTreeMap<u64, ChainInfo> = BTreeMap::new();
        chains.insert(1, pinned_chain(1, "Ethereum Mainnet", "ETH", "https://ethereum-rpc.publicnode.com", "https://etherscan.io"));
        chains.insert(11155111, pinned_chain(11155111, "Sepolia", "ETH", "https://ethereum-sepolia-rpc.publicnode.com", "https://sepolia.etherscan.io"));
        chains.insert(8453, pinned_chain(8453, "Base", "ETH", "https://mainnet.base.org", "https://basescan.org"));
        chains.insert(42161, pinned_chain(42161, "Arbitrum One", "ETH", "https://arb1.arbitrum.io/rpc", "https://arbiscan.io"));
        chains.insert(10, pinned_chain(10, "OP Mainnet", "ETH", "https://mainnet.optimism.io", "https://optimistic.etherscan.io"));
        chains.insert(137, pinned_chain(137, "Polygon", "POL", "https://polygon-rpc.com", "https://polygonscan.com"));
        chains.insert(56, pinned_chain(56, "BNB Smart Chain", "BNB", "https://bsc-dataseed.bnbchain.org", "https://bscscan.com"));
        let r = ChainInfoRegistry { chains };
        assert(r@ =~= builtin_chains());
        r
    }

    /// Look up a chain by id.
    pub fn get(&self, chain_id: u64) -> (r: Option<&ChainInfo>)
        ensures
            match r {
                Some(c) => self@.contains_key(chain_id) && c@ == self@[chain_id] && c.chain_id
                    == chain_id,
                None => !self@.contains_key(chain_id),
            },
    {
        proof {
            use_type_invariant(self);
            lemma_ids_ordered();
        }
        self.chains.get(&chain_id)
    }

    /// Insert or replace a chain from a trusted source, returning any entry it
    /// displaced. None of the merge safety rules apply.
    pub fn insert(&mut self, info: ChainInfo) -> (r: Option<ChainInfo>)
        ensures
            final(self)@ == old(self)@.insert(info.chain_id, info@),
            keyed_by_id(final(self)@),
            match r {
                Some(c) => old(self)@.contains_key(info.chain_id) && c@ == old(self)@[info.chain_id],
                None => !old(self)@.contains_key(info.chain_id),
            },
    {
        proof {
            use_type_invariant(&*self);
            lemma_ids_ordered();
        }
        let mut chains: BTreeMap<u64, ChainInfo> = BTreeMap::new();
        std::mem::swap(&mut chains, &mut self.chains);
        let id = info.chain_id;
        let ghost before = chains@;
        let r = chains.insert(id, info);
        *self = ChainInfoRegistry { chains };
        assert(self@ =~= before.map_values(|c: ChainInfo| c@).insert(id, info@));
        r
    }

    /// Every chain, in id order.
    pub fn iter(&self) -> (r: Vec<&ChainInfo>)
        ensures
            r@.len() == self@.dom().len(),
            forall|i: int|
                0 <= i < r@.len() ==> self@.contains_key(#[trigger] r@[i].chain_id) && r@[i]@
                    == self@[r@[i].chain_id],
            forall|i: int, j: int| 0 <= i < j < r@.len() ==> r@[i].chain_id < r@[j].chain_id,
            forall|k: u64|
                self@.contains_key(k) ==> exists|i: int|
                    0 <= i < r@.len() && #[trigger] r@[i].chain_id == k,
    {
        proof {
            use_type_invariant(self);
            lemma_ids_ordered();
        }
        let vals = self.chains.values();
        let ghost ks: Seq<u64> = choose|ks: Seq<u64>|
            {
                &&& vstd::std_specs::btree::increasing_seq(ks)
                &&& ks.to_set() == self.chains@.dom()
                &&& ks.no_duplicates()
                &&& IteratorSpec::remaining(&vals) == ks.map(|i: int, k: u64| &self.chains@[k])
            };
        proof {
            lemma_increasing_ids(ks);
        }
        let mut out: Vec<&ChainInfo> = Vec::new();
        for c in it: vals
            invariant
                it.seq() == ks.map(|i: int, k: u64| &self.chains@[k]),
                out@ == it.seq().take(it.index()),
        {
            out.push(c);
            assert(out@ =~= it.seq().take(it.index() + 1));
        }
        assert(out@ =~= ks.map(|i: int, k: u64| &self.chains@[k]));
        proof {
            assert forall|i: int| 0 <= i < out@.len() implies self@.contains_key(
                #[trigger] out@[i].chain_id,
            ) && out@[i]@ == self@[out@[i].chain_id] by {
                assert(ks.to_set().contains(ks[i]));
            }
            assert forall|k: u64| self@.contains_key(k) implies exists|i: int|
                0 <= i < out@.len() && #[trigger] out@[i].chain_id == k by {
                assert(ks.to_set().contains(k));
                let i = choose|i: int| 0 <= i < ks.len() && ks[i] == k;
                assert(out@[i].chain_id == k);
            }
            ks.unique_seq_to_set();
            assert(self@.dom() =~= self.chains@.dom());
            assert forall|i: int| 0 <= i < out@.len() implies #[trigger] out@[i].chain_id == ks[i] by {
                assert(ks.to_set().contains(ks[i]));
            }
            assert forall|i: int, j: int| 0 <= i < j < out@.len() implies out@[i].chain_id
                < out@[j].chain_id by {
                assert(out@[i].chain_id == ks[i]);
                assert(out@[j].chain_id == ks[j]);
            }
        }
        out
    }

    /// Look up a chain by name, ignoring ASCII case. When several chains match, the
    /// one with the smallest id is returned.
    pub fn by_name(&self, name: &str) -> (r: Option<&ChainInfo>)
        ensures
            match r {
                Some(c) => {
                    &&& self@.contains_key(c.chain_id)
                    &&& c@ == self@[c.chain_id]
                    &&& names_match(c.name@, name@)
                    &&& forall|k: u64|
                        #[trigger] self@.contains_key(k) && k < c.chain_id ==> !names_match(
                            self@[k].name,
                            name@,
                        )
                },
                None => forall|k: u64| #[trigger]
                    self@.contains_key(k) ==> !names_match(self@[k].name, name@),
            },
    {
        let all = self.iter();
        let mut i: usize = 0;
        while i < all.len()
            invariant
                i <= all@.len(),
                all@.len() == self@.dom().len(),
                forall|j: int|
                    0 <= j < all@.len() ==> self@.contains_key(#[trigger] all@[j].chain_id)
                        && all@[j]@ == self@[all@[j].chain_id],
                forall|a: int, b: int|
                    0 <= a < b < all@.len() ==> all@[a].chain_id < all@[b].chain_id,
                forall|k: u64|
                    self@.contains_key(k) ==> exists|j: int|
                        0 <= j < all@.len() && #[trigger] all@[j].chain_id == k,
                forall|j: int| 0 <= j < i ==> !names_match(#[trigger] all@[j].name@, name@),
            decreases all@.len() - i,
        {
            if name_eq_ignore_case(all[i].name.as_str(), name) {
                proof {
                    assert forall|k: u64|
                        #[trigger] self@.contains_key(k) && k < all@[i as int].chain_id implies !names_match(
                        self@[k].name,
                        name@,
                    ) by {
                        let j = choose|j: int| 0 <= j < all@.len() && #[trigger] all@[j].chain_id == k;
                        if j >= i {
                            assert(all@[i as int].chain_id <= all@[j].chain_id);
                        }
                        assert(!names_match(all@[j].name@, name@));
                    }
                }
                return Some(all[i]);
            }
            i = i + 1;
        }
        proof {
            assert forall|k: u64| #[trigger] self@.contains_key(k) implies !names_match(
                self@[k].name,
                name@,
            ) by {
                let j = choose|j: int| 0 <= j < all@.len() && #[trigger] all@[j].chain_id == k;
                assert(!names_match(all@[j].name@, name@));
            }
        }
        None
    }

    /// Safely fold externally fetched chain data into the registry.
    ///
    /// Each entry, in order, goes through [`merge_step`]: an authoritative id is
    /// refused, non-HTTPS urls are stripped, an entry left without a url is dropped,
    /// and any other entry is stored with only its HTTPS urls. The report records
    /// each decision. The total url count bounds the stripped counter.
    pub fn merge_validated(&mut self, external: Vec<ChainInfo>) -> (r: MergeReport)
        requires
            total_urls(infos(external@)) <= usize::MAX,
        ensures
            final(self)@ == merge_fold(merge_start(old(self)@), infos(external@)).reg,
            reports(r, merge_fold(merge_start(old(self)@), infos(external@))),
            keyed_by_id(final(self)@),
    {
        proof {
            use_type_invariant(&*self);
            lemma_ids_ordered();
        }
        let ghost start = self@;
        let ghost es = infos(external@);
        let mut chains: BTreeMap<u64, ChainInfo> = BTreeMap::new();
        std::mem::swap(&mut chains, &mut self.chains);
        let mut report = MergeReport {
            inserted: Vec::new(),
            updated: Vec::new(),
            rejected_authoritative: Vec::new(),
            rejected_no_secure_rpc: Vec::new(),
            stripped_insecure_urls: 0,
        };
        assert(chains@.map_values(|c: ChainInfo| c@) =~= start);
        assert(es.take(0) =~= Seq::<ChainInfoModel>::empty());
        let mut i: usize = 0;
        while i < external.len()
            invariant
                i <= external@.len(),
                es == infos(external@),
                total_urls(es) <= usize::MAX,
                forall|k: u64| #[trigger] chains@.contains_key(k) ==> chains@[k].chain_id == k,
                chains@.map_values(|c: ChainInfo| c@) == merge_fold(
                    merge_start(start),
                    es.take(i as int),
                ).reg,
                reports(report, merge_fold(merge_start(start), es.take(i as int))),
                report.stripped_insecure_urls <= total_urls(es.take(i as int)),
            decreases external@.len() - i,
        {
            let e = &external[i];
            let ghost before = merge_fold(merge_start(start), es.take(i as int));
            proof {
                assert(es.take(i + 1).drop_last() =~= es.take(i as int));
                assert(es.take(i + 1).last() == e@);
                lemma_total_urls_prefix(es, i + 1);
            }
            if Self::is_authoritative(e.chain_id) {
                report.rejected_authoritative.push(e.chain_id);
            } else {
                let (kept, stripped) = secure_urls(&e.rpc_urls);
                report.stripped_insecure_urls = report.stripped_insecure_urls + stripped;
                if kept.len() == 0 {
                    report.rejected_no_secure_rpc.push(e.chain_id);
                } else {
                    let info = ChainInfo {
                        chain_id: e.chain_id,
                        name: e.name.clone(),
                        native_symbol: e.native_symbol.clone(),
                        decimals: e.decimals,
                        rpc_urls: kept,
                        explorer: clone_opt(&e.explorer),
                    };
                    assert(info@ == with_urls(e@, https_only(e@.rpc_urls)));
                    let present = chains.contains_key(&e.chain_id);
                    let ghost old_chains = chains@;
                    chains.insert(e.chain_id, info);
                    assert(chains@.map_values(|c: ChainInfo| c@) =~= old_chains.map_values(
                        |c: ChainInfo| c@,
                    ).insert(e.chain_id, info@));
                    if present {
                        report.updated.push(e.chain_id);
                    } else {
                        report.inserted.push(e.chain_id);
                    }
                }
            }
            i = i + 1;
        }
        assert(es.take(i as int) =~= es);
        *self = ChainInfoRegistry { chains };
        report
    }

    /// Whether a chain id is part of the authoritative, immutable built-in set.
    pub fn is_authoritative(chain_id: u64) -> (r: bool)
        ensures
            r == is_builtin_id(chain_id),
    {
        let mut i: usize = 0;
        while i < 7
            invariant
                i <= 7,
                BUILTIN_CHAIN_IDS@ == seq![1u64, 11155111, 8453, 42161, 10, 137, 56],
                forall|j: int| 0 <= j < i ==> BUILTIN_CHAIN_IDS@[j] != chain_id,
            decreases 7 - i,
        {
            if BUILTIN_CHAIN_IDS[i] == chain_id {
                return true;
            }
            i = i + 1;
        }
        assert(!is_builtin_id(chain_id)) by {
            assert(BUILTIN_CHAIN_IDS@[0] != chain_id);
            assert(BUILTIN_CHAIN_IDS@[1] != chain_id);
            assert(BUILTIN_CHAIN_IDS@[2] != chain_id);
            assert(BUILTIN_CHAIN_IDS@[3] != chain_id);
            assert(BUILTIN_CHAIN_IDS@[4] != chain_id);
            assert(BUILTIN_CHAIN_IDS@[5] != chain_id);
            assert(BUILTIN_CHAIN_IDS@[6] != chain_id);
        }
        false
    }
}

/// Whether a url starts with `https://`.
fn url_is_https(u: &str) -> (r: bool)
    ensures
        r == is_https(u@),
{
    let n = u.unicode_len();
    if n < 8 {
        return false;
    }
    let mut i: usize = 0;
    while i < 8
        invariant
            n == u@.len(),
            n >= 8,
            i <= 8,
            forall|j: int| 0 <= j < i ==> u@[j] == https_scheme()[j],
        decreases 8 - i,
    {
        if u.get_char(i) != scheme_char(i) {
            assert(u@.subrange(0, 8)[i as int] != https_scheme()[i as int]);
            return false;
        }
        i = i + 1;
    }
    assert(u@.subrange(0, 8) =~= https_scheme());
    true
}

/// The character of `https://` at a position.
fn scheme_char(i: usize) -> (c: char)
    requires
        i < 8,
    ensures
        c == https_scheme()[i as int],
{
    if i == 0 {
        'h'
    } else if i == 1 || i == 2 {
        't'
    } else if i == 3 {
        'p'
    } else if i == 4 {
        's'
    } else if i == 5 {
        ':'
    } else {
        '/'
    }
}

/// The `https://` urls of a list, and how many others were left out.
fn secure_urls(urls: &Vec<String>) -> (r: (Vec<String>, usize))
    ensures
        str_seq(r.0@) == https_only(str_seq(urls@)),
        r.1 + r.0@.len() == urls@.len(),
{
    let mut kept: Vec<String> = Vec::new();
    let mut stripped: usize = 0;
    let mut i: usize = 0;
    while i < urls.len()
        invariant
            i <= urls@.len(),
            str_seq(kept@) == https_only(str_seq(urls@).take(i as int)),
            stripped + kept@.len() == i,
        decreases urls@.len() - i,
    {
        proof {
            assert(str_seq(urls@).take(i + 1).drop_last() =~= str_seq(urls@).take(i as int));
        }
        if url_is_https(urls[i].as_str()) {
            let ghost k0 = kept@;
            kept.push(urls[i].clone());
            assert(str_seq(kept@) =~= str_seq(k0).push(urls@[i as int]@));
        } else {
            stripped = stripped + 1;
        }
        i = i + 1;
    }
    assert(str_seq(urls@).take(i as int) =~= str_seq(urls@));
    (kept, stripped)
}

/// A copy of an optional string.
fn clone_opt(o: &Option<String>) -> (r: Option<String>)
    ensures
        opt_chars(r) == opt_chars(*o),
{
    match o {
        Some(s) => Some(s.clone()),
        None => None,
    }
}

/// ASCII case folding of one character.
fn fold_char(c: char) -> (r: u32)
    ensures
        r == fold_case(c),
{
    if 'A' <= c && c <= 'Z' {
        c as u32 + 32
    } else {
        c as u32
    }
}

/// Whether two names are equal up to ASCII case.
fn name_eq_ignore_case(a: &str, b: &str) -> (r: bool)
    ensures
        r == names_match(a@, b@),
{
    let n = a.unicode_len();
    let m = b.unicode_len();
    if n != m {
        return false;
    }
    let mut i: usize = 0;
    while i < n
        invariant
            n == a@.len(),
            m == b@.len(),
            n == m,
            i <= n,
            forall|j: int| 0 <= j < i ==> fold_case(#[trigger] a@[j]) == fold_case(b@[j]),
        decreases n - i,
    {
        if fold_char(a.get_char(i)) != fold_char(b.get_char(i)) {
            return false;
        }
        i = i + 1;
    }
    true
}

/// A prefix of a list holds at most the list's urls.
proof fn lemma_total_urls_prefix(es: Seq<ChainInfoModel>, i: int)
    requires
        0 <= i <= es.len(),
    ensures
        total_urls(es.take(i)) <= total_urls(es),
        es.take(i).len() > 0 ==> total_urls(es.take(i)) == total_urls(es.take(i - 1))
            + es[i - 1].rpc_urls.len(),
    decreases es.len(),
{
    if i > 0 {
        assert(es.take(i).drop_last() =~= es.take(i - 1));
    }
    if i < es.len() {
        lemma_total_urls_prefix(es.drop_last(), i);
        assert(es.drop_last().take(i) =~= es.take(i));
    } else {
        assert(es.take(i) =~= es);
    }
}

/// Build one pinned chain description.
fn pinned_chain(id: u64, name: &str, symbol: &str, rpc: &str, explorer: &str) -> (r: ChainInfo)
    ensures
        r@ == pinned(id, name@, symbol@, rpc@, explorer@),
{
    let mut rpc_urls: Vec<String> = Vec::new();
    rpc_urls.push(rpc.to_owned());
    let r = ChainInfo {
        chain_id: id,
        name: name.to_owned(),
        native_symbol: symbol.to_owned(),
        decimals: 18,
        rpc_urls,
        explorer: Some(explorer.to_owned()),
    };
    assert(r@.rpc_urls =~= seq![rpc@]);
    r
}

} // verus!
