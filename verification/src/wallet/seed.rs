//! Seed sources: metadata for an HD mnemonic whose secret lives in the vault.
//!
//! A [`SeedSource`] is the non-secret half of an HD mnemonic. The phrase itself
//! lives in a dedicated vault entry addressed by the seed's id. This records what
//! is needed to describe the seed and to derive further accounts from it: a label,
//! the chain family, the derivation scheme, and a forward-only `next_index` cursor.
use vstd::prelude::*;

use crate::text::{chars_of, decimal, digits_value, lemma_decimal_reads_back, push_decimal, push_str_chars, string_from_chars};
use crate::wallet::chain::ChainKind;
use crate::wallet::id::SeedId;

verus! {

/// A fully resolved derivation path such as `m/44'/60'/0'/0/0`.
///
/// Core stores and passes it around but never interprets it; the owning chain
/// does.
#[derive(Clone, Debug, PartialEq, Eq, PartialOrd, Ord, Hash)]
pub struct DerivationPath(String);

impl View for DerivationPath {
    type V = Seq<char>;

    closed spec fn view(&self) -> Seq<char> {
        self.0@
    }
}

impl DerivationPath {
    /// Wrap a fully resolved path string.
    pub fn from_raw(value: &str) -> (r: Self)
        ensures
            r@ == value@,
    {
        DerivationPath(value.to_owned())
    }

    /// Borrow the path as a string slice.
    pub fn as_str(&self) -> (r: &str)
        ensures
            r@ == self@,
    {
        self.0.as_str()
    }

    /// A copy of the path.
    pub fn duplicate(&self) -> (r: Self)
        ensures
            r@ == self@,
    {
        DerivationPath(self.0.clone())
    }
}

/// The rule that turns an account index into a concrete [`DerivationPath`].
#[derive(Clone, Debug, PartialEq, Eq)]
#[non_exhaustive]
pub enum DerivationScheme {
    /// Standard BIP-44 Ethereum: `m/44'/60'/0'/0/{index}` (MetaMask and most
    /// software wallets).
    Bip44Standard,
    /// BIP-44 varying the account field: `m/44'/60'/{index}'/0/0` (Ledger Live).
    Bip44LedgerLive,
    /// A custom template: every occurrence of the literal `{index}` is replaced by
    /// the account index; everything else is copied verbatim.
    Custom {
        /// A path template containing the `{index}` placeholder.
        template: String,
    },
}

/// `t` with every occurrence of the non-empty pattern `pat`, scanning left to
/// right without overlaps, replaced by `rep` (the rule of `str::replace`).
pub open spec fn replace_all(t: Seq<char>, pat: Seq<char>, rep: Seq<char>) -> Seq<char>
    decreases t.len(),
{
    if pat.len() == 0 || t.len() < pat.len() {
        t
    } else if t.subrange(0, pat.len() as int) == pat {
        rep + replace_all(t.subrange(pat.len() as int, t.len() as int), pat, rep)
    } else {
        seq![t[0]] + replace_all(t.drop_first(), pat, rep)
    }
}

/// The path a scheme resolves an index to.
pub open spec fn path_chars(scheme: DerivationScheme, index: u32) -> Seq<char> {
    match scheme {
        DerivationScheme::Bip44Standard => "m/44'/60'/0'/0/"@ + decimal(index as nat),
        DerivationScheme::Bip44LedgerLive => "m/44'/60'/"@ + decimal(index as nat) + "'/0/0"@,
        DerivationScheme::Custom { template } => replace_all(
            template@,
            "{index}"@,
            decimal(index as nat),
        ),
    }
}

/// The standard scheme's path is `m/44'/60'/0'/0/` followed by digits `0`..`9`
/// that read back as the whole index, with no leading zero; so different indices
/// get different paths.
pub proof fn lemma_standard_path_holds_index(index: u32, other: u32)
    ensures
        ({
            let p = path_chars(DerivationScheme::Bip44Standard, index);
            let tail = p.subrange(15, p.len() as int);
            &&& p.len() > 15
            &&& p.subrange(0, 15) == "m/44'/60'/0'/0/"@
            &&& forall|i: int| 0 <= i < tail.len() ==> '0' <= #[trigger] tail[i] <= '9'
            &&& digits_value(tail) == index
            &&& (tail.len() > 1 ==> tail[0] != '0')
        }),
        path_chars(DerivationScheme::Bip44Standard, index) == path_chars(DerivationScheme::Bip44Standard, other)
            ==> index == other,
{
    reveal_strlit("m/44'/60'/0'/0/");
    let prefix = "m/44'/60'/0'/0/"@;
    assert(prefix.len() == 15);
    lemma_decimal_reads_back(index as nat);
    lemma_decimal_reads_back(other as nat);
    let p = path_chars(DerivationScheme::Bip44Standard, index);
    assert(p.subrange(0, 15) =~= prefix);
    assert(p.subrange(15, p.len() as int) =~= decimal(index as nat));
    let q = path_chars(DerivationScheme::Bip44Standard, other);
    assert(q.subrange(15, q.len() as int) =~= decimal(other as nat));
}

/// The Ledger Live scheme's path is `m/44'/60'/`, then digits `0`..`9` that read
/// back as the whole index with no leading zero, then `'/0/0`; so different
/// indices get different paths.
pub proof fn lemma_ledger_path_holds_index(index: u32, other: u32)
    ensures
        ({
            let p = path_chars(DerivationScheme::Bip44LedgerLive, index);
            let mid = p.subrange(10, p.len() - 5);
            &&& p.len() > 15
            &&& p.subrange(0, 10) == "m/44'/60'/"@
            &&& p.subrange(p.len() - 5, p.len() as int) == "'/0/0"@
            &&& forall|i: int| 0 <= i < mid.len() ==> '0' <= #[trigger] mid[i] <= '9'
            &&& digits_value(mid) == index
            &&& (mid.len() > 1 ==> mid[0] != '0')
        }),
        path_chars(DerivationScheme::Bip44LedgerLive, index) == path_chars(DerivationScheme::Bip44LedgerLive, other)
            ==> index == other,
{
    reveal_strlit("m/44'/60'/");
    reveal_strlit("'/0/0");
    assert("m/44'/60'/"@.len() == 10);
    assert("'/0/0"@.len() == 5);
    lemma_decimal_reads_back(index as nat);
    lemma_decimal_reads_back(other as nat);
    let p = path_chars(DerivationScheme::Bip44LedgerLive, index);
    assert(p.subrange(0, 10) =~= "m/44'/60'/"@);
    assert(p.subrange(p.len() - 5, p.len() as int) =~= "'/0/0"@);
    assert(p.subrange(10, p.len() - 5) =~= decimal(index as nat));
    let q = path_chars(DerivationScheme::Bip44LedgerLive, other);
    assert(q.subrange(10, q.len() - 5) =~= decimal(other as nat));
}

/// Text in which `pat` never occurs is left as it is by [`replace_all`].
proof fn lemma_replace_none(t: Seq<char>, pat: Seq<char>, rep: Seq<char>)
    requires
        pat.len() > 0,
        forall|i: int| 0 <= i && i + pat.len() <= t.len() ==> #[trigger] t.subrange(i, i + pat.len()) != pat,
    ensures
        replace_all(t, pat, rep) == t,
    decreases t.len(),
{
    if t.len() >= pat.len() {
        let z: int = 0;
        assert(t.subrange(z, z + pat.len()) != pat);
        let rest = t.drop_first();
        assert forall|i: int| 0 <= i && i + pat.len() <= rest.len() implies #[trigger] rest.subrange(
            i,
            i + pat.len(),
        ) != pat by {
            assert(rest.subrange(i, i + pat.len()) =~= t.subrange(i + 1, i + 1 + pat.len()));
        }
        lemma_replace_none(rest, pat, rep);
        assert(seq![t[0]] + rest =~= t);
    }
}

/// A custom template without `{index}` is used verbatim, whatever the index; the
/// template `{index}` alone resolves to digits `0`..`9` that read back as the
/// whole index.
pub proof fn lemma_custom_path(template: String, index: u32)
    ensures
        (forall|i: int|
            0 <= i && i + 7 <= template@.len() ==> #[trigger] template@.subrange(i, i + 7) != "{index}"@)
            ==> path_chars(DerivationScheme::Custom { template }, index) == template@,
        template@ == "{index}"@ ==> ({
            let p = path_chars(DerivationScheme::Custom { template }, index);
            &&& forall|i: int| 0 <= i < p.len() ==> '0' <= #[trigger] p[i] <= '9'
            &&& digits_value(p) == index
        }),
{
    reveal_strlit("{index}");
    let pat = "{index}"@;
    assert(pat.len() == 7);
    if forall|i: int| 0 <= i && i + 7 <= template@.len() ==> #[trigger] template@.subrange(i, i + 7) != pat {
        lemma_replace_none(template@, pat, decimal(index as nat));
    }
    if template@ == pat {
        lemma_decimal_reads_back(index as nat);
        let t = template@;
        assert(t.subrange(0, 7) =~= pat);
        assert(t.subrange(7, 7) =~= Seq::<char>::empty());
        assert(replace_all(Seq::<char>::empty(), pat, decimal(index as nat)) == Seq::<char>::empty());
        assert(replace_all(t, pat, decimal(index as nat)) =~= decimal(index as nat));
    }
}

/// The characters of `{index}`.
fn placeholder() -> (r: Vec<char>)
    ensures
        r@ == "{index}"@,
{
    chars_of("{index}")
}

/// Whether `pat` occurs in `t` at position `i`.
fn occurs_at(t: &Vec<char>, pat: &Vec<char>, i: usize) -> (r: bool)
    requires
        i <= t@.len(),
    ensures
        r == (i + pat@.len() <= t@.len() && t@.subrange(i as int, i + pat@.len()) == pat@),
{
    let tl = t.len();
    if pat.len() > tl - i {
        return false;
    }
    let mut j: usize = 0;
    while j < pat.len()
        invariant
            tl == t@.len(),
            i + pat@.len() <= tl,
            j <= pat@.len(),
            forall|k: int| 0 <= k < j ==> t@[i + k] == pat@[k],
        decreases pat@.len() - j,
    {
        if t[i + j] != pat[j] {
            assert(t@.subrange(i as int, i + pat@.len())[j as int] != pat@[j as int]);
            return false;
        }
        j = j + 1;
    }
    assert(t@.subrange(i as int, i + pat@.len()) =~= pat@);
    true
}

/// Replace every `{index}` in `template` by `rep`.
fn fill_template(template: &str, rep: &Vec<char>) -> (r: Vec<char>)
    ensures
        r@ == replace_all(template@, "{index}"@, rep@),
{
    let t = chars_of(template);
    let pat = placeholder();
    proof {
        reveal_strlit("{index}");
    }
    let n = t.len();
    let mut out: Vec<char> = Vec::new();
    let mut i: usize = 0;
    assert(t@.subrange(0, n as int) =~= t@);
    assert(out@ + replace_all(t@, pat@, rep@) =~= replace_all(t@, pat@, rep@));
    while i < n
        invariant
            n == t@.len(),
            t@ == template@,
            pat@ == "{index}"@,
            pat@.len() == 7,
            i <= n,
            out@ + replace_all(t@.subrange(i as int, n as int), pat@, rep@) == replace_all(
                t@,
                pat@,
                rep@,
            ),
        decreases n - i,
    {
        let ghost rest = t@.subrange(i as int, n as int);
        if occurs_at(&t, &pat, i) {
            let mut k: usize = 0;
            let ghost before = out@;
            while k < rep.len()
                invariant
                    k <= rep@.len(),
                    out@ == before + rep@.subrange(0, k as int),
                decreases rep@.len() - k,
            {
                out.push(rep[k]);
                k = k + 1;
                assert(out@ =~= before + rep@.subrange(0, k as int));
            }
            assert(rep@.subrange(0, rep@.len() as int) =~= rep@);
            assert(rest.subrange(0, 7) =~= t@.subrange(i as int, i + 7));
            assert(rest.subrange(7, rest.len() as int) =~= t@.subrange(i + 7, n as int));
            assert(out@ + replace_all(t@.subrange(i + 7, n as int), pat@, rep@) =~= before
                + replace_all(rest, pat@, rep@));
            i = i + 7;
        } else {
            let ghost before = out@;
            out.push(t[i]);
            proof {
                if rest.len() >= 7 {
                    assert(rest.subrange(0, 7) =~= t@.subrange(i as int, i + 7));
                }
                assert(rest.drop_first() =~= t@.subrange(i + 1, n as int));
                assert(out@ + replace_all(t@.subrange(i + 1, n as int), pat@, rep@) =~= before
                    + replace_all(rest, pat@, rep@));
            }
            i = i + 1;
        }
    }
    assert(out@ =~= replace_all(t@, pat@, rep@)) by {
        assert(t@.subrange(n as int, n as int) =~= Seq::<char>::empty());
    }
    out
}

impl DerivationScheme {
    /// Resolve the concrete [`DerivationPath`] for a given account index.
    pub fn path_for(&self, index: u32) -> (r: DerivationPath)
        ensures
            r@ == path_chars(*self, index),
    {
        let mut digits: Vec<char> = Vec::new();
        push_decimal(&mut digits, index as u64);
        assert(digits@ =~= decimal(index as nat));
        let out = match self {
            DerivationScheme::Bip44Standard => {
                let mut out: Vec<char> = Vec::new();
                push_str_chars(&mut out, "m/44'/60'/0'/0/");
                push_decimal(&mut out, index as u64);
                out
            },
            DerivationScheme::Bip44LedgerLive => {
                let mut out: Vec<char> = Vec::new();
                push_str_chars(&mut out, "m/44'/60'/");
                push_decimal(&mut out, index as u64);
                push_str_chars(&mut out, "'/0/0");
                out
            },
            DerivationScheme::Custom { template } => fill_template(template.as_str(), &digits),
        };
        DerivationPath(string_from_chars(&out))
    }
}

/// The metadata describing one seed (mnemonic) held by the wallet.
///
/// A seed is bound to a single chain family; reusing a mnemonic across families is
/// modelled as separate seed sources.
#[derive(Clone, Debug)]
pub struct SeedSource {
    /// Stable id; also the routing key to this seed's vault entry.
    pub id: SeedId,
    /// The chain family this seed derives accounts for.
    pub chain: ChainKind,
    /// Human-facing label.
    pub label: String,
    /// Free-form notes.
    pub notes: String,
    /// Arbitrary user tags.
    pub tags: Vec<String>,
    /// Whether a BIP-39 passphrase guards this mnemonic. The passphrase itself is
    /// never stored.
    pub passphrase_protected: bool,
    /// The next unused account index; it only ever moves forward.
    pub next_index: u32,
    /// How account indices map to derivation paths for this seed.
    pub derivation_scheme: DerivationScheme,
}

} // verus!
