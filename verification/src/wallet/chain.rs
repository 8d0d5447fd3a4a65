//! The narrow chain abstraction that keeps the wallet chain-agnostic.
//!
//! The wallet knows how accounts are organised but nothing about how any chain
//! derives an address or shapes a signature. Everything chain-specific goes
//! through the [`Chain`] trait, one implementation per chain family, reached
//! through a [`ChainRegistry`] keyed by [`ChainKind`].
use vstd::prelude::*;

use crate::wallet::error::Error;
use crate::wallet::seed::DerivationPath;

verus! {

/// The family of blockchain an account belongs to.
#[derive(Clone, Copy, Debug, PartialEq, Eq, PartialOrd, Ord, Hash, Structural)]
#[non_exhaustive]
pub enum ChainKind {
    /// The EVM family: Ethereum and every EVM-compatible chain.
    Evm,
}

/// A chain-neutral account address in the canonical text its chain produces.
#[derive(Clone, Debug, PartialEq, Eq, PartialOrd, Ord, Hash)]
pub struct ChainAddress(String);

impl View for ChainAddress {
    type V = Seq<char>;

    closed spec fn view(&self) -> Seq<char> {
        self.0@
    }
}

impl ChainAddress {
    /// Wrap a canonical address string. The owning chain canonicalises it first.
    pub fn new(value: &str) -> (r: Self)
        ensures
            r@ == value@,
    {
        ChainAddress(value.to_owned())
    }

    /// Borrow the canonical address text.
    pub fn as_str(&self) -> (r: &str)
        ensures
            r@ == self@,
    {
        self.0.as_str()
    }

    /// A copy of the address.
    pub fn duplicate(&self) -> (r: Self)
        ensures
            r@ == self@,
    {
        ChainAddress(self.0.clone())
    }
}

/// The secret an account signs with, in whichever form the wallet holds it.
pub enum AccountSecret<'a> {
    /// HD seed material plus the path to the account's key.
    Derived {
        /// The seed bytes.
        seed_material: &'a [u8],
        /// The path identifying which key under the seed to use.
        path: &'a DerivationPath,
    },
    /// A raw account private key, as imported.
    Imported {
        /// The private key bytes.
        private_key: &'a [u8],
    },
}

/// What a [`SigningPayload`]'s body is.
#[derive(Clone, Copy, Debug, PartialEq, Eq, Structural)]
#[non_exhaustive]
pub enum PayloadKind {
    /// A ready-made digest to be signed as-is.
    Digest,
    /// A chain-specific transaction encoding.
    Transaction,
    /// An arbitrary message (personal-sign style).
    Message,
    /// A chain-specific typed-data document.
    TypedData,
}

/// A chain-tagged request to produce a signature over opaque bytes.
#[derive(Clone, Debug, PartialEq, Eq)]
pub struct SigningPayload {
    /// Which chain family must interpret and sign this.
    pub chain: ChainKind,
    /// How to interpret `body`.
    pub kind: PayloadKind,
    /// The opaque, chain-specific bytes to sign.
    pub body: Vec<u8>,
}

/// The chain-specific operations the chain-agnostic wallet delegates to. One
/// implementation exists per chain family and is registered into a
/// [`ChainRegistry`].
pub trait Chain {
    /// The family an implementation serves.
    spec fn family(&self) -> ChainKind;

    /// The chain family this implementation serves; its registry key.
    fn kind(&self) -> (r: ChainKind)
        ensures
            r == self.family(),
    ;

    /// That this implementation derives `address` from `seed_material` at `path`.
    spec fn derives(&self, seed_material: Seq<u8>, path: Seq<char>, address: Seq<char>) -> bool;

    /// Derive the account address controlled by `seed_material` at `path`.
    fn derive_address(&self, seed_material: &[u8], path: &DerivationPath) -> (r: Result<ChainAddress, Error>)
        ensures
            r matches Ok(a) ==> self.derives(seed_material@, path@, a@),
    ;

    /// That this implementation computes `address` for the raw key `private_key`.
    spec fn imports(&self, private_key: Seq<u8>, address: Seq<char>) -> bool;

    /// Compute the address controlled by a raw imported private key.
    fn import_address(&self, private_key: &[u8]) -> (r: Result<ChainAddress, Error>)
        ensures
            r matches Ok(a) ==> self.imports(private_key@, a@),
    ;

    /// That this implementation signs `payload` with the key at `path` under
    /// `seed_material`, giving `signature`.
    spec fn signs_derived(
        &self,
        seed_material: Seq<u8>,
        path: Seq<char>,
        payload: SigningPayload,
        signature: Seq<u8>,
    ) -> bool;

    /// That this implementation signs `payload` with the raw key `private_key`,
    /// giving `signature`.
    spec fn signs_imported(&self, private_key: Seq<u8>, payload: SigningPayload, signature: Seq<u8>) -> bool;

    /// Sign a chain-tagged payload with an account's secret, returning the chain's
    /// raw signature bytes.
    fn sign(&self, secret: AccountSecret<'_>, payload: &SigningPayload) -> (r: Result<Vec<u8>, Error>)
        ensures
            r matches Ok(s) ==> match secret {
                AccountSecret::Derived { seed_material, path } => self.signs_derived(
                    seed_material@,
                    path@,
                    *payload,
                    s@,
                ),
                AccountSecret::Imported { private_key } => self.signs_imported(private_key@, *payload, s@),
            },
    ;

    /// That this implementation reads `text` as the canonical address `address`.
    spec fn parses(&self, text: Seq<char>, address: Seq<char>) -> bool;

    /// That this implementation renders `address` as `text`.
    spec fn formats(&self, address: Seq<char>, text: Seq<char>) -> bool;

    /// Validate and canonicalise an address string.
    fn parse_address(&self, text: &str) -> (r: Result<ChainAddress, Error>)
        ensures
            r matches Ok(a) ==> self.parses(text@, a@),
    ;

    /// Render an address in this chain's canonical display form.
    fn format_address(&self, address: &ChainAddress) -> (r: String)
        ensures
            self.formats(address@, r@),
    ;
}

/// The rank of a family in the registry's listing order.
pub open spec fn kind_rank(k: ChainKind) -> int {
    match k {
        ChainKind::Evm => 0,
    }
}

/// A dispatch table from [`ChainKind`] to its [`Chain`] implementation: one slot
/// per family.
pub struct ChainRegistry {
    evm: Option<Box<dyn Chain>>,
}

impl ChainRegistry {
    /// The set of families that have an implementation.
    pub closed spec fn registered(&self) -> Set<ChainKind> {
        if self.evm is Some {
            set![ChainKind::Evm]
        } else {
            Set::empty()
        }
    }

    /// The implementation registered for a family, if any.
    pub closed spec fn chain_of(&self, kind: ChainKind) -> Option<Box<dyn Chain>> {
        match kind {
            ChainKind::Evm => self.evm,
        }
    }

    /// A family is registered exactly when it has an implementation.
    pub proof fn lemma_chain_of(&self, kind: ChainKind)
        ensures
            self.registered().contains(kind) <==> self.chain_of(kind) is Some,
    {
    }

    #[verifier::type_invariant]
    closed spec fn inv(self) -> bool {
        self.evm matches Some(c) ==> c.family() == ChainKind::Evm
    }

    /// An empty registry with no chains registered.
    pub fn new() -> (r: Self)
        ensures
            r.registered() == Set::<ChainKind>::empty(),
    {
        ChainRegistry { evm: None }
    }

    /// Register an implementation under its own family, returning any
    /// implementation it displaced for that family.
    pub fn register(&mut self, chain: Box<dyn Chain>) -> (r: Option<Box<dyn Chain>>)
        ensures
            final(self).registered() == old(self).registered().insert(chain.family()),
            final(self).chain_of(chain.family()) == Some(chain),
            r == old(self).chain_of(chain.family()),
            forall|k: ChainKind| k != chain.family() ==> #[trigger] final(self).chain_of(k) == old(self).chain_of(k),
            match r {
                Some(c) => old(self).registered().contains(chain.family()) && c.family()
                    == chain.family(),
                None => !old(self).registered().contains(chain.family()),
            },
    {
        proof {
            use_type_invariant(&*self);
        }
        let kind = chain.kind();
        match kind {
            ChainKind::Evm => {
                let mut previous: Option<Box<dyn Chain>> = None;
                std::mem::swap(&mut previous, &mut self.evm);
                let slot = Some(chain);
                self.evm = slot;
                assert(self.registered() =~= set![ChainKind::Evm]);
                previous
            },
        }
    }

    /// Borrow the implementation for a family, or `None` if none is registered.
    pub fn get(&self, kind: ChainKind) -> (r: Option<&dyn Chain>)
        ensures
            match r {
                Some(c) => self.registered().contains(kind) && c.family() == kind,
                None => !self.registered().contains(kind),
            },
    {
        proof {
            use_type_invariant(self);
        }
        match kind {
            ChainKind::Evm => match &self.evm {
                Some(c) => Some(&**c),
                None => None,
            },
        }
    }

    /// Borrow the boxed implementation registered for a family, exactly as stored.
    pub(crate) fn slot(&self, kind: ChainKind) -> (r: Option<&Box<dyn Chain>>)
        ensures
            match (r, self.chain_of(kind)) {
                (Some(c), Some(b)) => *c == b,
                (None, None) => true,
                _ => false,
            },
            r matches Some(c) ==> c.family() == kind,
            r is Some <==> self.registered().contains(kind),
    {
        proof {
            use_type_invariant(self);
        }
        match kind {
            ChainKind::Evm => self.evm.as_ref(),
        }
    }

    /// Whether a family has an implementation registered.
    pub fn contains(&self, kind: ChainKind) -> (r: bool)
        ensures
            r == self.registered().contains(kind),
    {
        self.get(kind).is_some()
    }

    /// The families that currently have an implementation, each once, in family
    /// order.
    pub fn kinds(&self) -> (r: Vec<ChainKind>)
        ensures
            r@.to_set() == self.registered(),
            r@.no_duplicates(),
            forall|i: int, j: int| 0 <= i < j < r@.len() ==> kind_rank(r@[i]) < kind_rank(r@[j]),
    {
        let mut out: Vec<ChainKind> = Vec::new();
        if self.evm.is_some() {
            out.push(ChainKind::Evm);
        }
        proof {
            if out@.len() > 0 {
                assert(out@ =~= seq![ChainKind::Evm]);
                assert(out@.to_set() =~= set![ChainKind::Evm]) by {
                    assert(out@[0] == ChainKind::Evm);
                }
            } else {
                assert(out@.to_set() =~= Set::<ChainKind>::empty());
            }
        }
        out
    }
}

} // verus!
