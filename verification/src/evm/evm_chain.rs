//! The EVM implementation of [`Chain`], plus the payload builders the wallet's
//! chain-neutral signing entry point takes.
//!
//! The wallet stores addresses as neutral [`ChainAddress`] text. This module is
//! where EVM addresses cross between that text and alloy's 20-byte address: a string
//! is read with alloy's hex parser and always rendered back in its EIP-55 checksummed
//! form, which is the canonical text the wallet keeps.
use vstd::prelude::*;

use crate::evm::signer::TypedDataRequest;
use crate::text::utf8;
use crate::vault::format::extend_from_slice;
use crate::wallet::chain::{AccountSecret, Chain, ChainAddress, ChainKind, PayloadKind, SigningPayload};
use crate::wallet::error::Error;
use crate::wallet::seed::DerivationPath;

verus! {

/// The value of one hexadecimal digit, either case.
pub open spec fn hex_digit_value(c: char) -> Option<int> {
    if '0' <= c <= '9' {
        Some(c as int - '0' as int)
    } else if 'a' <= c <= 'f' {
        Some(c as int - 'a' as int + 10)
    } else if 'A' <= c <= 'F' {
        Some(c as int - 'A' as int + 10)
    } else {
        None
    }
}

/// `text` without a leading `0x` or `0X`, when it has one.
pub open spec fn strip_hex_prefix(text: Seq<char>) -> Seq<char> {
    if text.len() >= 2 && text[0] == '0' && (text[1] == 'x' || text[1] == 'X') {
        text.subrange(2, text.len() as int)
    } else {
        text
    }
}

/// What alloy's `Address::from_str` reads from a string: after an optional `0x`
/// or `0X`, exactly 40 hexadecimal digits of either case, read two to a byte into
/// the 20 address bytes; nothing for any other text.
pub open spec fn parsed_evm_address(text: Seq<char>) -> Option<Seq<u8>> {
    let body = strip_hex_prefix(text);
    if body.len() == 40 && forall|i: int| 0 <= i < 40 ==> #[trigger] hex_digit_value(body[i]) is Some {
        Some(
            Seq::new(
                20,
                |i: int| (hex_digit_value(body[2 * i])->0 * 16 + hex_digit_value(body[2 * i + 1])->0) as u8,
            ),
        )
    } else {
        None
    }
}

/// alloy's EIP-55 checksummed rendering (`0x` and 40 hex digits) of an address.
pub uninterp spec fn eip55_text(bytes: Seq<u8>) -> Seq<char>;

/// The view of optional bytes.
pub open spec fn opt_byte_seq(o: Option<Vec<u8>>) -> Option<Seq<u8>> {
    match o {
        Some(v) => Some(v@),
        None => None,
    }
}

/// Read an address with alloy's `Address::from_str`, returning its 20 bytes.
///
/// The contract states what alloy's hex decoding reads (see [`parsed_evm_address`])
/// and adds that an address is 20 bytes long.
#[verifier::external_body]
fn parse_hex_address(text: &str) -> (r: Option<Vec<u8>>)
    ensures
        opt_byte_seq(r) == parsed_evm_address(text@),
        r matches Some(b) ==> b@.len() == 20,
{
    match text.parse::<alloy_primitives::Address>() {
        Ok(a) => Some(a.as_slice().to_vec()),
        Err(_) => None,
    }
}

/// Render 20 address bytes with alloy's `Address::to_checksum` (no chain id).
///
/// The contract names the result and states that alloy's parser reads the rendered
/// text back to the same bytes: the text is `0x` and the address in hex, whose
/// letter case the parser ignores.
#[verifier::external_body]
fn checksum_address(bytes: &[u8]) -> (r: String)
    requires
        bytes@.len() == 20,
    ensures
        r@ == eip55_text(bytes@),
        parsed_evm_address(r@) == Some(bytes@),
{
    alloy_primitives::Address::from_slice(bytes).to_checksum(None)
}

/// The canonical text of an address string, when it is one.
pub open spec fn canonical_address(text: Seq<char>) -> Option<Seq<char>> {
    match parsed_evm_address(text) {
        Some(b) => Some(eip55_text(b)),
        None => None,
    }
}

/// The EVM family's [`Chain`] implementation. It is stateless.
#[derive(Clone, Copy, Debug, Default)]
pub struct EvmChain;

impl EvmChain {
    /// Construct the EVM chain implementation.
    pub fn new() -> (r: Self)
        ensures
            r.family() == ChainKind::Evm,
    {
        EvmChain
    }
}

impl Chain for EvmChain {
    open spec fn family(&self) -> ChainKind {
        ChainKind::Evm
    }

    /// Derivation is refused, so no address is derived.
    open spec fn derives(&self, seed_material: Seq<u8>, path: Seq<char>, address: Seq<char>) -> bool {
        false
    }

    /// Import is refused, so no address is computed.
    open spec fn imports(&self, private_key: Seq<u8>, address: Seq<char>) -> bool {
        false
    }

    /// Signing is refused, so nothing is signed.
    open spec fn signs_derived(
        &self,
        seed_material: Seq<u8>,
        path: Seq<char>,
        payload: SigningPayload,
        signature: Seq<u8>,
    ) -> bool {
        false
    }

    /// Signing is refused, so nothing is signed.
    open spec fn signs_imported(&self, private_key: Seq<u8>, payload: SigningPayload, signature: Seq<u8>) -> bool {
        false
    }

    /// An address reads as its EIP-55 text.
    open spec fn parses(&self, text: Seq<char>, address: Seq<char>) -> bool {
        canonical_address(text) == Some(address)
    }

    /// An EVM address renders as its EIP-55 text; other text as it is.
    open spec fn formats(&self, address: Seq<char>, text: Seq<char>) -> bool {
        text == match canonical_address(address) {
            Some(c) => c,
            None => address,
        }
    }

    fn kind(&self) -> (r: ChainKind) {
        ChainKind::Evm
    }

    /// No secp256k1 key-derivation backend is built in, so derivation is refused.
    fn derive_address(&self, seed_material: &[u8], path: &DerivationPath) -> (r: Result<
        ChainAddress,
        Error,
    >)
        ensures
            r matches Err(Error::Derivation),
    {
        Err(Error::Derivation)
    }

    /// No secp256k1 backend is built in, so a key's address cannot be computed.
    fn import_address(&self, private_key: &[u8]) -> (r: Result<ChainAddress, Error>)
        ensures
            r matches Err(Error::Derivation),
    {
        Err(Error::Derivation)
    }

    /// No secp256k1 signing backend is built in, so signing is refused.
    fn sign(&self, secret: AccountSecret<'_>, payload: &SigningPayload) -> (r: Result<
        Vec<u8>,
        Error,
    >)
        ensures
            r matches Err(Error::Signing),
    {
        Err(Error::Signing)
    }

    /// Read an address and canonicalise it to its EIP-55 text. Fails with
    /// [`Error::AddressParse`] when the text is not an EVM address in hex. The
    /// canonical text is itself canonical, so parsing it again gives it back.
    fn parse_address(&self, text: &str) -> (r: Result<ChainAddress, Error>)
        ensures
            match r {
                Ok(a) => canonical_address(text@) == Some(a@) && canonical_address(a@) == Some(
                    a@,
                ),
                Err(e) => e is AddressParse && canonical_address(text@) is None,
            },
    {
        match parse_hex_address(text) {
            Some(bytes) => {
                let canonical = checksum_address(bytes.as_slice());
                Ok(ChainAddress::new(canonical.as_str()))
            },
            None => Err(Error::AddressParse),
        }
    }

    /// Render an address in EIP-55 form; text that is not an EVM address is
    /// returned as it is.
    fn format_address(&self, address: &ChainAddress) -> (r: String)
        ensures
            r@ == match canonical_address(address@) {
                Some(c) => c,
                None => address@,
            },
    {
        match parse_hex_address(address.as_str()) {
            Some(bytes) => checksum_address(bytes.as_slice()),
            None => address.as_str().to_owned(),
        }
    }
}

/// Wrap an arbitrary message as an EVM [`SigningPayload`] of kind
/// [`PayloadKind::Message`] (EIP-191 `personal_sign`).
pub fn message_payload(message: &[u8]) -> (r: SigningPayload)
    ensures
        r.chain == ChainKind::Evm,
        r.kind == PayloadKind::Message,
        r.body@ == message@,
{
    let mut body: Vec<u8> = Vec::new();
    extend_from_slice(&mut body, message);
    assert(body@ =~= message@);
    SigningPayload { chain: ChainKind::Evm, kind: PayloadKind::Message, body }
}

/// Wrap an EIP-712 request as an EVM [`SigningPayload`] of kind
/// [`PayloadKind::TypedData`] whose body is the document's UTF-8 bytes.
pub fn typed_data_payload(typed: &TypedDataRequest) -> (r: SigningPayload)
    ensures
        r.chain == ChainKind::Evm,
        r.kind == PayloadKind::TypedData,
        r.body@ == utf8(typed.raw_json@),
{
    let mut body: Vec<u8> = Vec::new();
    extend_from_slice(&mut body, typed.raw_json.as_str().as_bytes());
    assert(body@ =~= utf8(typed.raw_json@));
    SigningPayload { chain: ChainKind::Evm, kind: PayloadKind::TypedData, body }
}

} // verus!
