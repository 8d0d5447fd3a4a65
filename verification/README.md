# daemon_wallet

A hierarchical, multi-chain wallet kept in an encrypted vault file, written in
Verus. The functions in `src/` carry `requires`/`ensures` contracts that the
verifier proves, except the small trusted wrappers over outside crates and std
(marked `#[verifier::external_body]`, each with a doc comment saying what its
contract claims of the outside call), whose contracts are taken on trust. The
`Chain` trait's contracts are stated over its spec functions (`family`,
`derives`, `imports`, `signs_derived`, `signs_imported`, `parses`, `formats`),
which each implementation defines.

## Layout

- `src/vault/` — the encrypted store: the file header format, Argon2id key
  derivation and XChaCha20-Poly1305 sealing (behind small trusted wrappers over
  the `argon2`, `blake2`, `chacha20poly1305`, `getrandom`, `region` and `zeroize`
  crates), zeroized and page-locked secret buffers, and the in-memory vault with
  its seal and unseal steps.
- `src/wallet/` — the chain-neutral wallet: ids, the nested group tree (kept
  acyclic by a type invariant), seeds, imported keys, accounts, the manifest and
  the `Wallet` aggregate. Chain-specific work goes through the `Chain` trait.
- `src/evm/` — the EVM family: the chain registry with its merge rules,
  EIP-55 addresses (through `alloy-primitives`), signing payloads and the
  65-byte signature layout.
- `src/protocol/` — the wire protocol's version check and data objects.
- `app/` — the unverified shell: file I/O and atomic writes, CBOR encoding of the
  entry map and manifest, the floating-point password-strength estimate, serde
  copies of the protocol types, and the client.
- `tests/` — example-based tests of the library.

Each public proof function states one law of the library in its doc comment.
