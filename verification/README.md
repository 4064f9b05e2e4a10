# zkp

A minimal zero-knowledge rollup whose library is verified with Verus:
Pedersen commitments, the Schnorr Sigma protocol with Fiat-Shamir
challenges, bit-decomposition range proofs with bit-OR proofs, Merkle
membership proofs, and an account state machine with signed, nonce-checked
transfers.

## Layout

- `src/` — the verified library. Big numbers are canonical big-endian bytes
  (`bignum`), with arithmetic done by `num_bigint`, hashing by `sha2` and
  randomness by `rand`, each behind a small trusted wrapper whose contract
  states what that crate's source shows.
  - `commitment`, `sigma`, `bits`, `merkle`, `prime_field`: the proof
    systems, with their completeness and homomorphism laws.
  - `account`, `transaction`, `state`, `wallet`, `error`, `access`, `dto`,
    `batch`: the rollup; `state` proves that a refused transfer changes
    nothing, that an accepted one moves exactly its amount, that a transfer
    takes effect at most once, that money is conserved, and that the state
    root does not depend on insertion order.
  - `decimal`, `text`: decimal text in and out, and the operations of the
    browser front end on text, with the order of their checks and errors.
- `tests/` — tests of the library, run against the real outside crates.
- `app/` — what is not verified: the axum server with its mempool and sled
  storage, the command-line client (`zkp cli <command>`), the WebAssembly
  bindings, and serde copies of the library's records.
