# crown-indexer

The single paid index of settled donations. It reads `Settled` events of a pinned
splitter and escrow births of pinned factories from finalized Solana transactions,
folds them into a book of reputation, and serves reads with witnesses that
reconstruct to one certified root.

`src/` is the library, verified with Verus. `app/` is the canister around it: the
state in memory, candid, cycles, the one paid outcall. `tests/` runs the library.

| Module | What it holds |
| --- | --- |
| `lib.rs` | the two halves of an ingest and the free reads |
| `gate` | the order of the checks before any work |
| `parse`, `message`, `base58` | a reply, down to the wire form of a transaction |
| `recognize`, `derive` | settlements and births in one transaction |
| `state`, `certified`, `reduce`, `applied` | the fold, the certified state, the law of the book, exactly-once |
| `page`, `tree`, `digest` | pages in key order, certified trees, SHA-256 |
| `config`, `profile`, `text`, `rpc` | a deployment, how it is read, the request it makes |
| `*_laws` | what holds of every transaction, fold, ingest and message |

The library rests on the contracts of a few functions of other crates: the trees and
hash trees of `ic-certified-map`, their CBOR form by `ciborium`, SHA-256 of `sha2`,
program addresses and the curve test of `solana-program`, and base58 of `bs58`. Each
is stated where the function is wrapped.

The canister is built with the name of a profile in `CROWN_PROFILE` and its text in
`CROWN_CONFIG`.
