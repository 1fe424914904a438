# blockchain

A small proof-of-work blockchain, verified with Verus.

`src/` is the library:

- `text`: decimal and lower-case hexadecimal renderings, character counts.
- `digest`: SHA-256 (from `sha2`) and the block hash, the hex of the digest
  of a text's UTF-8 bytes.
- `clock`, `entropy`: the wall clock and random numbers (`rand`,
  `num-bigint`).
- `transaction`, `block`, `blockchain`: chains of single-transaction blocks
  with a transaction queue, proof-of-work mining (a hash with at least six
  `1` digits), and a simulation of competing forks settled on the longest.
- `network`: blocks of transaction batches, a node's chain with its forks
  and mempool (`node::Ledger`: how received blocks extend, fork or are
  refused, and when consensus takes a fork), node identities with RSA keys
  (`openssl`) and peer lists.
- `emulation`, `minting`: two small chains, one whose blocks are hashed
  without proof of work, one mined with big random nonces.

`app/` holds the programs: the printed emulations, the fork simulation saved
with `borsh`, and the HTTP nodes (`actix-web`, `serde_json`).
