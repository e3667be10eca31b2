# stateless_witness

Verified core logic for stateless Ethereum block validation with execution witnesses.

The library (`src/`) is written in Verus. Its functions carry contracts proved by the
verifier, except four trusted wrappers around outside crates, whose contracts are believed
and not proved: `bytes::keccak256` (alloy-primitives), `validation::decode_header_exact`
and `trace::decode_header_prefix` (alloy-rlp header decoding for alloy-consensus), and
`grpc::encode_bytes_field` (prost). `flat_witness` also declares alloy-consensus's
`Header` type so that verified code can carry it. The modules:

- `bytes`, `entries`, `state`: fixed-width byte strings, entry lists that stand for hash
  maps, and the execution state (accounts, storage, code, block hashes) as plain values.
- `validation`: ancestor headers of a block (decoding, the `BLOCKHASH` window, the chain
  back from the parent), flat-witness checks against the sparse trie, post-state roots.
- `bincode`: canonical (sorted) encodings of the flat-witness state, and their decoding.
- `record`: what block execution touched, recorded for execution and flat witnesses.
- `provider`: the flat pre-state of a block, assembled from the latest state's answers.
- `flat_witness`, `flat_execution_witness`: flat witnesses and the failing databases
  behind their caches.
- `grpc`, `bench`: witness requests, protobuf responses, streamed chunks, mock witnesses.
- `trace`: ancestor headers and pre-state for tracing a block from its witness.
- `ress`: lookup order, witness window, ancestor walk and header collection of the ress
  protocol provider, as step functions driven by the caller.
- `chain_spec`: hardfork activation and blob parameters.
- `util`: file discovery and tracing-filter decisions.

Not in this crate, because each step of them runs reth's EVM, trie or task machinery:
tracing a block through the EVM, stateless validation and execution of a block, building
trie witnesses and multiproofs, the LRU witness cache, and the gRPC service and ress
network glue themselves. The decisions around them that can be separated stand in `src/`
(ancestor checks, pre-state assembly, witness windows and walks, chunking, error mapping).

`app/` holds the unverified edges: conversions from and to the EVM's types, serde and
protobuf forms, the tracing setup and the lookup loops. `tests/` holds the tests,
including the JSON-versus-protobuf witness size benchmarks (`--nocapture` shows them).

Some items come from crates that larger frameworks re-export: hardfork names from
`alloy-hardforks` (re-exported by reth's chain specification), protobuf encoding from
`prost` (used by tonic), and account and bytecode types from `revm-state` and
`revm-bytecode` (re-exported by revm). The crate depends on those packages directly.
