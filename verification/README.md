# PHANTOM

A paged key/value cache that several inference agents share, kept coherent by a
MESI protocol, with a scheduler and an HTTP service on top. The library is
verified with Verus; the service around it is ordinary Rust.

## Library (`src/`)

| Module | What it holds |
|---|---|
| `kv::tokens` | token blocks and their XXH3 keys |
| `kv::block` | `BlockSlab`: equal blocks of bytes, counted by reference |
| `kv::trie` | `DualRadixTrie`: which token blocks are cached where; `trie_model` says what a trie is, `trie_laws` what holds of it |
| `kv::cache` | `KvCache`: slab and trie together; laws in `cache_laws` and, on who owns which block, `ledger` |
| `coherence::entry` | one artifact and its MESI invariants |
| `coherence::routing` | `RoutingIndex`: which artifacts are filed along which blocks |
| `coherence::engine` | `CoherenceEngine`; model in `engine_model`, laws in `engine_laws` and, on what every operation keeps, `ownership` |
| `coherence::sync` | `SyncEngine`: the engine behind a lock |
| `router`, `scheduler` | requests: route, read or register, renew what is stale |
| `api` | what a request must look like, what is answered, and the metrics |

Blocks hold `B` tokens, a const generic. Operations that look blocks up by key
come in two forms: one computes the keys, the other (`.._keyed`) is given them.

Artifacts share cached blocks. Every block is referenced once for each artifact that
lists it, so an artifact can be invalidated without harm to the others, and its
blocks are free as soon as the last one lets go of them.

One statement is trusted without proof: that `xxhash_rust::xxh3::xxh3_64` is a
function of its input.

## Service (`app/`)

`POST /v1/serve` takes `{ "tokens": [u32], "agent_id": u64, "kv_data": [u8] }` and
answers `{ "cache_hit": bool, "block_ids": [u64], "latency_ns": u64 }`;
`GET /health` answers `ok`; `GET /metrics` answers with Prometheus text.

`tokens.len()` must be a non-zero multiple of `B` (16 here), and `kv_data.len()` must
equal `n_blocks * B * element_stride`; other requests are answered with status 400.
