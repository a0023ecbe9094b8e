# caching_strategies

A witness-cache simulator for stateless Ethereum, written in Verus. Each block
of a mainnet access trace is run through a leaf cache and an extension-node
cache under one of three replacement policies (LRU, LFU, ARC) with an N-block
retention window, and the Verkle witness bytes that the caches save are
accounted per block and per stratum.

## Layout

- `src/` — the verified library.
  - `model` — addresses, keys, block records; hex encoding and parsing.
  - `ordered` — an insertion-ordered map with O(1) unlink, the shared
    primitive under every policy and window.
  - `policy/{lru,lfu,arc}` — the replacement policies, each specified
    exactly over its abstract lists; `policy` joins them in `CachePolicy`.
  - `window` — the retention window.
  - `witness` — the EIP-4762 key-to-leaf derivation and the per-block
    witness size model.
  - `cache` — the driver: expiry, invalidation, reads and stem accesses for
    one block, stated as a run of the policies' own steps.
  - `metrics` — survival histograms, per-contract invalidation counts, block
    series and run totals.
  - `manifest`, `loader`, `strata`, `config`, `sweep` — the dataset
    manifest, shard unpacking and record conversion, stratum membership, the
    sweep grid and one simulation over a shard.
- `tests/` — integration tests against the compiled library.
- `app/` — the command-line program: file I/O, msgpack decoding, Parquet
  output, the parallel sweep, and the floating-point summaries.
