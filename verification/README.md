# h_5n1p3r oracle core

The decision logic of a Solana memecoin launch oracle, written in Verus and proved against
its contracts.

- `src/` is the verified library:
  - `addresses`: Solana addresses, known programs and metadata accounts, through `solana-program`.
  - `backoff`, `breaker`: exponential backoff and the per-endpoint circuit-breaker state machine,
    with its two-phase shutdown.
  - `bundles`: bot timing, bundle windows, suspicious clusters and repeated addresses in a
    launch's first transactions.
  - `chain_data`: parsing of mint and token accounts, pools, creator history, volume samples and
    the supply cache.
  - `classification`, `scoring`, `early_pump`: strategy switching, strategy base scores and the
    BUY/PASS rule.
  - `holder_growth`, `trending`: holder snapshots and flattening, DEX trending ranks and events.
  - `wallet_graph`: the wallet transfer graph on `petgraph`, with components, cycles, clusters
    and wash-trading groups.
- `tests/` runs the library on concrete values.
- `app/` holds what cannot be verified: RPC and HTTP clients, async tasks, caches, metrics and
  the floating-point scores and thresholds. It calls the library for the integer decisions,
  parsing and graph work; decisions made on floating-point measures stay in `app/`.
