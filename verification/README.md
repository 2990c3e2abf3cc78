# txn_pipeline

Bookkeeping of a transaction pipeline, with contracts that Verus proves.

- `src/` is the verified library.
  - `order`: sets and maps that are kept in order.
  - `transaction`, `clock`: the transactions of a mempool, and the times they carry.
  - `priority_index`, `ttl_index`, `timeline_index`, `multi_bucket`, `parking_lot`: the indexes of
    the mempool.
  - `timestamp`, `calendar`, `wire`, `chunking`, `grpc_client`: what an indexer serves, and how it is reached.
  - `state_update`, `chunk_to_commit`: chunks of transactions on their way into storage.
  - `sharded_executor`, `bencher`: the decisions of a shard that executes blocks, and the
    parameters of its benchmarks.
- `app/` is ordinary Rust around the library: connections, threads, floating point times and
  benchmarks.
- `tests/` runs the library.

Laws that relate several functions are public proof functions whose names begin with `law_`.
