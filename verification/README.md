# blitz

The verified core of a serverless SQL engine: what it decides, parses, stores
and computes, as a Verus library. Every function of `src/` has a contract, and
the properties that span functions stand beside them as proof functions.

- `format` — columnar files: pages, LZ4 blocks, footers, pruning, Parquet values
- `iceberg`, `avro`, `avro_file`, `avro_container`, `doc` — tables: JSON, Avro
  containers, manifests, metadata, pruning by bounds
- `plan`, `engine` — statements: grammar, binding, plans, scans, joins, results
- `sql`, `kernel`, `cluster`, `ramp` — queries over blocks: kernels, clustering,
  the queue of morsels, the messages between a coordinator and its workers
- `meta` — the replicated catalog: votes, appends, membership, snapshots, files
- `stream` — epochs over partitioned logs and their offsets
- `store`, `boot`, `queryd`, `sample` — warehouse keys, microVM requests, the
  query daemon's answers, generated data
- `wire`, `partial`, `varint`, `text`, `chars`, `sort` — what the rest rests on

`app/` is the program around the library: sockets, threads, files, clocks and
floating point. `tests/` runs the library.
