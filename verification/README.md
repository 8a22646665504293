# tuckdb

A small columnar table store with an incremental embedding engine, written
in Verus. The functions in `src/` are verified against their contracts,
except the small trusted wrappers, marked `#[verifier::external_body]`,
that call std, zstd and sqlparser: Verus takes their contracts as given.

- `src/storage`: the blob format, the column encodings (delta, XOR, RLE,
  bitmap, dictionary with zstd) and the table manager, with round-trip
  lemmas for each encoding and for whole blobs.
- `src/exec`, `src/api`: logical plans, the optimizer, batch filtering and
  projection, the SQL planner over sqlparser's statements, row building and
  schema parsing.
- `src/lifecycle`, `src/incremental`, `src/embedding`: document versions,
  deterministic chunking (which loses only whitespace), content
  deduplication, the embedding store and the engine that re-embeds only the
  chunks an update changed, with its persistence.
- `src/cache`, `src/backend`: the chunk and result caches and the in-memory
  blob backend.

`app/` holds what is not verified: the C interface, file I/O, and plan
execution over `f64` values. `tests/` exercises the library from outside.
