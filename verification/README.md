# minihouse

A small columnar storage engine, verified with Verus.

- `src/` is the library: typed columns and blocks, schemas and their text
  files, the block framing of column files (with LZ4 through `lz4_flex`),
  part writers and readers over in-memory files, table bookkeeping (part
  names, insert checks, the scan state machine), single-column queries with
  integer aggregates, and the synthetic data of the column-versus-row
  comparison. Verus proves every function there against its contract,
  except the few trusted wrappers around `lz4_flex`, `rand` and std,
  whose contracts are taken as given. The round-trip laws (a written part
  reads back block by block, schema files read back as written, the column
  store agrees with the row store)
  stand as proof functions in `round_trip.rs`, `schema_files.rs`,
  `table.rs` and `bench_data.rs`.
- `app/` holds what touches the filesystem, the floating-point aggregates
  and filters, the `thiserror` error types, and the benchmark driver.
- `tests/` runs the library on concrete values.
