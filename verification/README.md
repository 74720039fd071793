# map_generator

The verified core of a historical map generator: snapshots of chunks of
the world at points in time, with time-accurate borders, honest
uncertainty and layered composition. The functions under `src/` are
proved with Verus against their contracts, except a handful of small
`#[verifier::external_body]` wrappers around `serde_json` and the
standard library (parsing and printing JSON, `str::to_lowercase`,
`String::from_utf8_lossy`, `String::push`, `Debug` text), whose
contracts are trusted and say no more than those functions promise.
`app/` holds what cannot be verified (network and file I/O,
floating-point geometry readers, the command line).

## Layout

- `src/text.rs`, `src/sorting.rs`, `src/fnv.rs` — string, integer and
  hex/decimal codecs, sorted insertion, FNV-1a.
- `src/quantize.rs`, `src/arcs.rs` — quantized rings, canonical
  rotation, shared-arc extraction and its fidelity law (every ring is
  recovered from the arcs, every shared border stored once).
- `src/timeline.rs` — the ingest of one source's epochs: stable year
  order, anchor exclusion with exemptions, each epoch resolved against
  one growing arc table, versions per run of unchanged presence or
  geometry, and the narration of every difference (rises, falls,
  shifts); fidelity holds ring for ring.
- `src/waters.rs` — water datasets as multi-part regions, and the sea
  as the sphere minus the land's coasts.
- `src/world.rs` — moments at covenant granularity and worlds as
  timestamp-keyed sets: one state per instant, piecewise-constant
  history.
- `src/canon.rs`, `src/persist.rs`, `src/idmap.rs`, `src/registry.rs`,
  `src/registry_laws.rs` — the canon's vocabulary and the entity
  registry with its resolution laws.
- `src/canon_check.rs`, `src/changes.rs`, `src/selection.rs`,
  `src/journeys.rs`, `src/sweep.rs` — the canon's references and its
  validator (an empty report is a lawful canon), change events from
  moment diffs, what a layer holds at a time, journey progress, and
  merging dated rows into a layer.
- `src/canon_file.rs` — the canon file: byte-stable JSON out, and a
  loader that recomputes every content id and refuses a file whose
  declared ids do not match their content.
- `src/partition.rs` — the sphere partition's half-edge laws and its
  geometric content hash (independent of numbering).
- `src/palette.rs` — the territory colouring over the shared-border
  graph.
- `src/exports.rs` (loading the gazetteer and chronology, binding
  places and events), `src/eras.rs`, `src/audit.rs`, `src/json.rs`,
  `src/reconcile.rs`, `src/vendor.rs`, `src/narratives.rs`,
  `src/years.rs`, `src/basemaps.rs`, `src/bridge.rs`,
  `src/encoders.rs` — atlas binding and audit, reconciliation, the
  vendored-payload readers, narrative walks and the era sweep.
- `tests/` — scenario tests for each module.
- `app/` — the `refresh` command (fetch, validate, vendor), the `canon`
  command (load a canon file) and the
  `ingest` command (read epoch files, parse and quantize them, run the
  library's ingest).
