# crdt_merge

Conflict-free merge, dedup and diff for record datasets, with the library
verified by Verus.

## Layout

- `src/crdt.rs` – `GCounter`, `PNCounter`, `LWWRegister`, with their merge laws
  (commutative, associative, idempotent).
- `src/orset.rs` – `ORSet`, an add-wins observed-remove set; tags are random
  UUIDs from the `uuid` crate.
- `src/json.rs` – `Json`, the JSON values that the record functions work on:
  objects keep their fields sorted by name, each name once; its compact and
  indented text, written by `serde_json`; equality as `serde_json` compares.
- `src/merge.rs` – tabular merge of keyed records, merge strategies.
- `src/json_merge.rs` – deep merge of two JSON values.
- `src/diff.rs` – structural diff of keyed records and its text table.
- `src/dedup.rs` – exact and fuzzy deduplication; Jaccard similarity of
  character bigrams, kept as an exact fraction.
- `src/records.rs` – the records of a JSON document, the rows and text of a
  CSV table (written by the `csv` crate).
- `src/input.rs` – choosing a reader by file extension, parsing JSON
  documents (`serde_json`) and CSV tables (`csv`), the records of a table.
- `src/text.rs` – characters of strings, their order, lowercase, decimals.
- `app/main.rs` – the `crdt-merge` command line: files, float reading of CSV
  cells and of the threshold, around the library.
- `tests/` – behaviour tests of the library.
