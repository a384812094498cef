# nexus_core

A timeline engine for large forensic text exports (CSV, TSV, pipe-separated
bodyfiles, ...), written in Verus. The library indexes a file's records,
parses quoted fields, searches with a small query language backed by a
trigram bloom filter, sorts and groups rows, tags rows, and renders views
back to CSV, JSON or HTML. Every function of the library carries a
`requires`/`ensures` contract; Verus proves each one, except those of the
small trusted wrappers around outside crates and std described below.

## Layout

- `src/` — the verified library.
  - `index.rs`, `scan.rs` — the record index over the raw bytes.
  - `parser.rs`, `encoding.rs`, `text.rs` — field splitting, unquoting,
    decoding and the character-level helpers.
  - `schema.rs` — parser schemas, presets and delimiter sniffing.
  - `query.rs`, `pattern.rs` — the query tokenizer, parser and evaluator,
    and the compiled regexes of `/regex/` terms.
  - `bloom.rs` — the per-block trigram bloom filter.
  - `dataset.rs`, `view.rs`, `tags.rs` — an opened dataset, its views and
    row tags.
  - `sort.rs`, `group.rs` — stable multi-key sorting and the group tree.
  - `export.rs` — CSV/TSV/JSON/HTML rendering.
  - `mcp.rs` — the decisions of the MCP server: method and tool dispatch,
    paging, the registry of open timelines.
- `tests/` — tests of the library, run against the compiled crate.
- `app/` — the program around the library: file mapping, schema files in
  JSON/YAML, the MCP stdio server, the C ABI, and number parsing for sort keys.

Calls into outside crates (`memchr`, `encoding_rs`, `regex`, `smallvec`) and a
few std calls sit behind small trusted wrappers (`#[verifier::external_body]`);
their contracts are believed, not proved, and each doc comment says what it
claims of the call it makes.
