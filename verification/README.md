# ccr

Output filters for command-line tools (`kubectl`, `gh`, `npm`, `make`, `psql`,
`tree`, `curl`, JSON and log output, and user-defined filters), verified with Verus.

- `src/` is the verified library. Each handler states what it returns as a spec
  function over character sequences (`src/handlers/*.rs`); `src/text.rs` holds the
  string model (lines, trimming, searching, UTF-8 byte offsets) with its executable
  counterparts. Regular expressions (`src/pattern.rs`), Unicode case mapping
  (`src/unicode.rs`) and JSON parsing and printing (`src/json_schema.rs`) are called
  through small trusted wrappers whose results are named by uninterpreted spec
  functions.
- `app/` is the unverified plumbing: the handler interface the runner uses, the
  summarizer hook for `kubectl logs`, and loading `filters.toml` files from disk.
- `tests/` runs the library on concrete inputs.
