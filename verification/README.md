# lcrio

Search, browse and read Rust crate sources from a local panamax mirror of
crates.io, with the library's logic verified in Verus.

- `src/` is the verified library: the index layout (`prefix`), paths and
  configuration (`text`, `config`), the index format (`lines`, `index`), name
  search and its ranking (`search`, `select`, `order`), unpacking and file
  access decisions (`unpack`, `browse`), `Cargo.lock` handling
  (`workspace`) and the crate summary text (`report`). Reading, walking,
  extracting and parsing JSON/TOML happen in the caller, which hands the
  library plain values.
- `app/` holds the `lcrio` command line and, when the program runs under the
  name `lcrio-mcp`, the MCP server; it does the file-system work and the
  floating-point scoring and formatting.
- `tests/` exercises the library on concrete values.
