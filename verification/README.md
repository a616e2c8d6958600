# context_compressor_mcp

Context packs from source files, for an MCP server that hands them to a
language model: comments stripped (doc comments kept), imports hoisted and
deduplicated, whitespace collapsed, and, for files still too large, a
signature-only outline whose elided bodies can be fetched back one symbol at a
time.

The library under `src/` is written in Verus; every function in it is verified
against its contract.

- `src/compress/` is the pipeline: `comments`, `imports`, `whitespace`,
  `signatures` (outline mode, with `docstring` and `declaration`), `extract`
  and `block` (symbol extraction), `lang`, and the trust boundary in `guard`
  and `denylist` (the guard refuses exactly what the deny list names).
  `compress_str`, `compress_file` and `extract_symbol` in
  `compress/mod.rs` put it together.
- `src/mcp/` holds the protocol decisions: what a line off the wire amounts
  to, how a request is classified and answered, the JSON-RPC error codes.
- `src/tools.rs` names the two tools and renders what each one answers.
- `src/usage.rs` formats the usage log line.
- `src/text.rs` and `src/paths.rs` model `str` and `Path` operations over
  character sequences. Paths are `/`-separated, as on Unix; the guard's
  containment and deny-list decisions are made on that model.

`app/` is the server itself: stdio, serde, the filesystem probe that the guard
decides on, the clock, the environment, and the saved-percentage figure, which
is floating point.
