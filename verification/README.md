# makefile-lsp

A language server for Makefiles, and a SCIP indexer for them, whose logic is
proved with Verus.

- `src/` is the library: every language feature (diagnostics, completion,
  hover, go-to-definition, references, rename, highlights, symbols, folding,
  semantic tokens, selection ranges, signature help, inlay hints, code
  actions, document links, on-type formatting, incremental edits) and the
  SCIP index are functions from the document text and its parse to plain
  values, each with a contract stated over spec functions.
  Parsing is done by `makefile-lossless`; `src/makefile.rs` copies what the
  features read from its syntax tree into plain values, behind trusted
  wrappers whose results are named by uninterpreted spec functions.
  Laws that span several functions (position/offset round trips, references
  matching rename edits, the dependency graph's mirrored queries, the
  decoding of semantic-token deltas, ...) are public proof functions.
- `app/` is the executable: the LSP server over stdin/stdout
  (`tower-lsp-server`, `tokio`), directory listing for path completion,
  and the `scip` subcommand that reads files and writes the index with
  the `scip` crate.
- `tests/` runs the library on concrete documents.
