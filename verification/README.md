# xy_build

Configuration support for XY Build projects, verified with Verus.

- `src/syntax.rs` — the concrete syntax tree that the XY Build tree-sitter
  grammar produces, held as plain values.
- `src/parser.rs` — turns that tree into entries (`key value`, or a key and a
  block of nested entries), or into the syntax errors it holds.
- `src/options.rs` — the `Parseable` trait and the typed configuration
  (`Config`, `NodeModules`, `Run`, …) read from parsed values.
- `src/schema.rs` — the schema the editor support checks documents against.
- `src/editor.rs` — diagnostics, hover and completion for editors.
- `src/agreement.rs` — proof that a configuration the typed options accept
  draws no diagnostics, provided the free-form values of its nested blocks
  (scripts, dependencies) are simple values rather than blocks.
- `src/documents.rs` — the documents an editor has open, by URI.
- `src/text.rs` — UTF-8 text helpers stated against vstd's UTF-8 model.
- `app/main.rs` — the language server: document store, tree-sitter parsing
  and the LSP protocol, around the library.
