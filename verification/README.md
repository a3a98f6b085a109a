# path_sense_lsp

Path completion for editors, verified with Verus.

- `src/` is the library. It finds the path token at the cursor (with tree-sitter
  grammars for each supported language, or a lexical fallback), resolves it against
  workspace roots, the home directory and user path mappings, ranks directory
  entries into completion items, keeps open documents in sync with incremental
  edits, and renders file and directory previews. Every function there carries a
  contract that Verus proves; calls into tree-sitter, globset and std's path and
  text decoding stand behind small trusted wrappers. Their contracts say what those
  libraries document, and where a result is too large to restate (whether a glob
  matches, what a tree-sitter query captures from the tree a given sequence of
  parses produced) they give it a name, a function of the call's inputs.
- `app/` is the language server around it: the LSP transport (tower-lsp, tokio),
  JSON settings (serde), and the disk reads the library asks for.
- `tests/` runs the library on concrete inputs.
