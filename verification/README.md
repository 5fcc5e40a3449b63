# ket

A front end for the Ket language, written in Verus: source text is split into
tokens, parsed into a syntax tree, its names resolved and its nodes typed, and
an editor can ask what lies under a position and where it is defined.

- `src/` is the verified library. `arena` holds the index-based storage that
  every other table uses; `lexer`, `parser` (whose result is stated against
  the grammar of `grammar`), `resolve`/`symb` (two ways of
  qualifying and binding names, with `prelude`), `types` and `compiler` form
  the pipeline; `lsp` answers editor queries; `report` lays out the
  human-readable reports; `error`, `file` and `text` are shared pieces.
- `tests/` runs the library on concrete inputs.
- `app/` is the `ket` command: `ket live FILE` recompiles the file whenever it
  changes and prints its tree, symbols and types; `ket lsp` serves the
  language server protocol on standard input and output.
