# nybble

A binary structure explorer's engine, verified with Verus: describe a file's
layout in a small declarative schema language, and the library turns bytes
into a tree of fields, each recording the exact byte range it came from.

## Layout

- `src/` — the verified library.
  - `reader` — endian-aware reads from a byte buffer.
  - `schema`, `lexer`, `parser`, `parse_error` — the schema language: AST,
    tokens, and schema text to AST.
  - `runtime`, `transform` — running a schema against bytes (structs, arrays,
    enums, bitfields, pointers, conditions, `match`, `repeat`, computed
    fields, varints, `decode` transforms) into a field tree.
  - `detection` — magic-number format detection.
  - `analysis` — string scanning, per-offset guesses, Unix time rendering,
    and the integer side of the entropy view.
  - `search` — byte-pattern search and query encoders.
  - `editing` — overwrite edits with undo/redo, and typed value encoding.
  - `library` — schema metadata headers.
  - `plugin`, `installed` — declarative format plugins, their listing,
    install checks and exported packs.
  - `catalog` — the schema library: file names, entries, schema ids.
  - `session` — the computations behind the open-file commands.
  - `licensing` — feature tiers.
  - `text` — small text utilities.
- `tests/` — tests of the library.
- `app/` — the desktop back end: files, memory mapping, the plugin and
  library directories, the registry download, TOML and JSON, and the
  floating-point parts (float encoding, float readings, entropy).
