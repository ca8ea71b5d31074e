# agent-first-config

Dot-path access to configuration documents, with its behaviour stated in Verus
contracts and proved.

A document is a `Value` tree (null, bool, integer, unsigned integer above the `i64`
range, float kept as its decimal text, string, array, object with sorted keys). Paths are dot-separated; `\.` and `\\`
stand for a dot and a backslash inside a key. Arrays are addressed by decimal
index, or by slug when the array is registered as a keyed list.

## Layout

- `src/value.rs` — `Value`, `ObjectMap` (keys kept sorted by a type invariant) and
  their mathematical model `Model`.
- `src/path.rs` — reading and writing dot paths.
- `src/coerce.rs`, `src/number.rs` — turning command-line strings into values,
  by shape or toward the type already stored.
- `src/traverse.rs` — `get_path`, `set_path`, `add_scalar`, `remove_scalar`,
  `remove_path`.
- `src/keyed.rs` — keyed lists: `add_keyed`, `remove_keyed`.
- `src/laws.rs` — proved properties relating the operations (a read after a write,
  what other paths keep, what a removal leaves, path round trips).
- `src/format/` — format detection; reading JSON, TOML and YAML documents through their
  parsers (the parsed tree is named as a function of the text and its conversion is
  proved), and dotenv and INI documents with this library's own verified parsers.
- `src/schema.rs` — field schemas, the markdown reference and annotated listings.
- `src/render.rs`, `src/error.rs` — text renderings and error messages.
- `src/cli.rs` — the decisions of the command-line tool.
- `app/main.rs` — the `afconfig` command: arguments, files, terminals and output.

Errors leave a document unchanged: every mutating operation states so in its
contract.
