# codesize

Scans a source tree and reports files and functions that exceed per-language
size limits, as CSV rows sorted by language, then by line count (largest
first).

## Layout

- `src/` — the library, verified with Verus.
  - `config.rs` — built-in limits and skip lists; merging a configuration
    file into them; normalizing extension keys.
  - `syntax.rs` — the boundary to tree-sitter: grammars, parsing, and reading
    a tree as its visible nodes in preorder.
  - `parser.rs` — line counting and finding functions (and their names) in
    a parsed file.
  - `scanner.rs` — which files are measured, the findings against the limits
    (with a tolerance), report order and CSV records.
  - `table.rs`, `text.rs` — string-keyed tables and character helpers.
- `app/main.rs` — the command line: reading the configuration file, walking
  the tree, reading files, writing the CSV.
- `tests/` — tests of the library.
