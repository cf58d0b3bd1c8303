# pgnq

`pgnq` reads chess PGN files into trees of moves, and queries, filters,
splits, merges and writes them back in several formats.

The library under `src/` is verified with Verus: each public function
states what it computes over mathematical models (sequences of
characters, trees of `NodeModel`s), and Verus proves the code meets it.

- `text.rs` — characters, whitespace, decimal numbers.
- `nag.rs` — Numeric Annotation Glyphs, their symbols and `$N` notation.
- `error.rs`, `report.rs` — errors, source context, and their text.
- `tree/` — the game tree: nodes, games and tag pairs, SAN, node paths,
  walks over the tree.
- `parser/` — the lexer, the handling of move references in prose, and
  the tree builder.
- `serializer/` — standard, Lichess, minimal and tree-view output, and
  the wrapping of standard movetext at a line width.
- `cli/` — what each command computes from its arguments.
- `readback/` — what reading gives back of what the writer writes: a
  game written in standard PGN, with its variations, parses back to the
  same tree of moves, annotations, result and tag pairs, at any line
  width.

`app/` is the program around the library: command-line parsing, files,
standard input and output, JSON.
