# ply

A chess data toolkit whose core is verified with Verus: FEN reading and
writing, legal move generation, perft, SAN reading and writing, PGN parsing,
game replay, opening names and aggregate statistics.

Layout:

- `src/` — the verified library.
  - `board.rs`: colors, pieces, squares, moves, positions.
  - `text.rs`: character-level helpers (`str` operations stated over `Seq<char>`).
  - `movegen.rs`: attacks, pseudo-legal and legal moves, making and unmaking moves.
  - `perft.rs`: leaf counts of the legal-move tree.
  - `fen.rs`, `fen_roundtrip.rs`: FEN reading and writing, and the proof that
    writing a position and reading it back gives the same position.
  - `san.rs`, `san_roundtrip.rs`: SAN reading (resolution against legal
    moves) and writing, and the proof that a move written in SAN reads back
    as itself when no other legal move shares its text.
  - `pgn.rs`: splitting a PGN file into games, tag pairs, movetext, replay.
  - `keyed.rs`: maps kept as vectors sorted by string key.
  - `opening.rs`, `stats.rs`, `export.rs`, `render.rs`: opening names,
    summaries and totals, the JSON summary record, report texts.
- `app/` — the command-line program: argument parsing, file reading, JSON
  output and the averages (floating point) of the statistics report.
- `tests/` — tests of the library.
