# chess_engine

A chess engine library whose rules, notation, search and game analysis are
written in Verus and proved against their contracts.

## Layout

- `src/` — the verified library.
  - `types`, `bitboard`, `attacks`, `magic`, `rng`, `zobrist`: squares,
    pieces, bit boards, attack sets (ray walks and magic tables), the
    SplitMix64 generator and Zobrist keys.
  - `position`, `moves`, `movegen`, `rules`: positions with make/unmake,
    the move encoding, legal move generation and game-ending rules.
  - `fen`, `san`, `pgn`, `text`: FEN, SAN and PGN reading and writing.
  - `game`: a game with its history, undo and status.
  - `eval`, `tt`, `search`: evaluation, transposition table and the
    alpha-beta search with iterative deepening.
  - `analysis`: per-move classification and the annotated PGN report.
  - `lib.rs`: perft, perft divide and hash recomputation.
- `tests/` — tests of the library.
- `app/` — the WebAssembly bindings, the clock and the floating-point
  accuracy figures of the game report.

Among the laws proved in `src/`: FEN, SAN, PGN and annotated PGN read back
what was written; undoing a move restores the game; make/unmake restores the
position; the divide counts add up to perft; a table probe after a store
finds the entry; the evaluation is symmetric under mirroring; the magic
tables answer every occupancy as the ray walk does.

Build and verification go through the Verus toolchain; the tests run with
`cargo test`.
