# apefish engine

A chess engine core written in Verus: board representation with incremental
hashing and evaluation, table-driven move generation, FEN, a transposition
table, iterative-deepening alpha-beta search with time management, and the
UCI text the engine reads and writes. Every function in `src/` is verified
against its contract; the laws of the library (make/unmake round trips, FEN
round trips, hash consistency, move generation against the rules of
movement, table fetch after store, and more) are proof functions there.

- `src/` — the verified library.
- `tests/` — tests of the library on concrete positions, including perft
  counts, game-status cases, search tactics and UCI text.
- `app/` — the `apefish` program: argument handling, the UCI loop over
  stdin/stdout, and the threaded engine front-end that runs searches.
