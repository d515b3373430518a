# funken

A UCI chess engine whose rules, evaluation, search decisions and protocol
handling are written in Verus and proved against their contracts.

- `src/chess.rs`, `src/movegen.rs`, `src/zobrist.rs`, `src/fen.rs`: board,
  make/unmake, legal move generation, hashing, FEN reading and writing.
- `src/eval.rs`, `src/tune.rs`: tapered evaluation, its weights, and the
  weights text format.
- `src/search.rs`, `src/clock.rs`: transposition table, quiescence,
  alpha-beta with iterative deepening, time budgets.
- `src/uci.rs`, `src/session.rs`, `src/text.rs`: parsing of UCI commands and
  the protocol state machine (command in, actions out).
- `app/`: the program around the library: stdin/stdout loop, search worker
  thread, `perft` and `bench` commands, weights override from the
  environment, and Texel tuning (floating point).
